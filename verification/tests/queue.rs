use dpdp_rust::model::order::OrderId;
use dpdp_rust::simulation::event_queue::EventQueue;
use dpdp_rust::simulation::sim_event::{SimEvent, SimulatorEventData};

fn arrival(name: &str, time: i64) -> SimEvent {
    (
        SimulatorEventData::OrderArrival {
            order_id: OrderId(name.to_string()),
            order_item_ids: Vec::new(),
        },
        time,
    )
}

fn name_of(event: &SimEvent) -> String {
    match &event.0 {
        SimulatorEventData::OrderArrival { order_id, .. } => order_id.0.clone(),
        _ => "tick".to_string(),
    }
}

#[test]
fn queue_pops_in_time_order() {
    let mut q: EventQueue<SimEvent> = EventQueue::new();
    assert!(q.peek().is_none());
    assert!(q.pop().is_none());
    q.push(arrival("c", 30));
    q.push(arrival("a", 10));
    q.push((SimulatorEventData::UpdateTimestep, 20));
    q.push(arrival("d", 40));
    assert_eq!(q.len(), 4);
    assert_eq!(q.peek().map(|e| e.1), Some(10));
    let mut order = Vec::new();
    while let Some(e) = q.pop() {
        order.push((name_of(&e), e.1));
    }
    assert_eq!(
        order,
        vec![
            ("a".to_string(), 10),
            ("tick".to_string(), 20),
            ("c".to_string(), 30),
            ("d".to_string(), 40)
        ]
    );
    assert_eq!(q.len(), 0);
}

#[test]
fn queue_keeps_arrival_order_among_equal_times() {
    let mut q: EventQueue<SimEvent> = EventQueue::new();
    q.push(arrival("first", 5));
    q.push(arrival("z", 9));
    q.push(arrival("second", 5));
    q.push(arrival("early", 1));
    q.push(arrival("third", 5));
    q.push(arrival("y", 9));
    let mut order = Vec::new();
    while let Some(e) = q.pop() {
        order.push(name_of(&e));
    }
    assert_eq!(order, vec!["early", "first", "second", "third", "z", "y"]);
}

#[test]
fn queue_takes_negative_and_extreme_times() {
    let mut q: EventQueue<SimEvent> = EventQueue::new();
    q.push(arrival("max", i64::MAX));
    q.push(arrival("min", i64::MIN));
    q.push(arrival("zero", 0));
    assert_eq!(name_of(&q.pop().unwrap()), "min");
    assert_eq!(name_of(&q.pop().unwrap()), "zero");
    assert_eq!(name_of(&q.pop().unwrap()), "max");
}
