use dpdp_rust::callbacks::log_dispatch::LogDispatchCallback;
use dpdp_rust::model::factory_info::{FactoryId, FactoryInfo};
use dpdp_rust::model::order::{Order, OrderId};
use dpdp_rust::model::order_item::{OrderItemId, OrderItemType};
use dpdp_rust::model::route_info::{RouteInfo, RouteMap};
use dpdp_rust::model::table::{Duplicate, MapType};
use dpdp_rust::model::vehicle_info::{VehicleId, VehicleInfo};
use dpdp_rust::schedule::naive::NaiveScheduler;
use dpdp_rust::schedule::noop::NoopScheduler;
use dpdp_rust::schedule::Scheduler;
use dpdp_rust::simulation::callback::SimulationCallback;
use dpdp_rust::simulation::setup::{expand_orders, VehicleInitialPosition};
use dpdp_rust::simulation::simulator::Simulator;
use dpdp_rust::simulation::state::{OrderItemState, VehiclePosition};
use rand::rngs::SmallRng;
use std::collections::BTreeSet;
use rand::SeedableRng;

fn fid(name: &str) -> FactoryId {
    FactoryId(name.to_string())
}

fn vid(name: &str) -> VehicleId {
    VehicleId(name.to_string())
}

fn standard(order: &str, index: i32) -> OrderItemId {
    OrderItemId { order_id: OrderId(order.to_string()), item_type: OrderItemType::Standard, index }
}

fn order(name: &str, standard: i32, from: &str, to: &str) -> Order {
    Order {
        order_id: OrderId(name.to_string()),
        q_standard: standard,
        q_small: 0,
        q_box: 0,
        creation_time: 0,
        committed_completion_time: 80000,
        load_time: 60,
        unload_time: 60,
        pickup_id: fid(from),
        delivery_id: fid(to),
    }
}

fn factories(names: &[&str]) -> MapType<FactoryId, FactoryInfo> {
    FactoryInfo::load(names.iter().map(|n| FactoryInfo { factory_id: fid(n), longitude: 0, latitude: 0, port_num: 2 }).collect())
        .unwrap()
}

fn fleet(names: &[&str], pallets: i32) -> MapType<VehicleId, VehicleInfo> {
    VehicleInfo::load(names.iter().map(|v| VehicleInfo::new(vid(v), pallets, 24, "g".into())).collect())
        .unwrap()
}

fn roads(names: &[&str]) -> RouteMap {
    let mut roads = Vec::new();
    for from in names {
        for to in names {
            if from != to {
                roads.push(RouteInfo {
                    route_code: format!("{}{}", from, to),
                    start_factory_id: fid(from),
                    end_factory_id: fid(to),
                    distance: 500,
                    time: 600,
                });
            }
        }
    }
    RouteMap::from(roads)
}

fn simulator(orders: Vec<Order>, vehicles: &[&str], pallets: i32) -> Simulator {
    let names = ["A", "B", "C"];
    let mut at = MapType::new();
    for v in vehicles {
        at.insert(vid(v), fid("A"));
    }
    Simulator::new(
        VehicleInitialPosition::Deterministic(at),
        Order::load(orders).unwrap(),
        fleet(vehicles, pallets),
        factories(&names),
        roads(&names),
        0,
    )
    .ok()
    .unwrap()
}

fn naive_for(sim: &Simulator) -> NaiveScheduler {
    NaiveScheduler::new(sim.vehicles().duplicate(), sim.order_items().duplicate())
}

fn no_observers() -> Vec<Box<dyn SimulationCallback>> {
    Vec::new()
}

#[test]
fn the_idle_scheduler_plans_nothing() {
    let mut sim = simulator(vec![order("o", 1, "A", "B")], &["V_1"], 4);
    assert_eq!(NoopScheduler.schedule(sim.scheduler_args(0)).len(), 0);
}

#[test]
fn the_naive_scheduler_delivers_every_order() {
    let mut sim = simulator(
        vec![order("o1", 2, "A", "B"), order("o2", 1, "B", "C"), order("o3", 3, "C", "A")],
        &["V_1", "V_2"],
        4,
    );
    let mut scheduler = naive_for(&sim);
    let mut observers = no_observers();
    let steps = sim.simulate_until(i64::MAX, &mut scheduler, &mut observers).unwrap();
    assert!(steps > 0);
    assert_eq!(sim.pending_events(), 0);
    for i in 0..sim.order_items().len() {
        let id = sim.order_items().key_at(i).clone();
        assert!(sim.item_state(&id).unwrap().is_delivered());
    }
    for v in ["V_1", "V_2"] {
        assert_eq!(sim.item_stack(&vid(v)), Some(vec![]));
        assert_eq!(sim.allocated_item_stack(&vid(v)), Some(vec![]));
        assert!(matches!(sim.vehicle_position(&vid(v)), Some(VehiclePosition::Idle(_))));
    }
    assert!(sim.total_distance() > 0);
    assert_eq!(sim.summary().order_timeouts.len(), 3);
}

#[test]
fn the_naive_scheduler_gives_orders_to_the_vehicles_in_turn() {
    let mut sim = simulator(
        vec![order("o1", 2, "A", "B"), order("o2", 1, "B", "C"), order("o3", 1, "A", "B")],
        &["V_1", "V_2"],
        4,
    );
    let mut scheduler = naive_for(&sim);
    for i in 0..sim.orders().len() {
        let o = sim.orders().value_at(i).clone();
        sim.handle_order_arrival(o.order_id.clone(), o.item_ids(), 0).unwrap();
    }
    let plan = scheduler.schedule(sim.scheduler_args(0));
    assert_eq!(plan.len(), 2);
    let places = |v: &str| -> Vec<String> {
        plan.gets(&vid(v)).iter().map(|r| r.destination.0.clone()).collect()
    };
    assert_eq!(places("V_1"), vec!["A", "B", "A", "B"]);
    assert_eq!(places("V_2"), vec!["B", "C"]);
    let first = plan.gets(&vid("V_1"));
    assert_eq!(first[0].work.load_items, vec![standard("o1", 0), standard("o1", 1)]);
    assert_eq!(first[1].work.unload_items, first[0].work.load_items);
    assert_eq!(first[2].work.load_items, vec![standard("o3", 0)]);
    assert_eq!(first[3].work.unload_items, vec![standard("o3", 0)]);
    assert_eq!(plan.gets(&vid("V_2"))[0].work.load_items, vec![standard("o2", 0)]);
    assert_eq!(sim.check_planned_routes(&plan), Ok(()));
}

#[test]
fn the_naive_scheduler_unloads_what_is_planned_on_board() {
    let mut sim = simulator(vec![order("o1", 2, "A", "B")], &["V_1"], 4);
    let mut scheduler = naive_for(&sim);
    let mut observers = no_observers();
    // the order, the first tick, the arrival at the source
    for _ in 0..3 {
        sim.simulate_step(&mut scheduler, &mut observers).unwrap();
    }
    assert_eq!(
        sim.allocated_item_stack(&vid("V_1")),
        Some(vec![standard("o1", 0), standard("o1", 1)])
    );
    let plan = scheduler.schedule_opt(sim.scheduler_args(0), false);
    assert_eq!(plan.len(), 1);
    let stops = plan.gets(&vid("V_1"));
    assert_eq!(stops.len(), 1);
    assert_eq!(stops[0].destination, fid("B"));
    assert_eq!(stops[0].work.unload_items, vec![standard("o1", 0), standard("o1", 1)]);
    assert_eq!(stops[0].work.load_items, vec![]);
}

#[test]
fn the_naive_scheduler_splits_an_order_that_does_not_fit() {
    let mut sim = simulator(vec![order("big", 3, "A", "B")], &["V_1"], 2);
    let mut scheduler = naive_for(&sim);
    let o = sim.orders().value_at(0).clone();
    sim.handle_order_arrival(o.order_id.clone(), o.item_ids(), 0).unwrap();
    let plan = scheduler.schedule(sim.scheduler_args(0));
    assert_eq!(plan.len(), 1);
    let stops = plan.gets(&vid("V_1"));
    let places: Vec<String> = stops.iter().map(|r| r.destination.0.clone()).collect();
    assert_eq!(places, vec!["A", "B", "A", "B"]);
    assert_eq!(stops[0].work.load_items, vec![standard("big", 0), standard("big", 1)]);
    assert_eq!(stops[2].work.load_items, vec![standard("big", 2)]);
    assert_eq!(sim.check_planned_routes(&plan), Ok(()));
}

#[test]
fn a_vehicle_starts_where_the_map_puts_it() {
    let mut at = MapType::new();
    at.insert(vid("V_1"), fid("B"));
    let mut position = VehicleInitialPosition::Deterministic(at);
    let names = vec![fid("A"), fid("B")];
    assert_eq!(position.get(&vid("V_1"), &names), Some(fid("B")));
    assert_eq!(position.get(&vid("V_1"), &Vec::new()), Some(fid("B")));
    assert_eq!(position.get(&vid("V_2"), &names), None);
}

#[test]
fn a_vehicle_drawn_at_random_starts_at_a_factory() {
    let mut rng = SmallRng::seed_from_u64(727);
    let names = vec![fid("A"), fid("B"), fid("C")];
    let mut seen = BTreeSet::new();
    {
        let mut position = VehicleInitialPosition::Random(&mut rng);
        for _ in 0..200 {
            let at = position.get(&vid("V_1"), &names).unwrap();
            assert!(names.contains(&at));
            seen.insert(at);
        }
        assert_eq!(position.get(&vid("V_1"), &Vec::new()), None);
    }
    assert_eq!(seen.len(), 3);
    let sim = Simulator::new(
        VehicleInitialPosition::Random(&mut rng),
        MapType::new(),
        fleet(&["V_1", "V_2", "V_3"], 4),
        factories(&["A", "B"]),
        roads(&["A", "B"]),
        0,
    )
    .ok()
    .unwrap();
    for v in ["V_1", "V_2", "V_3"] {
        match sim.vehicle_position(&vid(v)) {
            Some(VehiclePosition::Idle(at)) => assert!(at == fid("A") || at == fid("B")),
            _ => unreachable!(),
        }
    }
    assert!(Simulator::new(
        VehicleInitialPosition::Random(&mut rng),
        MapType::new(),
        fleet(&["V_1"], 4),
        MapType::new(),
        roads(&[]),
        0,
    )
    .is_err());
}

#[test]
fn the_items_of_the_orders_make_the_catalogue() {
    let orders = Order::load(vec![order("o2", 1, "A", "B"), order("o1", 2, "B", "C")]).unwrap();
    let items = expand_orders(&orders);
    let names: Vec<String> = (0..items.len()).map(|i| items.key_at(i).to_string()).collect();
    assert_eq!(names, vec!["o1_standard_0", "o1_standard_1", "o2_standard_0"]);
    assert_eq!(items.value_at(0).pickup_id, fid("B"));
    assert_eq!(items.value_at(2).delivery_id, fid("B"));
    assert_eq!(items.value_at(1).id, standard("o1", 1));
}

#[test]
fn the_log_observer_names_a_directory_for_each_call() {
    let mut log = LogDispatchCallback::new("test".to_string());
    assert_eq!(log.get_file("dispatch_input.json"), "logs/test/0/dispatch_input.json");
    assert_eq!(log.dispatch_input_file(), "logs/test/0/dispatch_input.json");
    assert_eq!(log.dispatch_output_file(), "logs/test/0/dispatch_output.json");
    log.finish_iteration();
    assert_eq!(log.get_file("x"), "logs/test/1/x");
    for _ in 0..11 {
        log.finish_iteration();
    }
    assert_eq!(log.dispatch_output_file(), "logs/test/12/dispatch_output.json");
    let copy = log.clone();
    assert_eq!(copy.get_file("x"), "logs/test_cloned/12/x");
    assert_eq!(log.get_file(""), "logs/test/12/");
}

#[test]
fn item_states_are_compared_by_what_they_hold() {
    assert_eq!(OrderItemState::delivered(1, 2), OrderItemState::Delivered { deadline: 1, deliver_time: 2 });
    assert_ne!(OrderItemState::delivered(1, 2), OrderItemState::delivered(2, 1));
    assert_ne!(OrderItemState::Allocated, OrderItemState::PickedUp);
}

#[test]
fn invariants_hold_at_every_step_of_a_run() {
    let names = ["A", "B", "C"];
    let mut sim = simulator(
        vec![
            order("o1", 2, "A", "B"),
            order("o2", 1, "B", "C"),
            order("o3", 3, "C", "A"),
            order("o4", 6, "A", "C"),
            order("o5", 1, "B", "A"),
        ],
        &["V_1", "V_2", "V_3"],
        4,
    );
    let mut scheduler = naive_for(&sim);
    let mut observers = no_observers();
    let mut clock = sim.now();
    let mut states: Vec<OrderItemState> = (0..sim.order_items().len())
        .map(|i| sim.item_state(sim.order_items().key_at(i)).unwrap())
        .collect();
    let rank = |s: &OrderItemState| match s {
        OrderItemState::Unavailable => 0,
        OrderItemState::Unallocated => 1,
        OrderItemState::Allocated => 2,
        OrderItemState::PickedUp => 3,
        OrderItemState::Delivered { .. } => 4,
    };
    let mut steps = 0;
    while sim.pending_events() > 0 {
        let next = sim.next_event().unwrap();
        sim.simulate_step(&mut scheduler, &mut observers).unwrap();
        steps += 1;
        // the clock stands at the event, and never goes back
        assert_eq!(sim.now(), next.1);
        assert!(sim.now() >= clock);
        clock = sim.now();
        // no item goes back
        for i in 0..sim.order_items().len() {
            let now = sim.item_state(sim.order_items().key_at(i)).unwrap();
            assert!(rank(&now) >= rank(&states[i]));
            states[i] = now;
        }
        // no vehicle is over its capacity, on board or as planned
        for v in ["V_1", "V_2", "V_3"] {
            let capacity = sim.vehicles().gets(&vid(v)).capacity() as i128;
            assert!(dpdp_total(&sim.item_stack(&vid(v)).unwrap()) <= capacity);
            assert!(dpdp_total(&sim.allocated_item_stack(&vid(v)).unwrap()) <= capacity);
        }
        // free docks are between none and all, and nobody waits at a free dock
        for f in names {
            let free = sim.free_docks(&fid(f)).unwrap();
            assert!((0..=2).contains(&free));
            if sim.waiting_vehicles(&fid(f)).unwrap() > 0 {
                assert_eq!(free, 0);
            }
        }
        assert!(steps < 10_000);
    }
    assert!(states.iter().all(|s| s.is_delivered()));
}

fn dpdp_total(items: &Vec<OrderItemId>) -> i128 {
    dpdp_rust::model::order_item::total_demand(items)
}

#[test]
fn what_leaves_a_vehicle_leaves_from_the_top() {
    let mut sim = simulator(vec![order("a", 1, "A", "B"), order("b", 2, "A", "B")], &["V_1"], 4);
    // the two orders and the first call of the scheduler
    for _ in 0..3 {
        sim.simulate_step(&mut NoopScheduler, &mut no_observers()).unwrap();
    }
    let all = vec![standard("a", 0), standard("b", 0), standard("b", 1)];
    let take = dpdp_rust::simulation::state::VehicleRoute::new(
        fid("A"),
        dpdp_rust::simulation::sim_event::VehicleWork::new_load(sim.order_items(), all.clone()),
    );
    sim.begin_vehicle_transporting(vid("V_1"), fid("A"), take, 0).unwrap();
    // the arrival and the request for a dock, at which the items come on board
    sim.simulate_step(&mut NoopScheduler, &mut no_observers()).unwrap();
    sim.simulate_step(&mut NoopScheduler, &mut no_observers()).unwrap();
    assert_eq!(sim.item_stack(&vid("V_1")), Some(all.clone()));
    sim.simulate_step(&mut NoopScheduler, &mut no_observers()).unwrap();
    assert_eq!(sim.vehicle_position(&vid("V_1")), Some(VehiclePosition::Idle(fid("A"))));
    let put = dpdp_rust::simulation::state::VehicleRoute::new(
        fid("B"),
        dpdp_rust::simulation::sim_event::VehicleWork::new_unload(
            sim.order_items(),
            vec![standard("b", 0), standard("b", 1)],
        ),
    );
    let start = sim.now();
    sim.begin_vehicle_transporting(vid("V_1"), fid("A"), put, start).unwrap();
    assert_eq!(sim.allocated_item_stack(&vid("V_1")), Some(vec![standard("a", 0)]));
    assert_eq!(sim.item_stack(&vid("V_1")), Some(all.clone()));
    // the arrival, and the request for a dock, at which the items leave
    let arrival = sim.next_event().unwrap();
    assert_eq!(arrival.1 - start, 600);
    sim.simulate_step(&mut NoopScheduler, &mut no_observers()).unwrap();
    sim.simulate_step(&mut NoopScheduler, &mut no_observers()).unwrap();
    assert_eq!(sim.item_stack(&vid("V_1")), Some(vec![standard("a", 0)]));
    match sim.next_event().unwrap().0 {
        dpdp_rust::simulation::sim_event::SimulatorEventData::FinishLoading {
            delivered_items,
            ..
        } => assert_eq!(delivered_items, vec![standard("b", 1), standard("b", 0)]),
        _ => unreachable!(),
    }
}

#[test]
fn the_naive_scheduler_without_vehicles_gives_no_order_out() {
    let mut sim = simulator(vec![order("o1", 2, "A", "B")], &["V_1"], 4);
    let mut scheduler = NaiveScheduler::new(MapType::new(), sim.order_items().duplicate());
    let o = sim.orders().value_at(0).clone();
    sim.handle_order_arrival(o.order_id.clone(), o.item_ids(), 0).unwrap();
    let plan = scheduler.schedule(sim.scheduler_args(0));
    assert_eq!(plan.len(), 1);
    assert_eq!(plan.gets(&vid("V_1")).len(), 0);
}

#[test]
fn the_naive_scheduler_leaves_out_what_it_does_not_know() {
    let mut sim = simulator(vec![order("o1", 1, "A", "B"), order("o2", 1, "A", "C")], &["V_1"], 4);
    let known = Order::load(vec![order("o2", 1, "A", "C")]).unwrap();
    let mut scheduler = NaiveScheduler::new(sim.vehicles().duplicate(), expand_orders(&known));
    for i in 0..sim.orders().len() {
        let o = sim.orders().value_at(i).clone();
        sim.handle_order_arrival(o.order_id.clone(), o.item_ids(), 0).unwrap();
    }
    let plan = scheduler.schedule(sim.scheduler_args(0));
    let stops = plan.gets(&vid("V_1"));
    let places: Vec<String> = stops.iter().map(|r| r.destination.0.clone()).collect();
    assert_eq!(places, vec!["A", "C"]);
    assert_eq!(stops[0].work.load_items, vec![standard("o2", 0)]);
    assert_eq!(stops[1].work.unload_items, vec![standard("o2", 0)]);
}
