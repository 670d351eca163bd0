use dpdp_rust::model::factory_info::{FactoryId, FactoryInfo};
use dpdp_rust::model::order::{Order, OrderId};
use dpdp_rust::model::order_item::{OrderItemId, OrderItemType};
use dpdp_rust::model::route_info::{RouteInfo, RouteMap};
use dpdp_rust::model::table::MapType;
use dpdp_rust::model::vehicle_info::{VehicleId, VehicleInfo};
use dpdp_rust::schedule::noop::NoopScheduler;
use dpdp_rust::schedule::{Scheduler, SchedulerArgs};
use dpdp_rust::simulation::callback::SimulationCallback;
use dpdp_rust::simulation::dispatch::Step;
use dpdp_rust::simulation::rules::{PlanError, SimError};
use dpdp_rust::simulation::setup::{
    ConfigError, VehicleInitialPosition, DOCK_APPROACHING_TIME, TIME_INTERVAL,
};
use dpdp_rust::simulation::sim_event::{SimEvent, SimulatorEventData, VehicleWork};
use dpdp_rust::simulation::simulator::Simulator;
use dpdp_rust::simulation::state::{OrderItemState, Plan, VehiclePosition, VehicleRoute};
use std::cell::RefCell;
use std::rc::Rc;

fn fid(name: &str) -> FactoryId {
    FactoryId(name.to_string())
}

fn vid(name: &str) -> VehicleId {
    VehicleId(name.to_string())
}

fn standard(order: &str, index: i32) -> OrderItemId {
    OrderItemId { order_id: OrderId(order.to_string()), item_type: OrderItemType::Standard, index }
}

fn order(name: &str, standard: i32, created: i64, due: i64, from: &str, to: &str) -> Order {
    Order {
        order_id: OrderId(name.to_string()),
        q_standard: standard,
        q_small: 0,
        q_box: 0,
        creation_time: created,
        committed_completion_time: due,
        load_time: 60,
        unload_time: 60,
        pickup_id: fid(from),
        delivery_id: fid(to),
    }
}

fn roads(names: &[&str], time: i64, distance: i64) -> RouteMap {
    let mut roads = Vec::new();
    for from in names {
        for to in names {
            if from != to {
                roads.push(RouteInfo {
                    route_code: format!("{}{}", from, to),
                    start_factory_id: fid(from),
                    end_factory_id: fid(to),
                    distance,
                    time,
                });
            }
        }
    }
    RouteMap::from(roads)
}

/// Vehicles of four pallets, all idle at `A`; factories `A` and `B` with
/// `ports` docks each; an hour and 1000 units of length between them.
fn simulator(orders: Vec<Order>, vehicles: &[&str], ports: i32, date: i64) -> Simulator {
    let names = ["A", "B"];
    let factories = FactoryInfo::load(
        names.iter().map(|n| FactoryInfo { factory_id: fid(n), longitude: 0, latitude: 0, port_num: ports }).collect(),
    )
    .unwrap();
    let fleet = VehicleInfo::load(
        vehicles.iter().map(|v| VehicleInfo::new(vid(v), 4, 24, "g".into())).collect(),
    )
    .unwrap();
    let mut at = MapType::new();
    for v in vehicles {
        at.insert(vid(v), fid("A"));
    }
    Simulator::new(
        VehicleInitialPosition::Deterministic(at),
        Order::load(orders).unwrap(),
        fleet,
        factories,
        roads(&names, 3600, 1000),
        date,
    )
    .ok()
    .unwrap()
}

/// A scheduler that hands out the plans it was given, one at each call, and
/// empty plans after them.
struct Scripted {
    plans: Vec<Plan>,
    calls: Vec<i64>,
}

impl Scripted {
    fn new(plans: Vec<Plan>) -> Self {
        Scripted { plans, calls: Vec::new() }
    }
}

impl Scheduler for Scripted {
    fn schedule(&mut self, args: SchedulerArgs) -> Plan {
        self.calls.push(args.time);
        if self.plans.is_empty() {
            MapType::new()
        } else {
            self.plans.remove(0)
        }
    }
}

/// A scheduler that notes what it is shown and plans nothing.
struct Spy {
    seen: Vec<(usize, usize, Vec<String>, i64, i64, usize)>,
}

impl Scheduler for Spy {
    fn schedule(&mut self, args: SchedulerArgs) -> Plan {
        let vehicles: Vec<String> = (0..args.vehicle_positions.len())
            .map(|i| args.vehicle_positions.key_at(i).0.clone())
            .collect();
        assert_eq!(args.vehicle_stacks.len(), vehicles.len());
        self.seen.push((
            args.items.len(),
            args.item_states.len(),
            vehicles,
            args.time,
            args.elapsed_distance,
            args.static_simulator.orders().len(),
        ));
        MapType::new()
    }
}

/// An observer that writes what it is told into a log it shares.
struct Recorder {
    name: &'static str,
    log: Rc<RefCell<Vec<String>>>,
}

impl SimulationCallback for Recorder {
    fn visit_event(&mut self, event: &SimEvent) {
        self.log.borrow_mut().push(format!("{} event {} {}", self.name, kind(event), event.1));
    }

    fn visit_dispatch_input(&mut self, input: &SchedulerArgs) {
        self.log.borrow_mut().push(format!("{} input {}", self.name, input.time));
    }

    fn visit_dispatch_output(&mut self, output: &Plan) {
        self.log.borrow_mut().push(format!("{} output {}", self.name, output.len()));
    }
}

/// An observer that keeps the hooks as they come.
struct Silent;

impl SimulationCallback for Silent {}

fn no_observers() -> Vec<Box<dyn SimulationCallback>> {
    Vec::new()
}

fn load(sim: &Simulator, at: &str, ids: Vec<OrderItemId>) -> VehicleRoute {
    VehicleRoute::new(fid(at), VehicleWork::new_load(sim.order_items(), ids))
}

fn unload(sim: &Simulator, at: &str, ids: Vec<OrderItemId>) -> VehicleRoute {
    VehicleRoute::new(fid(at), VehicleWork::new_unload(sim.order_items(), ids))
}

fn plan_for(vehicle: &str, routes: Vec<VehicleRoute>) -> Plan {
    let mut plan: Plan = MapType::new();
    plan.insert(vid(vehicle), routes);
    plan
}

fn kind(event: &SimEvent) -> &'static str {
    match &event.0 {
        SimulatorEventData::OrderArrival { .. } => "order",
        SimulatorEventData::VehicleArrival { .. } => "arrival",
        SimulatorEventData::VehicleApproachedDock { .. } => "dock",
        SimulatorEventData::FinishLoading { .. } => "finish",
        SimulatorEventData::UpdateTimestep => "tick",
    }
}

/// Steps through the run and returns the kind and the time of every event
/// in the order of dispatch.
fn run(sim: &mut Simulator, scheduler: &mut Scripted, limit: usize) -> Vec<(&'static str, i64)> {
    let mut observers = no_observers();
    let mut trace = Vec::new();
    for _ in 0..limit {
        let next = match sim.next_event() {
            Some(event) => event,
            None => break,
        };
        trace.push((kind(&next), next.1));
        let step = sim.simulate_step(scheduler, &mut observers).unwrap();
        assert_ne!(step, Step::Idle);
        assert_eq!(sim.now(), next.1);
    }
    trace
}

#[test]
fn a_new_simulator_waits_for_its_orders_and_its_first_tick() {
    let sim = simulator(
        vec![order("late", 1, 7200, 9000, "A", "B"), order("early", 2, 0, 9000, "A", "B")],
        &["V_1"],
        2,
        1_000_000,
    );
    assert_eq!(sim.now(), 1_000_000);
    assert_eq!(sim.initial_date(), 1_000_000);
    assert_eq!(sim.time_interval(), TIME_INTERVAL);
    assert_eq!(sim.time_interval(), 100 * 60);
    assert_eq!(sim.dock_approaching_time(), DOCK_APPROACHING_TIME);
    assert_eq!(sim.dock_approaching_time(), 30 * 60);
    assert_eq!(sim.total_distance(), 0);
    assert_eq!(sim.pending_events(), 3);
    assert_eq!(sim.order_items().len(), 3);
    assert_eq!(sim.vehicle_position(&vid("V_1")), Some(VehiclePosition::Idle(fid("A"))));
    assert_eq!(sim.vehicle_position(&vid("V_2")), None);
    assert_eq!(sim.item_stack(&vid("V_1")), Some(vec![]));
    assert_eq!(sim.allocated_item_stack(&vid("V_1")), Some(vec![]));
    assert_eq!(sim.pending_stops(&vid("V_1")), Some(0));
    assert_eq!(sim.free_docks(&fid("A")), Some(2));
    assert_eq!(sim.free_docks(&fid("Z")), None);
    assert_eq!(sim.waiting_vehicles(&fid("B")), Some(0));
    assert_eq!(sim.item_state(&standard("early", 1)), Some(OrderItemState::Unavailable));
    assert_eq!(sim.item_state(&standard("early", 2)), None);
    let mut copy = sim.fork(None);
    let mut scheduler = Scripted::new(vec![]);
    let trace = run(&mut copy, &mut scheduler, 3);
    assert_eq!(trace, vec![("order", 1_000_000), ("tick", 1_000_000), ("tick", 1_006_000)]);
    assert_eq!(sim.pending_events(), 3);
}

#[test]
fn single_item_without_contention() {
    let mut sim = simulator(vec![order("o", 1, 0, 20000, "A", "B")], &["V_1"], 1, 0);
    let i = standard("o", 0);
    let plan = plan_for(
        "V_1",
        vec![load(&sim, "A", vec![i.clone()]), unload(&sim, "B", vec![i.clone()])],
    );
    let mut scheduler = Scripted::new(vec![plan]);
    let trace = run(&mut sim, &mut scheduler, 100);
    assert_eq!(
        trace,
        vec![
            ("order", 0),
            ("tick", 0),
            ("arrival", 0),
            ("dock", 1800),
            ("finish", 1800 + 240),
            ("arrival", 1800 + 240 + 3600),
            ("tick", 6000),
            ("dock", 1800 + 240 + 3600 + 1800),
            ("finish", 1800 + 240 + 3600 + 1800 + 240),
            ("tick", 12000),
        ]
    );
    assert_eq!(scheduler.calls, vec![0, 6000, 12000]);
    assert_eq!(sim.pending_events(), 0);
    assert_eq!(sim.vehicle_position(&vid("V_1")), Some(VehiclePosition::Idle(fid("B"))));
    assert_eq!(sim.item_stack(&vid("V_1")), Some(vec![]));
    assert_eq!(
        sim.item_state(&i),
        Some(OrderItemState::Delivered { deadline: 20000, deliver_time: 7680 - 1800 - 60 })
    );
    assert_eq!(sim.total_distance(), 1000);
    assert_eq!(sim.free_docks(&fid("A")), Some(1));
    assert_eq!(sim.free_docks(&fid("B")), Some(1));
}

#[test]
fn item_states_follow_the_life_of_the_item() {
    let mut sim = simulator(vec![order("o", 1, 0, 20000, "A", "B")], &["V_1"], 1, 0);
    let i = standard("o", 0);
    let plan = plan_for(
        "V_1",
        vec![load(&sim, "A", vec![i.clone()]), unload(&sim, "B", vec![i.clone()])],
    );
    let mut scheduler = Scripted::new(vec![plan]);
    let mut observers = no_observers();
    let mut seen = vec![sim.item_state(&i).unwrap()];
    while sim.pending_events() > 0 {
        sim.simulate_step(&mut scheduler, &mut observers).unwrap();
        let state = sim.item_state(&i).unwrap();
        if *seen.last().unwrap() != state {
            seen.push(state);
        }
    }
    assert_eq!(
        seen,
        vec![
            OrderItemState::Unavailable,
            OrderItemState::Unallocated,
            OrderItemState::Allocated,
            OrderItemState::PickedUp,
            OrderItemState::Delivered { deadline: 20000, deliver_time: 5820 },
        ]
    );
}

#[test]
fn the_second_vehicle_waits_for_the_only_dock() {
    let mut sim = simulator(
        vec![order("a", 1, 0, 20000, "A", "B"), order("b", 2, 0, 20000, "A", "B")],
        &["V_1", "V_2"],
        1,
        0,
    );
    let mut plan = plan_for("V_1", vec![load(&sim, "A", vec![standard("a", 0)])]);
    plan.insert(vid("V_2"), vec![load(&sim, "A", vec![standard("b", 0), standard("b", 1)])]);
    let mut scheduler = Scripted::new(vec![plan]);
    let mut observers = no_observers();
    // two orders, the tick, two arrivals, the first request for a dock
    for _ in 0..6 {
        sim.simulate_step(&mut scheduler, &mut observers).unwrap();
    }
    assert_eq!(sim.now(), 1800);
    assert_eq!(sim.free_docks(&fid("A")), Some(0));
    assert_eq!(sim.waiting_vehicles(&fid("A")), Some(0));
    assert_eq!(sim.item_stack(&vid("V_1")), Some(vec![standard("a", 0)]));
    // the second request finds the dock taken
    sim.simulate_step(&mut scheduler, &mut observers).unwrap();
    assert_eq!(sim.now(), 1800);
    assert_eq!(sim.free_docks(&fid("A")), Some(0));
    assert_eq!(sim.waiting_vehicles(&fid("A")), Some(1));
    assert_eq!(sim.item_stack(&vid("V_2")), Some(vec![]));
    assert_eq!(sim.vehicle_position(&vid("V_2")), Some(VehiclePosition::DoingWork(fid("A"))));
    // the first service ends, and the second begins at that very instant
    let first_end = sim.next_event().unwrap();
    assert_eq!((kind(&first_end), first_end.1), ("finish", 1800 + 240));
    sim.simulate_step(&mut scheduler, &mut observers).unwrap();
    assert_eq!(sim.free_docks(&fid("A")), Some(0));
    assert_eq!(sim.waiting_vehicles(&fid("A")), Some(0));
    assert_eq!(sim.item_stack(&vid("V_2")), Some(vec![standard("b", 0), standard("b", 1)]));
    assert_eq!(sim.vehicle_position(&vid("V_1")), Some(VehiclePosition::Idle(fid("A"))));
    let second_end = sim.next_event().unwrap();
    assert_eq!((kind(&second_end), second_end.1), ("finish", 1800 + 240 + 480));
    match second_end.0 {
        SimulatorEventData::FinishLoading { vehicle_id, factory_id, delivered_items } => {
            assert_eq!(vehicle_id, vid("V_2"));
            assert_eq!(factory_id, fid("A"));
            assert_eq!(delivered_items, vec![]);
        }
        _ => unreachable!(),
    }
    sim.simulate_step(&mut scheduler, &mut observers).unwrap();
    assert_eq!(sim.free_docks(&fid("A")), Some(1));
}

#[test]
fn the_run_ends_when_everything_is_delivered() {
    let mut sim = simulator(vec![order("o", 1, 0, 20000, "A", "B")], &["V_1"], 1, 0);
    let i = standard("o", 0);
    let plan = plan_for(
        "V_1",
        vec![load(&sim, "A", vec![i.clone()]), unload(&sim, "B", vec![i.clone()])],
    );
    let mut scheduler = Scripted::new(vec![plan]);
    let mut observers = no_observers();
    let steps = sim.simulate_until(i64::MAX, &mut scheduler, &mut observers).unwrap();
    assert_eq!(steps, 10);
    assert_eq!(sim.pending_events(), 0);
    assert_eq!(sim.now(), 12000);
    assert_eq!(sim.simulate_step(&mut scheduler, &mut observers), Ok(Step::Idle));
    assert_eq!(sim.simulate_until(i64::MAX, &mut scheduler, &mut observers), Ok(0));
    let summary = sim.summary();
    assert_eq!(summary.order_timeouts.len(), 1);
    assert_eq!(*summary.order_timeouts.gets(&OrderId("o".into())), 5820 - 20000);
    assert_eq!(summary.total_timeout, 0);
    assert_eq!(summary.total_distance, 1000);
}

#[test]
fn the_last_tick_reports_the_end_of_the_run() {
    let mut sim = simulator(vec![], &["V_1"], 1, 50);
    let mut scheduler = Scripted::new(vec![]);
    let mut observers = no_observers();
    assert_eq!(sim.pending_events(), 1);
    assert_eq!(sim.simulate_step(&mut scheduler, &mut observers), Ok(Step::Finished));
    assert_eq!(sim.pending_events(), 0);
    assert_eq!(scheduler.calls, vec![50]);
}

#[test]
fn simulate_until_stops_at_the_given_instant() {
    let mut sim = simulator(vec![order("o", 1, 100, 20000, "A", "B")], &["V_1"], 1, 0);
    let mut scheduler = Scripted::new(vec![]);
    let mut observers = no_observers();
    assert_eq!(sim.simulate_until(-1, &mut scheduler, &mut observers), Ok(0));
    assert_eq!(sim.now(), 0);
    assert_eq!(sim.simulate_until(99, &mut scheduler, &mut observers), Ok(1));
    assert_eq!(sim.now(), 0);
    assert_eq!(sim.item_state(&standard("o", 0)), Some(OrderItemState::Unavailable));
    assert_eq!(sim.simulate_until(100, &mut scheduler, &mut observers), Ok(1));
    assert_eq!(sim.now(), 100);
    assert_eq!(sim.item_state(&standard("o", 0)), Some(OrderItemState::Unallocated));
    assert_eq!(sim.simulate_until(3 * 6000, &mut scheduler, &mut observers), Ok(3));
    assert_eq!(sim.now(), 18000);
    assert_eq!(scheduler.calls, vec![0, 6000, 12000, 18000]);
    assert_eq!(sim.next_event().map(|e| e.1), Some(24000));
}

#[test]
fn lateness_is_summed_over_the_orders_that_are_late() {
    let mut sim = simulator(
        vec![order("late", 1, 0, 1000, "A", "B"), order("early", 1, 0, 80000, "A", "B")],
        &["V_1"],
        1,
        0,
    );
    sim.record_delivery(&vec![standard("late", 0)], 10_000).unwrap();
    sim.record_delivery(&vec![standard("early", 0)], 10_000).unwrap();
    assert_eq!(
        sim.item_state(&standard("late", 0)),
        Some(OrderItemState::Delivered { deadline: 1000, deliver_time: 10_000 - 1800 - 60 })
    );
    let summary = sim.summary();
    assert_eq!(*summary.order_timeouts.gets(&OrderId("late".into())), 8140 - 1000);
    assert_eq!(*summary.order_timeouts.gets(&OrderId("early".into())), 8140 - 80000);
    assert_eq!(summary.total_timeout, 7140);
    assert_eq!(OrderItemState::Unallocated.timeout(), 0);
    assert_eq!(OrderItemState::delivered(5, 3).timeout(), -2);
    assert!(OrderItemState::delivered_irrelevant().is_delivered());
    assert!(!OrderItemState::PickedUp.is_delivered());
}

#[test]
fn delivery_is_attributed_with_the_allowance_of_every_item_of_the_service() {
    let mut sim = simulator(vec![order("o", 3, 0, 50000, "A", "B")], &["V_1"], 1, 0);
    sim.record_delivery(&vec![standard("o", 0), standard("o", 2)], 20_000).unwrap();
    let expected = OrderItemState::Delivered { deadline: 50000, deliver_time: 20_000 - 1800 - 120 };
    assert_eq!(sim.item_state(&standard("o", 0)), Some(expected));
    assert_eq!(sim.item_state(&standard("o", 2)), Some(expected));
    assert_eq!(sim.item_state(&standard("o", 1)), Some(OrderItemState::Unavailable));
    assert_eq!(
        sim.record_delivery(&vec![standard("x", 0)], 20_000),
        Err(SimError::UnknownItem)
    );
    assert_eq!(
        sim.record_delivery(&vec![standard("o", 1)], i64::MIN + 100),
        Err(SimError::Overflow)
    );
    assert_eq!(sim.item_state(&standard("o", 1)), Some(OrderItemState::Unavailable));
}

#[test]
fn an_invalid_plan_stops_the_run() {
    let mut sim = simulator(vec![order("o", 2, 0, 20000, "A", "B")], &["V_1"], 1, 0);
    let plan = plan_for("V_1", vec![load(&sim, "A", vec![standard("o", 0)])]);
    let mut scheduler = Scripted::new(vec![plan]);
    let mut observers = no_observers();
    assert_eq!(sim.simulate_step(&mut scheduler, &mut observers), Ok(Step::Dispatched));
    assert_eq!(
        sim.simulate_step(&mut scheduler, &mut observers),
        Err(SimError::InvalidPlan(PlanError::OrderSplit))
    );
    assert_eq!(sim.pending_events(), 0);
}

#[test]
fn a_plan_is_brought_into_canonical_form_before_it_is_validated() {
    let mut sim = simulator(vec![order("o", 2, 0, 20000, "A", "B")], &["V_1"], 1, 0);
    let plan = plan_for(
        "V_1",
        vec![
            load(&sim, "A", vec![standard("o", 0)]),
            load(&sim, "A", vec![standard("o", 1)]),
            unload(&sim, "B", vec![standard("o", 0)]),
            unload(&sim, "B", vec![standard("o", 1)]),
        ],
    );
    assert_eq!(sim.check_planned_routes(&plan), Err(PlanError::LoadingUnready));
    sim.handle_order_arrival(OrderId("o".into()), vec![standard("o", 0), standard("o", 1)], 0)
        .unwrap();
    assert_eq!(sim.check_planned_routes(&plan), Err(PlanError::OrderSplit));
    assert_eq!(sim.apply_plan(plan, 0, 0), Ok(false));
    assert_eq!(sim.pending_stops(&vid("V_1")), Some(1));
    assert_eq!(
        sim.allocated_item_stack(&vid("V_1")),
        Some(vec![standard("o", 0), standard("o", 1)])
    );
    assert_eq!(sim.item_stack(&vid("V_1")), Some(vec![]));
    assert_eq!(sim.vehicle_position(&vid("V_1")), Some(VehiclePosition::Transporting(fid("A"), fid("A"))));
}

/// The instants of the next calls of the scheduler when a call at the
/// instant 100 took `cost` nanoseconds.
fn ticks_after(cost: u128) -> Vec<i64> {
    let mut sim = simulator(vec![order("o", 1, 70000, 80000, "A", "B")], &["V_1"], 1, 0);
    assert_eq!(sim.apply_plan(MapType::new(), 100, cost), Ok(false));
    let mut scheduler = Scripted::new(vec![]);
    let mut observers = no_observers();
    sim.simulate_until(31000, &mut scheduler, &mut observers).unwrap();
    scheduler.calls.into_iter().filter(|t| t % 6000 == 100).collect()
}

#[test]
fn a_slow_scheduler_skips_ticks() {
    let second = 1_000_000_000u128;
    assert_eq!(ticks_after(0), vec![6100, 12100, 18100, 24100, 30100]);
    assert_eq!(ticks_after(6000 * second - 1), vec![6100, 12100, 18100, 24100, 30100]);
    assert_eq!(ticks_after(6000 * second), vec![12100, 18100, 24100, 30100]);
    assert_eq!(ticks_after(3 * 6000 * second + 5), vec![24100, 30100]);
    let mut sim = simulator(vec![order("o", 1, 70000, 80000, "A", "B")], &["V_1"], 1, 0);
    assert_eq!(sim.apply_plan(MapType::new(), i64::MAX - 6000, 0), Ok(false));
    assert_eq!(sim.apply_plan(MapType::new(), i64::MAX - 5999, 0), Err(SimError::Overflow));
    assert_eq!(sim.apply_plan(MapType::new(), 0, u128::MAX), Err(SimError::Overflow));
}

#[test]
fn handlers_refuse_what_does_not_fit_the_state() {
    let mut sim = simulator(
        vec![order("o", 1, 0, 20000, "A", "B"), order("p", 1, 0, 20000, "A", "B")],
        &["V_1"],
        1,
        0,
    );
    let i = standard("o", 0);
    let p = standard("p", 0);
    let work = || VehicleWork { load_items: vec![], unload_items: vec![] };
    assert_eq!(
        sim.handle_order_arrival(OrderId("x".into()), vec![standard("x", 0)], 0),
        Err(SimError::UnknownItem)
    );
    sim.handle_order_arrival(OrderId("o".into()), vec![i.clone()], 0).unwrap();
    assert_eq!(
        sim.handle_order_arrival(OrderId("o".into()), vec![p.clone(), i.clone()], 0),
        Err(SimError::ItemNotUnavailable)
    );
    assert_eq!(sim.item_state(&p), Some(OrderItemState::Unavailable));
    sim.handle_order_arrival(OrderId("p".into()), vec![p.clone()], 0).unwrap();

    assert_eq!(
        sim.handle_vehicle_arrival(vid("V_9"), fid("A"), work(), 0),
        Err(SimError::UnknownVehicle)
    );
    assert_eq!(
        sim.handle_vehicle_arrival(vid("V_1"), fid("A"), work(), 0),
        Err(SimError::WrongPosition)
    );
    assert_eq!(
        sim.begin_vehicle_loading(vid("V_1"), fid("A"), work(), 0),
        Err(SimError::WrongPosition)
    );
    assert_eq!(
        sim.handle_vehicle_approached_dock(vid("V_1"), fid("Z"), work(), 0),
        Err(SimError::UnknownFactory)
    );
    assert_eq!(sim.release_dock(&fid("Z"), 0), Err(SimError::UnknownFactory));
    assert_eq!(sim.release_dock(&fid("A"), 0), Err(SimError::NoBusyDock));
    assert_eq!(sim.depart(vid("V_1"), fid("A"), 0), Err(SimError::WrongPosition));
    assert_eq!(sim.depart(vid("V_9"), fid("A"), 0), Err(SimError::UnknownVehicle));

    let to = |sim: &Simulator, at: &str, ids: Vec<OrderItemId>| load(sim, at, ids);
    assert_eq!(
        sim.begin_vehicle_transporting(vid("V_9"), fid("A"), to(&sim, "A", vec![]), 0),
        Err(SimError::UnknownVehicle)
    );
    assert_eq!(
        sim.begin_vehicle_transporting(vid("V_1"), fid("B"), to(&sim, "A", vec![]), 0),
        Err(SimError::WrongPosition)
    );
    assert_eq!(
        sim.begin_vehicle_transporting(vid("V_1"), fid("A"), to(&sim, "Z", vec![]), 0),
        Err(SimError::NoRoute)
    );
    let ghost = VehicleRoute::new(
        fid("A"),
        VehicleWork { load_items: vec![standard("x", 0)], unload_items: vec![] },
    );
    assert_eq!(
        sim.begin_vehicle_transporting(vid("V_1"), fid("A"), ghost, 0),
        Err(SimError::UnknownItem)
    );
    assert_eq!(
        sim.begin_vehicle_transporting(vid("V_1"), fid("A"), unload(&sim, "B", vec![i.clone()]), 0),
        Err(SimError::LifoViolation)
    );
    assert_eq!(
        sim.begin_vehicle_transporting(
            vid("V_1"),
            fid("A"),
            VehicleRoute::new(
                fid("A"),
                VehicleWork {
                    load_items: (0..5).map(|_| i.clone()).collect(),
                    unload_items: vec![]
                }
            ),
            0
        ),
        Err(SimError::CapacityViolation)
    );
    assert_eq!(
        sim.begin_vehicle_transporting(vid("V_1"), fid("A"), to(&sim, "B", vec![]), i64::MAX - 3599),
        Err(SimError::Overflow)
    );
    assert_eq!(sim.vehicle_position(&vid("V_1")), Some(VehiclePosition::Idle(fid("A"))));
    assert_eq!(sim.total_distance(), 0);

    sim.begin_vehicle_transporting(vid("V_1"), fid("A"), to(&sim, "A", vec![i.clone()]), 0)
        .unwrap();
    assert_eq!(sim.item_state(&i), Some(OrderItemState::Allocated));
    assert_eq!(sim.allocated_item_stack(&vid("V_1")), Some(vec![i.clone()]));
    assert_eq!(
        sim.handle_vehicle_arrival(vid("V_1"), fid("B"), work(), 0),
        Err(SimError::WrongPosition)
    );
    assert_eq!(
        sim.handle_vehicle_arrival(vid("V_1"), fid("A"), work(), i64::MAX),
        Err(SimError::Overflow)
    );
    sim.handle_vehicle_arrival(vid("V_1"), fid("A"), work(), 0).unwrap();
    assert_eq!(
        sim.begin_vehicle_loading(vid("V_1"), fid("B"), work(), 0),
        Err(SimError::WrongPosition)
    );
    assert_eq!(
        sim.begin_vehicle_loading(
            vid("V_1"),
            fid("A"),
            VehicleWork { load_items: vec![], unload_items: vec![i.clone()] },
            0
        ),
        Err(SimError::LifoViolation)
    );
    assert_eq!(
        sim.begin_vehicle_loading(
            vid("V_1"),
            fid("A"),
            VehicleWork { load_items: vec![standard("x", 0)], unload_items: vec![] },
            0
        ),
        Err(SimError::UnknownItem)
    );
    assert_eq!(
        sim.begin_vehicle_loading(
            vid("V_1"),
            fid("A"),
            VehicleWork { load_items: (0..5).map(|_| i.clone()).collect(), unload_items: vec![] },
            0
        ),
        Err(SimError::CapacityViolation)
    );
    assert_eq!(
        sim.begin_vehicle_loading(
            vid("V_1"),
            fid("A"),
            VehicleWork { load_items: vec![i.clone()], unload_items: vec![] },
            i64::MAX - 239
        ),
        Err(SimError::Overflow)
    );
    assert_eq!(sim.item_stack(&vid("V_1")), Some(vec![]));
    sim.begin_vehicle_loading(
        vid("V_1"),
        fid("A"),
        VehicleWork { load_items: vec![i.clone()], unload_items: vec![] },
        5,
    )
    .unwrap();
    assert_eq!(sim.item_stack(&vid("V_1")), Some(vec![i.clone()]));
    assert_eq!(sim.item_state(&i), Some(OrderItemState::PickedUp));
}

#[test]
fn a_fork_shares_nothing_with_its_parent() {
    let mut sim = simulator(
        vec![order("now", 1, 0, 20000, "A", "B"), order("later", 1, 6001, 20000, "A", "B")],
        &["V_1"],
        1,
        0,
    );
    let mut scheduler = Scripted::new(vec![]);
    let mut observers = no_observers();
    sim.simulate_step(&mut scheduler, &mut observers).unwrap();
    let mut fork = sim.fork(Some(6000));
    assert_eq!(fork.orders().len(), 1);
    assert!(fork.orders().contains_key(&OrderId("now".into())));
    assert_eq!(fork.order_items().len(), 1);
    assert_eq!(sim.fork(Some(6001)).orders().len(), 2);
    assert_eq!(sim.fork(Some(-1)).orders().len(), 0);
    assert_eq!(sim.fork(None).orders().len(), 2);
    assert_eq!(fork.pending_events(), sim.pending_events());
    assert_eq!(fork.now(), sim.now());
    assert_eq!(fork.item_state(&standard("later", 0)), Some(OrderItemState::Unavailable));

    let plan = plan_for(
        "V_1",
        vec![load(&fork, "A", vec![standard("now", 0)]), unload(&fork, "B", vec![standard("now", 0)])],
    );
    let mut ahead = Scripted::new(vec![plan]);
    while fork.pending_events() > 0 && fork.now() < 6000 {
        fork.simulate_step(&mut ahead, &mut observers).unwrap();
    }
    assert_eq!(fork.item_state(&standard("now", 0)), Some(OrderItemState::PickedUp));
    assert_eq!(fork.now(), 6000);
    assert_eq!(fork.vehicle_position(&vid("V_1")), Some(VehiclePosition::DoingWork(fid("B"))));
    assert_eq!(fork.total_distance(), 1000);

    assert_eq!(sim.orders().len(), 2);
    assert_eq!(sim.now(), 0);
    assert_eq!(sim.pending_events(), 2);
    assert_eq!(sim.item_state(&standard("now", 0)), Some(OrderItemState::Unallocated));
    assert_eq!(sim.vehicle_position(&vid("V_1")), Some(VehiclePosition::Idle(fid("A"))));
    assert_eq!(sim.item_stack(&vid("V_1")), Some(vec![]));
    assert_eq!(sim.total_distance(), 0);

    sim.simulate_step(&mut NoopScheduler, &mut observers).unwrap();
    assert_eq!(fork.item_state(&standard("now", 0)), Some(OrderItemState::PickedUp));
}

#[test]
fn the_scheduler_is_shown_the_state_of_the_moment() {
    let mut sim = simulator(
        vec![order("now", 1, 0, 20000, "A", "B"), order("later", 2, 6001, 20000, "A", "B")],
        &["V_2", "V_1"],
        1,
        0,
    );
    let mut spy = Spy { seen: Vec::new() };
    let mut observers = no_observers();
    sim.simulate_until(12000, &mut spy, &mut observers).unwrap();
    let fleet = vec!["V_1".to_string(), "V_2".to_string()];
    assert_eq!(
        spy.seen,
        vec![
            (1, 3, fleet.clone(), 0, 0, 1),
            (1, 3, fleet.clone(), 6000, 0, 1),
            (3, 3, fleet.clone(), 12000, 0, 2),
        ]
    );
    let args = sim.scheduler_args(12345);
    assert_eq!(args.time, 12345);
    assert_eq!(args.static_simulator.now(), sim.now());
}

#[test]
fn observers_are_told_in_the_order_of_their_registration() {
    let log = Rc::new(RefCell::new(Vec::new()));
    let mut observers: Vec<Box<dyn SimulationCallback>> = vec![
        Box::new(Recorder { name: "one", log: log.clone() }),
        Box::new(Silent),
        Box::new(Recorder { name: "two", log: log.clone() }),
    ];
    let mut sim = simulator(vec![], &["V_1"], 1, 7);
    assert_eq!(sim.simulate_step(&mut NoopScheduler, &mut observers), Ok(Step::Finished));
    assert_eq!(
        *log.borrow(),
        vec![
            "one event tick 7",
            "two event tick 7",
            "one input 7",
            "two input 7",
            "one output 0",
            "two output 0"
        ]
    );
}

#[test]
fn an_instance_that_cannot_be_simulated_is_refused() {
    let names = ["A", "B"];
    let factories = || {
        FactoryInfo::load(
            names.iter().map(|n| FactoryInfo { factory_id: fid(n), longitude: 0, latitude: 0, port_num: 1 }).collect(),
        )
        .unwrap()
    };
    let fleet = || VehicleInfo::load(vec![VehicleInfo::new(vid("V_1"), 4, 24, "g".into())]).unwrap();
    let at = || {
        let mut at = MapType::new();
        at.insert(vid("V_1"), fid("A"));
        VehicleInitialPosition::Deterministic(at)
    };
    let orders = || Order::load(vec![order("o", 1, 0, 100, "A", "B")]).unwrap();
    let fault = |r: Result<Simulator, ConfigError>| r.err();
    assert_eq!(
        fault(Simulator::new(at(), orders(), fleet(), factories(), roads(&names, 1, 1), 1 << 61)),
        Some(ConfigError::DateOutOfRange)
    );
    assert_eq!(
        fault(Simulator::new(at(), orders(), fleet(), factories(), roads(&names, -1, 1), 0)),
        Some(ConfigError::InvalidRoute)
    );
    let mut renamed = MapType::new();
    renamed.insert(OrderId("x".into()), order("o", 1, 0, 100, "A", "B"));
    assert_eq!(
        fault(Simulator::new(at(), renamed, fleet(), factories(), roads(&names, 1, 1), 0)),
        Some(ConfigError::InvalidOrder)
    );
    let mut overnight = MapType::new();
    overnight.insert(OrderId("o".into()), order("o", 1, 0, 86400, "A", "B"));
    assert_eq!(
        fault(Simulator::new(at(), overnight, fleet(), factories(), roads(&names, 1, 1), 0)),
        Some(ConfigError::InvalidOrder)
    );
    let mut empty = MapType::new();
    empty.insert(vid("V_1"), VehicleInfo::new(vid("V_1"), 0, 24, "g".into()));
    assert_eq!(
        fault(Simulator::new(at(), orders(), empty, factories(), roads(&names, 1, 1), 0)),
        Some(ConfigError::InvalidVehicle)
    );
    let mut closed = MapType::new();
    closed.insert(fid("A"), FactoryInfo { factory_id: fid("A"), longitude: 0, latitude: 0, port_num: 0 });
    assert_eq!(
        fault(Simulator::new(at(), orders(), fleet(), closed, roads(&names, 1, 1), 0)),
        Some(ConfigError::InvalidFactory)
    );
    assert_eq!(
        fault(Simulator::new(
            VehicleInitialPosition::Deterministic(MapType::new()),
            orders(),
            fleet(),
            factories(),
            roads(&names, 1, 1),
            0
        )),
        Some(ConfigError::NoInitialPosition)
    );
    assert!(Simulator::new(at(), orders(), fleet(), factories(), roads(&names, 1, 1), -(1 << 60))
        .is_ok());
}

#[test]
fn an_instance_that_names_a_factory_it_does_not_have_is_refused() {
    let names = ["A", "B"];
    let factories = || {
        FactoryInfo::load(
            names.iter().map(|n| FactoryInfo { factory_id: fid(n), longitude: 0, latitude: 0, port_num: 1 }).collect(),
        )
        .unwrap()
    };
    let fleet = || VehicleInfo::load(vec![VehicleInfo::new(vid("V_1"), 4, 24, "g".into())]).unwrap();
    let at = |place: &str| {
        let mut at = MapType::new();
        at.insert(vid("V_1"), fid(place));
        VehicleInitialPosition::Deterministic(at)
    };
    let orders = |from: &str, to: &str| Order::load(vec![order("o", 1, 0, 100, from, to)]).unwrap();
    let fault = |r: Result<Simulator, ConfigError>| r.err();
    assert_eq!(
        fault(Simulator::new(at("A"), orders("A", "Z"), fleet(), factories(), roads(&names, 1, 1), 0)),
        Some(ConfigError::UnknownFactory)
    );
    assert_eq!(
        fault(Simulator::new(at("A"), orders("Z", "B"), fleet(), factories(), roads(&names, 1, 1), 0)),
        Some(ConfigError::UnknownFactory)
    );
    assert_eq!(
        fault(Simulator::new(
            at("A"),
            orders("A", "B"),
            fleet(),
            factories(),
            roads(&["A", "B", "Z"], 1, 1),
            0
        )),
        Some(ConfigError::UnknownFactory)
    );
    assert_eq!(
        fault(Simulator::new(at("Z"), orders("A", "B"), fleet(), factories(), roads(&names, 1, 1), 0)),
        Some(ConfigError::UnknownFactory)
    );
    // a vehicle without a place is told before a place that is no factory
    let mut places = MapType::new();
    places.insert(vid("V_0"), fid("Z"));
    assert_eq!(
        fault(Simulator::new(
            VehicleInitialPosition::Deterministic(places),
            orders("A", "B"),
            fleet(),
            factories(),
            roads(&names, 1, 1),
            0
        )),
        Some(ConfigError::NoInitialPosition)
    );
    // a place for a vehicle that is not there is not looked at
    let mut places = MapType::new();
    places.insert(vid("V_0"), fid("Z"));
    places.insert(vid("V_1"), fid("B"));
    let sim = Simulator::new(
        VehicleInitialPosition::Deterministic(places),
        orders("A", "B"),
        fleet(),
        factories(),
        roads(&names, 1, 1),
        0,
    )
    .ok()
    .unwrap();
    assert_eq!(sim.vehicle_position(&vid("V_1")), Some(VehiclePosition::Idle(fid("B"))));
    assert_eq!(sim.factories().gets(&fid("B")).longitude, 0);
}

#[test]
fn a_refused_plan_changes_nothing_but_the_distance_counter() {
    let mut sim = simulator(
        vec![order("o", 2, 0, 20000, "A", "B"), order("p", 1, 0, 20000, "A", "B")],
        &["V_1", "V_2"],
        1,
        0,
    );
    let first = plan_for(
        "V_1",
        vec![load(&sim, "A", vec![standard("p", 0)]), unload(&sim, "B", vec![standard("p", 0)])],
    );
    let bad = plan_for("V_2", vec![load(&sim, "A", vec![standard("o", 0)])]);
    let mut scheduler = Scripted::new(vec![first, bad]);
    let mut observers = no_observers();
    // both orders, the first tick, and all that happens before the second
    while sim.next_event().map(|e| e.1 < 6000).unwrap_or(false) {
        sim.simulate_step(&mut scheduler, &mut observers).unwrap();
    }
    assert_eq!(sim.total_distance(), 1000);
    let before = sim.fork(None);
    let mut probe = sim.fork(None);
    assert_eq!(probe.scheduler_args(6000).elapsed_distance, 1000);
    let before_events = sim.pending_events();
    assert_eq!(
        sim.simulate_step(&mut scheduler, &mut observers),
        Err(SimError::InvalidPlan(PlanError::OrderSplit))
    );
    assert_eq!(sim.pending_events(), before_events - 1);
    assert_eq!(sim.now(), 6000);
    assert_eq!(sim.total_distance(), before.total_distance());
    for v in ["V_1", "V_2"] {
        assert_eq!(sim.vehicle_position(&vid(v)), before.vehicle_position(&vid(v)));
        assert_eq!(sim.item_stack(&vid(v)), before.item_stack(&vid(v)));
        assert_eq!(sim.allocated_item_stack(&vid(v)), before.allocated_item_stack(&vid(v)));
        assert_eq!(sim.pending_stops(&vid(v)), before.pending_stops(&vid(v)));
    }
    for i in [standard("o", 0), standard("o", 1), standard("p", 0)] {
        assert_eq!(sim.item_state(&i), before.item_state(&i));
    }
    assert_eq!(sim.item_state(&standard("o", 0)), Some(OrderItemState::Unallocated));
    // the distance of the interval is counted from the refused call on
    let args = sim.scheduler_args(6000);
    assert_eq!(args.elapsed_distance, 0);
}

#[test]
fn the_intervals_of_the_kernel_can_be_set() {
    let mut sim = simulator(vec![order("o", 1, 0, 20000, "A", "B")], &["V_1"], 1, 0);
    assert!(!sim.set_time_interval(0));
    assert!(!sim.set_time_interval(-5));
    assert!(!sim.set_time_interval((1 << 48) + 1));
    assert_eq!(sim.time_interval(), 6000);
    assert!(sim.set_time_interval(600));
    assert_eq!(sim.time_interval(), 600);
    assert!(!sim.set_dock_approaching_time(-1));
    assert_eq!(sim.dock_approaching_time(), 1800);
    assert!(sim.set_dock_approaching_time(0));
    assert_eq!(sim.dock_approaching_time(), 0);
    let i = standard("o", 0);
    let plan = plan_for(
        "V_1",
        vec![load(&sim, "A", vec![i.clone()]), unload(&sim, "B", vec![i.clone()])],
    );
    let mut scheduler = Scripted::new(vec![plan]);
    let trace = run(&mut sim, &mut scheduler, 100);
    assert_eq!(
        trace,
        vec![
            ("order", 0),
            ("tick", 0),
            ("arrival", 0),
            ("dock", 0),
            ("finish", 240),
            ("tick", 600),
            ("tick", 1200),
            ("tick", 1800),
            ("tick", 2400),
            ("tick", 3000),
            ("tick", 3600),
            ("arrival", 3840),
            ("dock", 3840),
            ("finish", 4080),
            ("tick", 4200),
        ]
    );
    assert_eq!(
        sim.item_state(&i),
        Some(OrderItemState::Delivered { deadline: 20000, deliver_time: 4080 - 60 })
    );
}

#[test]
fn simulate_until_stops_at_the_first_failure() {
    let mut sim = simulator(vec![order("o", 2, 0, 20000, "A", "B")], &["V_1"], 1, 0);
    let plan = plan_for("V_1", vec![load(&sim, "A", vec![standard("o", 0)])]);
    let mut scheduler = Scripted::new(vec![plan]);
    let mut observers = no_observers();
    assert_eq!(
        sim.simulate_until(i64::MAX, &mut scheduler, &mut observers),
        Err(SimError::InvalidPlan(PlanError::OrderSplit))
    );
    assert_eq!(sim.now(), 0);
    assert_eq!(sim.item_state(&standard("o", 0)), Some(OrderItemState::Unallocated));
    assert_eq!(scheduler.calls, vec![0]);
}

#[test]
fn an_accepted_plan_only_allocates_items_that_wait() {
    let mut sim = simulator(
        vec![order("o", 1, 0, 20000, "A", "B"), order("p", 1, 0, 20000, "A", "B")],
        &["V_1", "V_2"],
        2,
        0,
    );
    let o = standard("o", 0);
    let p = standard("p", 0);
    let first = plan_for(
        "V_1",
        vec![load(&sim, "A", vec![p.clone()]), unload(&sim, "B", vec![p.clone()])],
    );
    let second = plan_for(
        "V_2",
        vec![load(&sim, "A", vec![o.clone()]), unload(&sim, "B", vec![o.clone()])],
    );
    let mut scheduler = Scripted::new(vec![first, second]);
    let mut observers = no_observers();
    sim.simulate_until(5999, &mut scheduler, &mut observers).unwrap();
    assert_eq!(sim.item_state(&p), Some(OrderItemState::PickedUp));
    assert_eq!(sim.item_state(&o), Some(OrderItemState::Unallocated));
    assert_eq!(sim.simulate_step(&mut scheduler, &mut observers), Ok(Step::Dispatched));
    assert_eq!(sim.now(), 6000);
    assert_eq!(sim.item_state(&p), Some(OrderItemState::PickedUp));
    assert_eq!(sim.item_state(&o), Some(OrderItemState::Allocated));
    sim.simulate_until(7680, &mut scheduler, &mut observers).unwrap();
    let delivered = OrderItemState::Delivered { deadline: 20000, deliver_time: 7680 - 1800 - 60 };
    assert_eq!(sim.item_state(&p), Some(delivered));
    sim.simulate_until(i64::MAX, &mut scheduler, &mut observers).unwrap();
    assert_eq!(sim.item_state(&p), Some(delivered));
    assert_eq!(
        sim.item_state(&o),
        Some(OrderItemState::Delivered { deadline: 20000, deliver_time: 13680 - 1800 - 60 })
    );
    assert_eq!(sim.pending_events(), 0);
}
