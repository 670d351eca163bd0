use dpdp_rust::model::factory_info::{FactoryId, FactoryInfo};
use dpdp_rust::model::order::{Order, OrderId};
use dpdp_rust::model::order_item::{OrderItemId, OrderItemType};
use dpdp_rust::model::route_info::{RouteInfo, RouteMap};
use dpdp_rust::model::table::MapType;
use dpdp_rust::model::vehicle_info::{VehicleId, VehicleInfo};
use dpdp_rust::schedule::{deduplicate, deduplicate_routes};
use dpdp_rust::simulation::rules::PlanError;
use dpdp_rust::simulation::setup::VehicleInitialPosition;
use dpdp_rust::simulation::sim_event::VehicleWork;
use dpdp_rust::simulation::simulator::Simulator;
use dpdp_rust::simulation::state::{Plan, VehicleRoute};

fn fid(name: &str) -> FactoryId {
    FactoryId(name.to_string())
}

fn vid(name: &str) -> VehicleId {
    VehicleId(name.to_string())
}

fn item(order: &str, class: OrderItemType, index: i32) -> OrderItemId {
    OrderItemId { order_id: OrderId(order.to_string()), item_type: class, index }
}

fn standard(order: &str, index: i32) -> OrderItemId {
    item(order, OrderItemType::Standard, index)
}

fn order(name: &str, standard: i32, small: i32, boxes: i32, from: &str, to: &str) -> Order {
    Order {
        order_id: OrderId(name.to_string()),
        q_standard: standard,
        q_small: small,
        q_box: boxes,
        creation_time: 0,
        committed_completion_time: 80000,
        load_time: 60,
        unload_time: 60,
        pickup_id: fid(from),
        delivery_id: fid(to),
    }
}

/// One vehicle `V_1` of `pallets` pallets idle at `A`; factories `A`, `B`, `C`
/// with one dock each; roads of an hour between any two of them.
fn simulator(orders: Vec<Order>, pallets: i32) -> Simulator {
    let names = ["A", "B", "C"];
    let factories = FactoryInfo::load(
        names.iter().map(|n| FactoryInfo { factory_id: fid(n), longitude: 0, latitude: 0, port_num: 1 }).collect(),
    )
    .unwrap();
    let mut roads = Vec::new();
    for from in names {
        for to in names {
            if from != to {
                roads.push(RouteInfo {
                    route_code: format!("{}{}", from, to),
                    start_factory_id: fid(from),
                    end_factory_id: fid(to),
                    distance: 1000,
                    time: 3600,
                });
            }
        }
    }
    let vehicles =
        VehicleInfo::load(vec![VehicleInfo::new(vid("V_1"), pallets, 24, "g".into())]).unwrap();
    let mut at = MapType::new();
    at.insert(vid("V_1"), fid("A"));
    Simulator::new(
        VehicleInitialPosition::Deterministic(at),
        Order::load(orders).unwrap(),
        vehicles,
        factories,
        RouteMap::from(roads),
        0,
    )
    .ok()
    .unwrap()
}

/// Lets every order arrive, so that its items wait to be allocated.
fn arrive_all(sim: &mut Simulator) {
    let n = sim.orders().len();
    for i in 0..n {
        let order = sim.orders().value_at(i).clone();
        sim.handle_order_arrival(order.order_id.clone(), order.item_ids(), 0).unwrap();
    }
}

fn load(sim: &Simulator, at: &str, ids: Vec<OrderItemId>) -> VehicleRoute {
    VehicleRoute::new(fid(at), VehicleWork::new_load(sim.order_items(), ids))
}

fn unload(sim: &Simulator, at: &str, ids: Vec<OrderItemId>) -> VehicleRoute {
    VehicleRoute::new(fid(at), VehicleWork::new_unload(sim.order_items(), ids))
}

fn plan_for(vehicle: &str, routes: Vec<VehicleRoute>) -> Plan {
    let mut plan: Plan = MapType::new();
    plan.insert(vid(vehicle), routes);
    plan
}

#[test]
fn work_times_are_a_minute_a_box() {
    let sim = simulator(vec![order("o1", 1, 1, 1, "A", "B")], 8);
    let ids = vec![
        item("o1", OrderItemType::Standard, 0),
        item("o1", OrderItemType::Small, 0),
        item("o1", OrderItemType::Box, 0),
    ];
    let work = VehicleWork::new(sim.order_items(), ids.clone(), vec![ids[1].clone()]);
    assert_eq!(work.load_time(), 7 * 60);
    assert_eq!(work.unload_time(), 2 * 60);
    assert_eq!(work.delta_demand(sim.order_items()), 5);
    let none = VehicleWork::new(sim.order_items(), vec![], vec![]);
    assert_eq!(none.load_time(), 0);
    assert_eq!(none.unload_time(), 0);
    assert_eq!(VehicleWork::new_load(sim.order_items(), ids.clone()).unload_items.len(), 0);
    assert_eq!(VehicleWork::new_unload(sim.order_items(), ids.clone()).load_items.len(), 0);
    let route = VehicleRoute::new(fid("A"), work);
    assert_eq!(route.delta_demand(sim.order_items()), 5);
}

#[test]
fn try_merge_succeeds_exactly_for_the_same_destination() {
    let sim = simulator(vec![order("o1", 2, 0, 0, "A", "B"), order("o2", 0, 2, 0, "A", "B")], 8);
    let mut a = load(&sim, "A", vec![standard("o1", 0)]);
    let b = VehicleRoute::new(
        fid("A"),
        VehicleWork::new(
            sim.order_items(),
            vec![standard("o1", 1)],
            vec![item("o2", OrderItemType::Small, 0)],
        ),
    );
    let (load_a, unload_a) = (a.work.load_time(), a.work.unload_time());
    let (load_b, unload_b) = (b.work.load_time(), b.work.unload_time());
    assert!(a.try_merge(b).is_ok());
    assert_eq!(a.destination, fid("A"));
    assert_eq!(a.work.load_items, vec![standard("o1", 0), standard("o1", 1)]);
    assert_eq!(a.work.unload_items, vec![item("o2", OrderItemType::Small, 0)]);
    assert_eq!(a.work.load_time(), load_a + load_b);
    assert_eq!(a.work.unload_time(), unload_a + unload_b);
    assert_eq!(a.work.load_time(), 480);
    assert_eq!(a.work.unload_time(), 120);

    let elsewhere = load(&sim, "B", vec![item("o2", OrderItemType::Small, 1)]);
    let back = a.try_merge(elsewhere).unwrap_err();
    assert_eq!(back.destination, fid("B"));
    assert_eq!(back.work.load_items, vec![item("o2", OrderItemType::Small, 1)]);
    assert_eq!(a.work.load_items.len(), 2);
    assert_eq!(a.work.unload_items.len(), 1);
}

fn places(routes: &[VehicleRoute]) -> Vec<String> {
    routes.iter().map(|r| r.destination.0.clone()).collect()
}

#[test]
fn deduplication_merges_runs_of_one_destination() {
    let sim = simulator(vec![order("o1", 4, 0, 0, "A", "B")], 8);
    let routes = vec![
        load(&sim, "A", vec![standard("o1", 0)]),
        load(&sim, "A", vec![standard("o1", 1)]),
        load(&sim, "A", vec![standard("o1", 2)]),
        unload(&sim, "B", vec![standard("o1", 0)]),
        load(&sim, "A", vec![standard("o1", 3)]),
        unload(&sim, "B", vec![standard("o1", 1)]),
        unload(&sim, "B", vec![standard("o1", 2)]),
    ];
    let once = deduplicate_routes(&routes);
    assert_eq!(places(&once), vec!["A", "B", "A", "B"]);
    assert_eq!(
        once[0].work.load_items,
        vec![standard("o1", 0), standard("o1", 1), standard("o1", 2)]
    );
    assert_eq!(once[0].work.load_time(), 3 * 240);
    assert_eq!(once[3].work.unload_items, vec![standard("o1", 1), standard("o1", 2)]);
    assert_eq!(deduplicate_routes(&Vec::new()).len(), 0);
}

#[test]
fn deduplication_of_a_canonical_plan_changes_nothing() {
    let sim = simulator(vec![order("o1", 4, 0, 0, "A", "B")], 8);
    let routes = vec![
        load(&sim, "A", vec![standard("o1", 0)]),
        load(&sim, "A", vec![standard("o1", 1)]),
        unload(&sim, "B", vec![standard("o1", 0), standard("o1", 1)]),
        load(&sim, "A", vec![standard("o1", 2)]),
    ];
    let mut plan = plan_for("V_1", routes);
    plan.insert(vid("V_0"), vec![]);
    deduplicate(&mut plan);
    assert_eq!(plan.len(), 2);
    assert_eq!(plan.key_at(0), &vid("V_0"));
    assert_eq!(plan.value_at(0).len(), 0);
    let once: Vec<VehicleRoute> = plan.value_at(1).clone();
    assert_eq!(places(&once), vec!["A", "B", "A"]);
    deduplicate(&mut plan);
    let twice = plan.value_at(1);
    assert_eq!(places(twice), places(&once));
    for (a, b) in once.iter().zip(twice.iter()) {
        assert_eq!(a.work.load_items, b.work.load_items);
        assert_eq!(a.work.unload_items, b.work.unload_items);
    }
}

#[test]
fn validator_accepts_an_order_split_over_two_trips_when_it_exceeds_the_capacity() {
    let mut sim = simulator(vec![order("big", 10, 0, 0, "A", "B")], 8);
    arrive_all(&mut sim);
    let first: Vec<OrderItemId> = (0..8).map(|i| standard("big", i)).collect();
    let second: Vec<OrderItemId> = (8..10).map(|i| standard("big", i)).collect();
    let plan = plan_for(
        "V_1",
        vec![
            load(&sim, "A", first.clone()),
            unload(&sim, "B", first.clone()),
            load(&sim, "A", second.clone()),
            unload(&sim, "B", second.clone()),
        ],
    );
    assert_eq!(sim.check_planned_routes(&plan), Ok(()));
}

#[test]
fn validator_rejects_a_route_beyond_the_capacity() {
    let mut sim = simulator(vec![order("big", 10, 0, 0, "A", "B")], 8);
    arrive_all(&mut sim);
    let nine: Vec<OrderItemId> = (0..9).map(|i| standard("big", i)).collect();
    let plan = plan_for("V_1", vec![load(&sim, "A", nine)]);
    assert_eq!(sim.check_planned_routes(&plan), Err(PlanError::CapacityViolation));
    let eight: Vec<OrderItemId> = (0..8).map(|i| standard("big", i)).collect();
    let plan = plan_for(
        "V_1",
        vec![load(&sim, "A", eight), load(&sim, "A", vec![standard("big", 8)])],
    );
    assert_eq!(sim.check_planned_routes(&plan), Err(PlanError::CapacityViolation));
}

#[test]
fn validator_rejects_unloading_below_the_top() {
    let mut sim =
        simulator(vec![order("a", 1, 0, 0, "A", "B"), order("b", 1, 0, 0, "A", "C")], 8);
    arrive_all(&mut sim);
    let plan = plan_for(
        "V_1",
        vec![
            load(&sim, "A", vec![standard("a", 0), standard("b", 0)]),
            unload(&sim, "B", vec![standard("a", 0)]),
            unload(&sim, "C", vec![standard("b", 0)]),
        ],
    );
    assert_eq!(sim.check_planned_routes(&plan), Err(PlanError::LifoViolation));
    let in_order = plan_for(
        "V_1",
        vec![
            load(&sim, "A", vec![standard("a", 0), standard("b", 0)]),
            unload(&sim, "C", vec![standard("b", 0)]),
            unload(&sim, "B", vec![standard("a", 0)]),
        ],
    );
    assert_eq!(sim.check_planned_routes(&in_order), Ok(()));
    let from_empty = plan_for("V_1", vec![unload(&sim, "B", vec![standard("a", 0)])]);
    assert_eq!(sim.check_planned_routes(&from_empty), Err(PlanError::LifoViolation));
}

#[test]
fn validator_rejects_part_of_an_order_that_fits() {
    let mut sim = simulator(vec![order("o", 0, 2, 0, "A", "B")], 8);
    arrive_all(&mut sim);
    let plan = plan_for("V_1", vec![load(&sim, "A", vec![item("o", OrderItemType::Small, 0)])]);
    assert_eq!(sim.check_planned_routes(&plan), Err(PlanError::OrderSplit));
    let whole = plan_for(
        "V_1",
        vec![load(
            &sim,
            "A",
            vec![item("o", OrderItemType::Small, 0), item("o", OrderItemType::Small, 1)],
        )],
    );
    assert_eq!(sim.check_planned_routes(&whole), Ok(()));
    assert_eq!(
        sim.check_order_split(&vec![item("o", OrderItemType::Small, 1)], 3),
        Ok(())
    );
    assert_eq!(
        sim.check_order_split(&vec![item("o", OrderItemType::Small, 1)], 4),
        Err(PlanError::OrderSplit)
    );
}

#[test]
fn validator_rejects_unknown_vehicles_and_items() {
    let mut sim = simulator(vec![order("o", 1, 0, 0, "A", "B")], 8);
    arrive_all(&mut sim);
    let plan = plan_for("V_9", vec![]);
    assert_eq!(sim.check_planned_routes(&plan), Err(PlanError::UnknownVehicle));
    let ghost = VehicleWork { load_items: vec![standard("nobody", 0)], unload_items: vec![] };
    let plan = plan_for("V_1", vec![VehicleRoute::new(fid("A"), ghost)]);
    assert_eq!(sim.check_planned_routes(&plan), Err(PlanError::UnknownItem));
}

#[test]
fn validator_rejects_wrong_places() {
    let mut sim = simulator(vec![order("o", 1, 0, 0, "A", "B")], 8);
    arrive_all(&mut sim);
    let plan = plan_for("V_1", vec![load(&sim, "C", vec![standard("o", 0)])]);
    assert_eq!(sim.check_planned_routes(&plan), Err(PlanError::WrongPickupLocation));
    let plan = plan_for(
        "V_1",
        vec![load(&sim, "A", vec![standard("o", 0)]), unload(&sim, "C", vec![standard("o", 0)])],
    );
    assert_eq!(sim.check_planned_routes(&plan), Err(PlanError::WrongDeliveryLocation));
}

#[test]
fn validator_rejects_items_that_are_not_ready() {
    let mut sim = simulator(vec![order("o", 1, 0, 0, "A", "B")], 8);
    let early = plan_for("V_1", vec![load(&sim, "A", vec![standard("o", 0)])]);
    assert_eq!(sim.check_planned_routes(&early), Err(PlanError::LoadingUnready));
    arrive_all(&mut sim);
    assert_eq!(sim.check_planned_routes(&early), Ok(()));
    let twice = plan_for(
        "V_1",
        vec![
            load(&sim, "A", vec![standard("o", 0)]),
            unload(&sim, "B", vec![standard("o", 0)]),
            load(&sim, "A", vec![standard("o", 0)]),
        ],
    );
    assert_eq!(sim.check_planned_routes(&twice), Err(PlanError::LoadingUnready));

    let trip = load(&sim, "A", vec![standard("o", 0)]);
    sim.begin_vehicle_transporting(vid("V_1"), fid("A"), trip, 0).unwrap();
    sim.record_delivery(&vec![standard("o", 0)], 10_000).unwrap();
    let late = plan_for("V_1", vec![unload(&sim, "B", vec![standard("o", 0)])]);
    assert_eq!(sim.check_planned_routes(&late), Err(PlanError::UnloadingUnready));
}

#[test]
fn validator_plays_the_whole_plan_against_one_copy_of_the_item_states() {
    let names = ["A", "B"];
    let factories = FactoryInfo::load(
        names.iter().map(|n| FactoryInfo { factory_id: fid(n), longitude: 0, latitude: 0, port_num: 1 }).collect(),
    )
    .unwrap();
    let vehicles = VehicleInfo::load(vec![
        VehicleInfo::new(vid("V_1"), 8, 24, "g".into()),
        VehicleInfo::new(vid("V_2"), 8, 24, "g".into()),
    ])
    .unwrap();
    let mut at = MapType::new();
    at.insert(vid("V_1"), fid("A"));
    at.insert(vid("V_2"), fid("A"));
    let mut sim = Simulator::new(
        VehicleInitialPosition::Deterministic(at),
        Order::load(vec![order("o", 1, 0, 0, "A", "B")]).unwrap(),
        vehicles,
        factories,
        RouteMap::from(vec![]),
        0,
    )
    .ok()
    .unwrap();
    arrive_all(&mut sim);
    // what the first vehicle has taken, the second cannot load
    let mut plan = plan_for("V_1", vec![load(&sim, "A", vec![standard("o", 0)])]);
    plan.insert(vid("V_2"), vec![load(&sim, "A", vec![standard("o", 0)])]);
    assert_eq!(sim.check_planned_routes(&plan), Err(PlanError::LoadingUnready));
    // by itself either route is in order
    assert_eq!(
        sim.check_vehicle_routes(&vid("V_1"), &vec![load(&sim, "A", vec![standard("o", 0)])]),
        Ok(())
    );
    assert_eq!(
        sim.check_vehicle_routes(&vid("V_2"), &vec![load(&sim, "A", vec![standard("o", 0)])]),
        Ok(())
    );
    assert_eq!(sim.check_planned_routes(&plan_for("V_2", vec![load(&sim, "A", vec![standard("o", 0)])])), Ok(()));
    // what the first vehicle has delivered, the second cannot load either
    let mut plan = plan_for(
        "V_1",
        vec![load(&sim, "A", vec![standard("o", 0)]), unload(&sim, "B", vec![standard("o", 0)])],
    );
    plan.insert(vid("V_2"), vec![load(&sim, "A", vec![standard("o", 0)])]);
    assert_eq!(sim.check_planned_routes(&plan), Err(PlanError::LoadingUnready));
    // a vehicle's stack is its own: the second cannot unload what the first loaded
    let mut plan = plan_for("V_1", vec![load(&sim, "A", vec![standard("o", 0)])]);
    plan.insert(vid("V_2"), vec![unload(&sim, "B", vec![standard("o", 0)])]);
    assert_eq!(sim.check_planned_routes(&plan), Err(PlanError::LifoViolation));
    assert_eq!(
        sim.check_vehicle_routes(&vid("V_2"), &vec![load(&sim, "B", vec![standard("o", 0)])]),
        Err(PlanError::WrongPickupLocation)
    );
}

#[test]
fn validator_rejects_an_item_of_an_order_that_is_not_there() {
    let sim = simulator(vec![order("o", 2, 0, 0, "A", "B")], 4);
    assert_eq!(sim.check_order_split(&vec![standard("o", 0), standard("o", 1)], 60), Ok(()));
    assert_eq!(sim.check_order_split(&vec![standard("o", 0)], 60), Err(PlanError::OrderSplit));
    assert_eq!(sim.check_order_split(&vec![standard("x", 0)], 60), Err(PlanError::UnknownItem));
    assert_eq!(
        sim.check_order_split(&vec![standard("o", 0), standard("x", 0)], 60),
        Err(PlanError::OrderSplit)
    );
    assert_eq!(
        sim.check_order_split(&vec![standard("x", 0), standard("o", 0)], 60),
        Err(PlanError::UnknownItem)
    );
    assert_eq!(sim.check_order_split(&vec![], 60), Ok(()));
}
