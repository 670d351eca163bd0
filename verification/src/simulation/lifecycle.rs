//! The life of an item over a call of the scheduler and over an event.

use crate::model::order_item::OrderItemIdView;
use crate::schedule::dedup_all;
use crate::simulation::custody::{event_custody, in_custody};
use crate::simulation::dispatch::{dispatch, install_all, install_routes, taken, timestep};
use crate::simulation::engagement::event_engaged;
use crate::simulation::soundness::sound;
use crate::simulation::laws::advances;
use crate::simulation::rules::{
    finish_load, record_delivery, release_dock, unload_allowance, SimulatorView,
};
use crate::simulation::sim_event::SimulatorEventDataView;
use crate::simulation::state::{OrderItemState, VehicleRouteView};
use crate::simulation::validator::{
    check_loads, check_plan, check_route, check_routes, check_unloads, check_vehicle,
    lemma_loads_states, lemma_unloads_states, shadow_of, unloaded, ShadowView,
};
use vstd::prelude::*;

verus! {

/// Whatever waits to be allocated in `after` waited in `before` already.
pub open spec fn none_set_waiting(
    before: Map<OrderItemIdView, OrderItemState>,
    after: Map<OrderItemIdView, OrderItemState>,
) -> bool {
    forall|k: OrderItemIdView|
        #![trigger after.contains_key(k)]
        after.contains_key(k) && after[k] == OrderItemState::Unallocated ==> before.contains_key(k)
            && before[k] == OrderItemState::Unallocated
}

/// Every listed item waits to be allocated in `states`.
pub open spec fn all_waiting(
    states: Map<OrderItemIdView, OrderItemState>,
    ids: Seq<OrderItemIdView>,
) -> bool {
    forall|i: int|
        0 <= i < ids.len() ==> states.contains_key(#[trigger] ids[i]) && states[ids[i]]
            == OrderItemState::Unallocated
}

/// No listed item waits to be allocated in `states`.
pub open spec fn none_waiting(
    states: Map<OrderItemIdView, OrderItemState>,
    ids: Seq<OrderItemIdView>,
) -> bool {
    forall|i: int|
        0 <= i < ids.len() ==> states.contains_key(#[trigger] ids[i]) && states[ids[i]]
            != OrderItemState::Unallocated
}

/// The only change from `before` to `after` is that items which waited are allocated.
pub open spec fn only_allocates(
    before: Map<OrderItemIdView, OrderItemState>,
    after: Map<OrderItemIdView, OrderItemState>,
) -> bool {
    forall|k: OrderItemIdView| #[trigger]
        before.contains_key(k) ==> after.contains_key(k) && (after[k] == before[k] || (before[k]
            == OrderItemState::Unallocated && after[k] == OrderItemState::Allocated))
}

/// The unloading of a stop, played by the validator, sets no item waiting.
pub proof fn lemma_unloads_waiting(
    s: SimulatorView,
    dest: Seq<char>,
    unloads: Seq<OrderItemIdView>,
    sh: ShadowView,
)
    requires
        check_unloads(s, dest, unloads, sh).is_ok(),
    ensures
        none_set_waiting(sh.states, check_unloads(s, dest, unloads, sh).unwrap().states),
    decreases unloads.len(),
{
    if unloads.len() > 0 {
        let u = unloads.last();
        let next = ShadowView {
            stack: sh.stack.drop_last(),
            states: sh.states.insert(u, unloaded()),
            ..sh
        };
        lemma_unloads_waiting(s, dest, unloads.drop_last(), next);
        assert(none_set_waiting(sh.states, next.states));
    }
}

/// The loading of a stop, played by the validator, sets no item waiting;
/// every item that it loads waited before, and waits no more.
pub proof fn lemma_loads_waiting(
    s: SimulatorView,
    dest: Seq<char>,
    loads: Seq<OrderItemIdView>,
    sh: ShadowView,
)
    requires
        check_loads(s, dest, loads, sh).is_ok(),
    ensures
        none_set_waiting(sh.states, check_loads(s, dest, loads, sh).unwrap().states),
        all_waiting(sh.states, loads),
        none_waiting(check_loads(s, dest, loads, sh).unwrap().states, loads),
    decreases loads.len(),
{
    if loads.len() > 0 {
        let l = loads[0];
        let next = ShadowView {
            stack: sh.stack.push(l),
            states: sh.states.insert(l, OrderItemState::PickedUp),
            ..sh
        };
        let out = check_loads(s, dest, loads, sh).unwrap().states;
        lemma_loads_waiting(s, dest, loads.drop_first(), next);
        assert(none_set_waiting(sh.states, next.states));
        assert(next.states.contains_key(l) && next.states[l] != OrderItemState::Unallocated);
        assert forall|i: int| 0 <= i < loads.len() implies sh.states.contains_key(
            #[trigger] loads[i],
        ) && sh.states[loads[i]] == OrderItemState::Unallocated by {
            if i > 0 {
                assert(loads[i] == loads.drop_first()[i - 1]);
                assert(next.states.contains_key(loads.drop_first()[i - 1]));
            }
        }
        assert forall|i: int| 0 <= i < loads.len() implies out.contains_key(#[trigger] loads[i])
            && out[loads[i]] != OrderItemState::Unallocated by {
            if i > 0 {
                assert(loads[i] == loads.drop_first()[i - 1]);
            } else {
                lemma_loads_states(s, dest, loads.drop_first(), next);
                assert(out.dom().contains(l));
                assert(out.contains_key(l));
            }
        }
    }
}

/// A stop that passes the validator sets no item waiting; every item that
/// it loads waited before, and waits no more.
pub proof fn lemma_route_waiting(
    s: SimulatorView,
    capacity: int,
    route: VehicleRouteView,
    sh: ShadowView,
)
    requires
        check_route(s, capacity, route, sh).is_ok(),
    ensures
        none_set_waiting(sh.states, check_route(s, capacity, route, sh).unwrap().states),
        all_waiting(sh.states, route.work.load_items),
        none_waiting(check_route(s, capacity, route, sh).unwrap().states, route.work.load_items),
{
    let sh0 = ShadowView { demand: sh.demand + route.work.delta_demand(), ..sh };
    let sh1 = check_unloads(s, route.destination, route.work.unload_items, sh0).unwrap();
    lemma_unloads_waiting(s, route.destination, route.work.unload_items, sh0);
    lemma_loads_waiting(s, route.destination, route.work.load_items, sh1);
}

/// Stops that pass the validator give no item a state that had none, and
/// take none away.
pub proof fn lemma_routes_tracked(
    s: SimulatorView,
    capacity: int,
    routes: Seq<VehicleRouteView>,
    sh: ShadowView,
)
    requires
        check_routes(s, capacity, routes, sh).is_ok(),
    ensures
        check_routes(s, capacity, routes, sh).unwrap().states.dom() =~= sh.states.dom(),
    decreases routes.len(),
{
    if routes.len() > 0 {
        let route = routes[0];
        let sh0 = ShadowView { demand: sh.demand + route.work.delta_demand(), ..sh };
        let sh1 = check_unloads(s, route.destination, route.work.unload_items, sh0).unwrap();
        lemma_unloads_states(s, route.destination, route.work.unload_items, sh0);
        lemma_loads_states(s, route.destination, route.work.load_items, sh1);
        lemma_routes_tracked(s, capacity, routes.drop_first(), check_route(s, capacity, route, sh).unwrap());
    }
}

/// Stops that pass the validator set no item waiting; every item that the
/// first of them loads waited before, and waits no more.
pub proof fn lemma_routes_waiting(
    s: SimulatorView,
    capacity: int,
    routes: Seq<VehicleRouteView>,
    sh: ShadowView,
)
    requires
        check_routes(s, capacity, routes, sh).is_ok(),
    ensures
        none_set_waiting(sh.states, check_routes(s, capacity, routes, sh).unwrap().states),
        routes.len() > 0 ==> all_waiting(sh.states, routes[0].work.load_items) && none_waiting(
            check_routes(s, capacity, routes, sh).unwrap().states,
            routes[0].work.load_items,
        ),
    decreases routes.len(),
{
    if routes.len() > 0 {
        let sh1 = check_route(s, capacity, routes[0], sh).unwrap();
        let out = check_routes(s, capacity, routes, sh).unwrap().states;
        lemma_route_waiting(s, capacity, routes[0], sh);
        lemma_routes_waiting(s, capacity, routes.drop_first(), sh1);
        lemma_routes_tracked(s, capacity, routes.drop_first(), sh1);
        let loads = routes[0].work.load_items;
        assert forall|i: int| 0 <= i < loads.len() implies out.contains_key(#[trigger] loads[i])
            && out[loads[i]] != OrderItemState::Unallocated by {
            assert(sh1.states.contains_key(loads[i]));
            assert(out.dom().contains(loads[i]));
            assert(out.contains_key(loads[i]));
        }
    }
}

/// Giving one vehicle the stops that the validator has passed for it only
/// allocates items that wait, and nothing waits in the item states that
/// the validator goes on with that does not wait in the kernel. The stops
/// were validated in the state `c` against the item states `states`, in
/// which nothing waits that does not wait in `s`.
pub proof fn lemma_install_step(
    c: SimulatorView,
    s: SimulatorView,
    v: Seq<char>,
    r: Seq<VehicleRouteView>,
    states: Map<OrderItemIdView, OrderItemState>,
    t: int,
)
    requires
        check_vehicle(c, v, r, states).is_ok(),
        install_routes(s, v, r, t).is_ok(),
        none_set_waiting(s.order_item_states, states),
    ensures
        none_set_waiting(
            install_routes(s, v, r, t).unwrap().order_item_states,
            check_vehicle(c, v, r, states).unwrap(),
        ),
        only_allocates(s.order_item_states, install_routes(s, v, r, t).unwrap().order_item_states),
{
    let next = check_vehicle(c, v, r, states).unwrap();
    let s1 = install_routes(s, v, r, t).unwrap();
    lemma_routes_waiting(c, c.vehicles[v].capacity(), r, shadow_of(c, v, states));
    let leaves = r.len() > 0 && s.vehicle_states[v].position is Idle;
    assert forall|k: OrderItemIdView|
        #![trigger next.contains_key(k)]
        next.contains_key(k) && next[k]
            == OrderItemState::Unallocated implies s1.order_item_states.contains_key(k)
        && s1.order_item_states[k] == OrderItemState::Unallocated by {
        assert(states.contains_key(k) && states[k] == OrderItemState::Unallocated);
        assert(s.order_item_states.contains_key(k));
        if leaves && r[0].work.load_items.contains(k) {
            let i = choose|i: int|
                0 <= i < r[0].work.load_items.len() && r[0].work.load_items[i] == k;
            assert(next.contains_key(r[0].work.load_items[i]));
        }
    }
    assert forall|k: OrderItemIdView| #[trigger]
        s.order_item_states.contains_key(k) implies s1.order_item_states.contains_key(k) && (
    s1.order_item_states[k] == s.order_item_states[k] || (s.order_item_states[k]
        == OrderItemState::Unallocated && s1.order_item_states[k]
        == OrderItemState::Allocated)) by {
        if leaves && r[0].work.load_items.contains(k) {
            let i = choose|i: int|
                0 <= i < r[0].work.load_items.len() && r[0].work.load_items[i] == k;
            assert(states.contains_key(r[0].work.load_items[i]));
        }
    }
}

/// Giving the vehicles the stops of a plan that passes the validator only
/// allocates items that wait. The plan was validated in the state `c`
/// against the item states `states`, in which nothing waits that does not
/// wait in `s`.
pub proof fn lemma_install_allocates(
    c: SimulatorView,
    s: SimulatorView,
    vehicles: Seq<Seq<char>>,
    routes: Seq<Seq<VehicleRouteView>>,
    states: Map<OrderItemIdView, OrderItemState>,
    t: int,
)
    requires
        vehicles.len() == routes.len(),
        check_plan(c, vehicles, routes, states).is_ok(),
        install_all(s, vehicles, routes, t).is_ok(),
        none_set_waiting(s.order_item_states, states),
    ensures
        only_allocates(s.order_item_states, install_all(s, vehicles, routes, t).unwrap().order_item_states),
    decreases vehicles.len(),
{
    if vehicles.len() > 0 {
        let v = vehicles[0];
        let r = routes[0];
        let next = check_vehicle(c, v, r, states).unwrap();
        let s1 = install_routes(s, v, r, t).unwrap();
        let out = install_all(s, vehicles, routes, t).unwrap();
        lemma_install_step(c, s, v, r, states, t);
        lemma_install_allocates(c, s1, vehicles.drop_first(), routes.drop_first(), next, t);
        assert forall|k: OrderItemIdView| #[trigger]
            s.order_item_states.contains_key(k) implies out.order_item_states.contains_key(k) && (
        out.order_item_states[k] == s.order_item_states[k] || (s.order_item_states[k]
            == OrderItemState::Unallocated && out.order_item_states[k]
            == OrderItemState::Allocated)) by {
            assert(s1.order_item_states.contains_key(k));
        }
    }
}

/// A call of the scheduler takes no item back. Where the plan is accepted,
/// the only items whose state changes are items that waited, and they are
/// allocated; an item that is allocated, picked up or delivered keeps its
/// state, a delivered one its deadline and its time of delivery.
pub proof fn law_timestep_allocates(
    s: SimulatorView,
    vehicles: Seq<Seq<char>>,
    routes: Seq<Seq<VehicleRouteView>>,
    t: int,
    cost: int,
)
    requires
        vehicles.len() == routes.len(),
        timestep(s, vehicles, routes, t, cost).is_ok(),
    ensures
        only_allocates(
            s.order_item_states,
            timestep(s, vehicles, routes, t, cost).unwrap().order_item_states,
        ),
        advances(
            s.order_item_states,
            timestep(s, vehicles, routes, t, cost).unwrap().order_item_states,
        ),
{
    let s0 = SimulatorView { total_distance_last_timeslot: s.total_distance, ..s };
    let canonical = dedup_all(routes);
    lemma_install_allocates(s0, s0, vehicles, canonical, s0.order_item_states, t);
}


/// Whether the handling of the event `data` in the state `s` gives the item
/// `k` a state: the item is of the order that arrives, is taken on by the
/// service that begins at a free dock, is put down by the service that
/// ends, is taken on by the vehicle next in line for the dock that becomes
/// free, or is to be loaded at the stop for which the vehicle leaves.
pub open spec fn sets_state(
    s: SimulatorView,
    data: SimulatorEventDataView,
    k: OrderItemIdView,
) -> bool {
    match data {
        SimulatorEventDataView::OrderArrival { order_id, order_item_ids } => order_item_ids.contains(
            k,
        ),
        SimulatorEventDataView::VehicleArrival { vehicle_id, factory_id, work } => false,
        SimulatorEventDataView::VehicleApproachedDock {
            vehicle_id,
            factory_id,
            work,
        } => s.factory_states[factory_id].num_avail_docks != 0 && work.load_items.contains(k),
        SimulatorEventDataView::FinishLoading { vehicle_id, factory_id, delivered_items } => {
            ||| delivered_items.contains(k)
            ||| s.factory_states[factory_id].queue.len() > 0
                && s.factory_states[factory_id].queue[0].1.load_items.contains(k)
            ||| leaves_to_load(s, vehicle_id, k)
        },
        SimulatorEventDataView::UpdateTimestep => false,
    }
}

/// The vehicle `v` has a next stop, at which it is to load the item `k`.
pub open spec fn leaves_to_load(s: SimulatorView, v: Seq<char>, k: OrderItemIdView) -> bool {
    s.vehicle_states[v].current_route.len() > 0
        && s.vehicle_states[v].current_route[0].work.load_items.contains(k)
}

/// An event changes the state of no item but of those that it arrives
/// with, takes on, puts down or leaves for: every other item keeps its
/// state, a delivered one its deadline and its time of delivery.
pub proof fn law_event_keeps(
    s: SimulatorView,
    data: SimulatorEventDataView,
    t: int,
    k: OrderItemIdView,
)
    requires
        dispatch(s, data, t).is_ok(),
        s.order_item_states.contains_key(k),
        !sets_state(s, data, k),
    ensures
        dispatch(s, data, t).unwrap().order_item_states.contains_key(k),
        dispatch(s, data, t).unwrap().order_item_states[k] == s.order_item_states[k],
{
    match data {
        SimulatorEventDataView::FinishLoading { vehicle_id, factory_id, delivered_items } => {
            let s1 = release_dock(s, factory_id, t).unwrap();
            let s2 = record_delivery(s1, delivered_items, t).unwrap();
            assert(s1.order_item_states.contains_key(k) && s1.order_item_states[k]
                == s.order_item_states[k]);
            assert(s2.order_item_states.contains_key(k) && s2.order_item_states[k]
                == s.order_item_states[k]);
            lemma_release_keeps_stops(s, factory_id, t, vehicle_id);
        },
        _ => {},
    }
}

/// The release of a dock leaves the stops of every vehicle as they are,
/// and with them the orders, the catalogue and the settings.
pub proof fn lemma_release_keeps_stops(s: SimulatorView, f: Seq<char>, t: int, v: Seq<char>)
    requires
        release_dock(s, f, t).is_ok(),
        s.vehicle_states.contains_key(v),
    ensures
        release_dock(s, f, t).unwrap().vehicle_states.contains_key(v),
        release_dock(s, f, t).unwrap().vehicle_states[v].current_route
            == s.vehicle_states[v].current_route,
        release_dock(s, f, t).unwrap().orders == s.orders,
        release_dock(s, f, t).unwrap().order_items == s.order_items,
        release_dock(s, f, t).unwrap().initial_date == s.initial_date,
        release_dock(s, f, t).unwrap().dock_approaching_time == s.dock_approaching_time,
{
}

/// Every item that a service has put down is delivered when the service has
/// ended and the vehicle has gone on, at the end of the service less the
/// approach time, less the unloading times that the orders of the items of
/// the service allow; its deadline is its order's. The one item of which
/// this does not hold is one that the vehicle is to load again at the stop
/// for which it leaves.
pub proof fn law_finish_attribution(
    s: SimulatorView,
    v: Seq<char>,
    f: Seq<char>,
    delivered: Seq<OrderItemIdView>,
    t: int,
    id: OrderItemIdView,
)
    requires
        finish_load(s, v, f, delivered, t).is_ok(),
        delivered.contains(id),
        !leaves_to_load(s, v, id),
    ensures
        finish_load(s, v, f, delivered, t).unwrap().order_item_states[id]
            == (OrderItemState::Delivered {
            deadline: s.orders[id.order_id].deadline(s.initial_date) as i64,
            deliver_time: (t - s.dock_approaching_time - unload_allowance(
                s.order_items,
                delivered,
            )) as i64,
        }),
{
    let s1 = release_dock(s, f, t).unwrap();
    let s2 = record_delivery(s1, delivered, t).unwrap();
    lemma_release_keeps_stops(s, f, t, v);
}

/// In a sound kernel every item that a service has put down is delivered
/// when the end of the service has been handled, whatever stops lie before
/// the vehicle: at the time of the event less the approach time, less the
/// unloading times that the orders of the items of the service allow, and
/// with the deadline of its order.
pub proof fn law_delivery_attributed(
    s: SimulatorView,
    v: Seq<char>,
    f: Seq<char>,
    delivered: Seq<OrderItemIdView>,
    id: OrderItemIdView,
)
    requires
        sound(s),
        s.events.len() > 0,
        s.events[0].0 == (SimulatorEventDataView::FinishLoading {
            vehicle_id: v,
            factory_id: f,
            delivered_items: delivered,
        }),
        delivered.contains(id),
        dispatch(taken(s), s.events[0].0, s.events[0].1 as int).is_ok(),
    ensures
        dispatch(taken(s), s.events[0].0, s.events[0].1 as int).unwrap().order_item_states[id]
            == (OrderItemState::Delivered {
            deadline: s.orders[id.order_id].deadline(s.initial_date) as i64,
            deliver_time: (s.events[0].1 - s.dock_approaching_time - unload_allowance(
                s.order_items,
                delivered,
            )) as i64,
        }),
{
    assert(event_engaged(s, s.events[0]));
    assert(event_custody(s, s.events[0]));
    assert(in_custody(s, v, id));
    let stops = s.vehicle_states[v].current_route;
    if stops.len() > 0 {
        assert(!stops[0].work.load_items.contains(id));
    }
    law_finish_attribution(taken(s), v, f, delivered, s.events[0].1 as int, id);
}

} // verus!
