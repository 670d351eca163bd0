//! What a vehicle has taken up it is not planned to load again: the
//! invariant that ties a delivery to the service that made it.

use crate::model::order_item::OrderItemIdView;
use crate::simulation::accounting::lemma_slot_range;
use crate::simulation::event_queue::enqueue;
use crate::simulation::lifecycle::{
    all_waiting, lemma_install_step, lemma_route_waiting, none_set_waiting,
};
use crate::schedule::dedup_all;
use crate::simulation::dispatch::{dispatch, install_all, install_routes, taken, timestep, with_route};
use crate::simulation::engagement::{
    engaged, event_engaged, event_vehicle, place_engaged, planned_ahead,
};
use crate::simulation::simulator::lemma_no_arrival_fault;
use crate::model::route_info::transit_time;
use crate::simulation::rules::{
    all_delivered, begin_loading, begin_transporting, depart, finish_load, intervals,
    record_delivery, release_dock, replace_top, SimulatorView,
};
use crate::simulation::sim_event::{
    SimEvent, SimEventView, SimulatorEventDataView, VehicleWorkView,
};
use crate::simulation::state::{
    FactoryStateView, OrderItemState, VehiclePositionView, VehicleRouteView, VehicleStateView,
};
use crate::simulation::validator::{
    check_plan, check_route, check_routes, check_vehicle, shadow_of, ShadowView,
};
use vstd::prelude::*;

verus! {

/// The item has a state, and is allocated, picked up or delivered.
pub open spec fn taken_up(s: SimulatorView, k: OrderItemIdView) -> bool {
    s.order_item_states.contains_key(k) && s.order_item_states[k].index() >= 2
}

/// None of the stops loads the item `k`.
pub open spec fn none_loads(routes: Seq<VehicleRouteView>, k: OrderItemIdView) -> bool {
    forall|j: int| 0 <= j < routes.len() ==> !(#[trigger] routes[j]).work.load_items.contains(k)
}

/// The item `k` is in the custody of the vehicle `v`: it is taken up, and
/// no stop that lies before the vehicle loads it.
pub open spec fn in_custody(s: SimulatorView, v: Seq<char>, k: OrderItemIdView) -> bool {
    taken_up(s, k) && none_loads(s.vehicle_states[v].current_route, k)
}

/// No two of the stops load the same item.
pub open spec fn loads_apart(routes: Seq<VehicleRouteView>) -> bool {
    forall|i: int, j: int, k: OrderItemIdView|
        #![trigger routes[i].work.load_items.contains(k), routes[j].work.load_items.contains(k)]
        0 <= i < j < routes.len() && routes[i].work.load_items.contains(k)
            ==> !routes[j].work.load_items.contains(k)
}

/// Every item that the vehicle `v` carries or is planned to carry is in
/// its custody, and no two of the stops before it load the same item.
pub open spec fn vehicle_custody(s: SimulatorView, v: Seq<char>) -> bool {
    &&& forall|k: OrderItemIdView| #[trigger]
        s.vehicle_states[v].item_stack.contains(k) ==> in_custody(s, v, k)
    &&& forall|k: OrderItemIdView| #[trigger]
        s.vehicle_states[v].allocated_item_stack.contains(k) ==> in_custody(s, v, k)
    &&& loads_apart(s.vehicle_states[v].current_route)
}

/// Every item that the service whose end is pending has put down is in the
/// custody of the vehicle of the service.
pub open spec fn event_custody(s: SimulatorView, e: SimEventView) -> bool {
    match e.0 {
        SimulatorEventDataView::FinishLoading { vehicle_id, factory_id, delivered_items } => {
            s.vehicle_states.contains_key(vehicle_id) ==> forall|k: OrderItemIdView| #[trigger]
                delivered_items.contains(k) ==> in_custody(s, vehicle_id, k)
        },
        _ => true,
    }
}

/// What the vehicles carry, are planned to carry and are putting down is
/// in their custody.
pub open spec fn custody(s: SimulatorView) -> bool {
    &&& forall|v: Seq<char>| #[trigger] s.vehicle_states.contains_key(v) ==> vehicle_custody(s, v)
    &&& forall|i: int| 0 <= i < s.events.len() ==> event_custody(s, #[trigger] s.events[i])
}

/// The stops of the vehicle `v` are in `b` what they are in `a`, or what
/// they are in `a` without the first; its stacks are the same.
pub open spec fn same_load(a: SimulatorView, b: SimulatorView, v: Seq<char>) -> bool {
    &&& a.vehicle_states.contains_key(v)
    &&& b.vehicle_states[v].item_stack == a.vehicle_states[v].item_stack
    &&& b.vehicle_states[v].allocated_item_stack == a.vehicle_states[v].allocated_item_stack
    &&& shortened(a.vehicle_states[v].current_route, b.vehicle_states[v].current_route)
}

/// The stops `after` are the stops `before`, or those without the first.
pub open spec fn shortened(before: Seq<VehicleRouteView>, after: Seq<VehicleRouteView>) -> bool {
    after == before || (before.len() > 0 && after == before.drop_first())
}

/// Every pending end of a service of `b` is pending in `a`.
pub open spec fn no_new_service(a: SimulatorView, b: SimulatorView) -> bool {
    forall|i: int|
        0 <= i < b.events.len() && (#[trigger] b.events[i]).0 is FinishLoading ==> exists|j: int|
            0 <= j < a.events.len() && a.events[j] == b.events[i]
}

/// Every item that is taken up in `a` is taken up in `b`.
pub open spec fn keeps_taken_up(a: SimulatorView, b: SimulatorView) -> bool {
    forall|k: OrderItemIdView| taken_up(a, k) ==> #[trigger] taken_up(b, k)
}

/// An item in the custody of a vehicle stays in its custody when no item
/// is set back and the vehicle gets no new stop.
pub proof fn lemma_custody_kept(a: SimulatorView, b: SimulatorView, v: Seq<char>, k: OrderItemIdView)
    requires
        in_custody(a, v, k),
        keeps_taken_up(a, b),
        shortened(a.vehicle_states[v].current_route, b.vehicle_states[v].current_route),
    ensures
        in_custody(b, v, k),
{
    let ra = a.vehicle_states[v].current_route;
    let rb = b.vehicle_states[v].current_route;
    assert(taken_up(b, k));
    assert forall|j: int| 0 <= j < rb.len() implies !(#[trigger] rb[j]).work.load_items.contains(
        k,
    ) by {
        if rb != ra {
            assert(rb[j] == ra[j + 1]);
        }
    }
}

/// Custody is kept where no item is set back, no vehicle gets a new stop
/// or another stack, and no service ends that was not pending.
pub proof fn lemma_custody_frame(a: SimulatorView, b: SimulatorView)
    requires
        custody(a),
        keeps_taken_up(a, b),
        no_new_service(a, b),
        forall|v: Seq<char>| #[trigger] b.vehicle_states.contains_key(v) ==> same_load(a, b, v),
    ensures
        custody(b),
{
    assert forall|v: Seq<char>| #[trigger] b.vehicle_states.contains_key(v) implies vehicle_custody(
        b,
        v,
    ) by {
        assert(same_load(a, b, v));
        assert(vehicle_custody(a, v));
        assert forall|k: OrderItemIdView| #[trigger]
            b.vehicle_states[v].item_stack.contains(k) implies in_custody(b, v, k) by {
            lemma_custody_kept(a, b, v, k);
        }
        assert forall|k: OrderItemIdView| #[trigger]
            b.vehicle_states[v].allocated_item_stack.contains(k) implies in_custody(b, v, k) by {
            lemma_custody_kept(a, b, v, k);
        }
        if b.vehicle_states[v].current_route != a.vehicle_states[v].current_route {
            lemma_apart_rest(a.vehicle_states[v].current_route);
        }
    }
    assert forall|i: int| 0 <= i < b.events.len() implies event_custody(
        b,
        #[trigger] b.events[i],
    ) by {
        match b.events[i].0 {
            SimulatorEventDataView::FinishLoading { vehicle_id, factory_id, delivered_items } => {
                let j = choose|j: int| 0 <= j < a.events.len() && a.events[j] == b.events[i];
                assert(event_custody(a, a.events[j]));
                if b.vehicle_states.contains_key(vehicle_id) {
                    assert(same_load(a, b, vehicle_id));
                    assert forall|k: OrderItemIdView| #[trigger]
                        delivered_items.contains(k) implies in_custody(b, vehicle_id, k) by {
                        lemma_custody_kept(a, b, vehicle_id, k);
                    }
                }
            },
            _ => {},
        }
    }
}

/// Stops of which no two load the same item stay so without the first.
pub proof fn lemma_apart_rest(routes: Seq<VehicleRouteView>)
    requires
        loads_apart(routes),
        routes.len() > 0,
    ensures
        loads_apart(routes.drop_first()),
{
    let rest = routes.drop_first();
    assert forall|i: int, j: int, k: OrderItemIdView|
        #![trigger rest[i].work.load_items.contains(k), rest[j].work.load_items.contains(k)]
        0 <= i < j < rest.len() && rest[i].work.load_items.contains(
            k,
        ) implies !rest[j].work.load_items.contains(k) by {
        assert(rest[i] == routes[i + 1] && rest[j] == routes[j + 1]);
        assert(routes[i + 1].work.load_items.contains(k));
    }
}

/// Every event of a queue that an event has entered is that event or was
/// in the queue before.
pub proof fn lemma_entered(events: Seq<SimEventView>, e: SimEventView, i: int)
    requires
        0 <= i < enqueue::<SimEvent>(events, e).len(),
    ensures
        enqueue::<SimEvent>(events, e)[i] == e || exists|j: int|
            0 <= j < events.len() && events[j] == enqueue::<SimEvent>(events, e)[i],
{
    lemma_slot_range(events, e.1 as int);
}

/// Every item that stops load which pass the validator waited before the
/// first of them.
pub proof fn lemma_routes_all_waiting(
    s: SimulatorView,
    capacity: int,
    routes: Seq<VehicleRouteView>,
    sh: ShadowView,
    j: int,
)
    requires
        check_routes(s, capacity, routes, sh).is_ok(),
        0 <= j < routes.len(),
    ensures
        all_waiting(sh.states, routes[j].work.load_items),
    decreases routes.len(),
{
    lemma_route_waiting(s, capacity, routes[0], sh);
    if j > 0 {
        let sh1 = check_route(s, capacity, routes[0], sh).unwrap();
        lemma_routes_all_waiting(s, capacity, routes.drop_first(), sh1, j - 1);
        assert(routes.drop_first()[j - 1] == routes[j]);
        let loads = routes[j].work.load_items;
        assert forall|i: int| 0 <= i < loads.len() implies sh.states.contains_key(
            #[trigger] loads[i],
        ) && sh.states[loads[i]] == OrderItemState::Unallocated by {
            assert(sh1.states.contains_key(loads[i]));
        }
    }
}

/// No two stops that pass the validator load the same item.
pub proof fn lemma_routes_apart(
    s: SimulatorView,
    capacity: int,
    routes: Seq<VehicleRouteView>,
    sh: ShadowView,
)
    requires
        check_routes(s, capacity, routes, sh).is_ok(),
    ensures
        loads_apart(routes),
    decreases routes.len(),
{
    if routes.len() > 0 {
        let sh1 = check_route(s, capacity, routes[0], sh).unwrap();
        let rest = routes.drop_first();
        lemma_route_waiting(s, capacity, routes[0], sh);
        lemma_routes_apart(s, capacity, rest, sh1);
        assert forall|i: int, j: int, k: OrderItemIdView|
            #![trigger routes[i].work.load_items.contains(k), routes[j].work.load_items.contains(k)]
            0 <= i < j < routes.len() && routes[i].work.load_items.contains(
                k,
            ) implies !routes[j].work.load_items.contains(k) by {
            assert(rest[j - 1] == routes[j]);
            if routes[j].work.load_items.contains(k) {
                if i == 0 {
                    lemma_routes_all_waiting(s, capacity, rest, sh1, j - 1);
                    let first = routes[0].work.load_items;
                    let later = routes[j].work.load_items;
                    let x = choose|x: int| 0 <= x < first.len() && first[x] == k;
                    let y = choose|y: int| 0 <= y < later.len() && later[y] == k;
                    assert(sh1.states[first[x]] != OrderItemState::Unallocated);
                    assert(sh1.states[later[y]] == OrderItemState::Unallocated);
                } else {
                    assert(rest[i - 1] == routes[i]);
                    assert(rest[i - 1].work.load_items.contains(k));
                    assert(rest[j - 1].work.load_items.contains(k));
                }
            }
        }
    }
}

/// An item of a stack whose top has been replaced was in the stack, or is
/// one of those that came on.
pub proof fn lemma_replaced(
    stack: Seq<OrderItemIdView>,
    unload: Seq<OrderItemIdView>,
    load: Seq<OrderItemIdView>,
    k: OrderItemIdView,
)
    requires
        unload.len() <= stack.len(),
        replace_top(stack, unload, load).contains(k),
    ensures
        stack.contains(k) || load.contains(k),
{
    let out = replace_top(stack, unload, load);
    let n = stack.len() - unload.len();
    let i = choose|i: int| 0 <= i < out.len() && out[i] == k;
    if i < n {
        assert(stack[i] == k);
    } else {
        assert(load[i - n] == k);
    }
}

/// The start of a service keeps custody, where the work lay before the vehicle.
pub proof fn lemma_loading_custody(
    s: SimulatorView,
    v: Seq<char>,
    f: Seq<char>,
    work: VehicleWorkView,
    t: int,
)
    requires
        custody(s),
        begin_loading(s, v, f, work, t).is_ok(),
        planned_ahead(s, v, work),
    ensures
        custody(begin_loading(s, v, f, work, t).unwrap()),
{
    let b = begin_loading(s, v, f, work, t).unwrap();
    let stack = s.vehicle_states[v].item_stack;
    let planned = s.vehicle_states[v].allocated_item_stack;
    let n = stack.len() - work.unload_items.len();
    assert(vehicle_custody(s, v));
    assert forall|k: OrderItemIdView| taken_up(s, k) implies #[trigger] taken_up(b, k) by {}
    assert forall|u: Seq<char>, k: OrderItemIdView| in_custody(s, u, k) && s.vehicle_states.contains_key(u)
        implies #[trigger] in_custody(b, u, k) by {
        assert(taken_up(b, k));
        assert(b.vehicle_states[u].current_route == s.vehicle_states[u].current_route);
    }
    assert forall|k: OrderItemIdView| work.load_items.contains(k) implies in_custody(s, v, k) by {
        let i = choose|i: int| 0 <= i < work.load_items.len() && work.load_items[i] == k;
        assert(planned[n + i] == k);
        assert(planned.contains(k));
    }
    assert forall|k: OrderItemIdView| work.unload_items.contains(k) implies in_custody(s, v, k) by {
        let i = choose|i: int| 0 <= i < work.unload_items.len() && work.unload_items[i] == k;
        assert(stack.subrange(n, stack.len() as int)[i] == k);
        assert(stack[n + i] == k);
        assert(stack.contains(k));
    }
    assert forall|u: Seq<char>| #[trigger] b.vehicle_states.contains_key(u) implies vehicle_custody(
        b,
        u,
    ) by {
        assert(s.vehicle_states.contains_key(u));
        assert(vehicle_custody(s, u));
        assert forall|k: OrderItemIdView| #[trigger]
            b.vehicle_states[u].item_stack.contains(k) implies in_custody(b, u, k) by {
            if u == v {
                lemma_replaced(stack, work.unload_items, work.load_items, k);
                assert(in_custody(s, v, k));
            } else {
                assert(in_custody(s, u, k));
            }
        }
        assert forall|k: OrderItemIdView| #[trigger]
            b.vehicle_states[u].allocated_item_stack.contains(k) implies in_custody(b, u, k) by {
            assert(in_custody(s, u, k));
        }
    }
    let end: SimEventView = (
        SimulatorEventDataView::FinishLoading {
            vehicle_id: v,
            factory_id: f,
            delivered_items: work.unload_items.reverse(),
        },
        (t + work.load_time() + work.unload_time()) as i64,
    );
    assert(b.events == enqueue::<SimEvent>(s.events, end));
    assert forall|i: int| 0 <= i < b.events.len() implies event_custody(
        b,
        #[trigger] b.events[i],
    ) by {
        lemma_entered(s.events, end, i);
        if b.events[i] == end {
            assert forall|k: OrderItemIdView| #[trigger]
                work.unload_items.reverse().contains(k) implies in_custody(b, v, k) by {
                let r = work.unload_items.reverse();
                let i = choose|i: int| 0 <= i < r.len() && r[i] == k;
                assert(work.unload_items[work.unload_items.len() - 1 - i] == k);
                assert(work.unload_items.contains(k));
                assert(in_custody(s, v, k));
            }
        } else {
            let j = choose|j: int| 0 <= j < s.events.len() && s.events[j] == b.events[i];
            assert(event_custody(s, s.events[j]));
            lemma_event_custody_kept(s, b, b.events[i]);
        }
    }
}

/// The pending end of a service keeps the custody of its items where every
/// vehicle does.
pub proof fn lemma_event_custody_kept(a: SimulatorView, b: SimulatorView, e: SimEventView)
    requires
        event_custody(a, e),
        b.vehicle_states.dom() =~= a.vehicle_states.dom(),
        forall|u: Seq<char>, k: OrderItemIdView|
            in_custody(a, u, k) && a.vehicle_states.contains_key(u) ==> #[trigger] in_custody(
                b,
                u,
                k,
            ),
    ensures
        event_custody(b, e),
{
    match e.0 {
        SimulatorEventDataView::FinishLoading { vehicle_id, factory_id, delivered_items } => {
            if b.vehicle_states.contains_key(vehicle_id) {
                assert(a.vehicle_states.dom().contains(vehicle_id));
                assert(a.vehicle_states.contains_key(vehicle_id));
                assert forall|k: OrderItemIdView| #[trigger]
                    delivered_items.contains(k) implies in_custody(b, vehicle_id, k) by {
                    assert(in_custody(a, vehicle_id, k));
                }
            }
        },
        _ => {},
    }
}

/// The start of a trip keeps custody, where no stop that stays before the
/// vehicle loads what the stop of the trip loads.
pub proof fn lemma_transporting_custody(
    s: SimulatorView,
    v: Seq<char>,
    f: Seq<char>,
    route: VehicleRouteView,
    t: int,
)
    requires
        custody(s),
        begin_transporting(s, v, f, route, t).is_ok(),
        forall|k: OrderItemIdView|
            route.work.load_items.contains(k) ==> none_loads(
                s.vehicle_states[v].current_route,
                k,
            ),
    ensures
        custody(begin_transporting(s, v, f, route, t).unwrap()),
{
    let b = begin_transporting(s, v, f, route, t).unwrap();
    let planned = s.vehicle_states[v].allocated_item_stack;
    assert(vehicle_custody(s, v));
    assert forall|k: OrderItemIdView| taken_up(s, k) implies #[trigger] taken_up(b, k) by {}
    assert forall|u: Seq<char>, k: OrderItemIdView| in_custody(s, u, k) && s.vehicle_states.contains_key(u)
        implies #[trigger] in_custody(b, u, k) by {
        assert(taken_up(b, k));
        assert(b.vehicle_states[u].current_route == s.vehicle_states[u].current_route);
    }
    assert forall|u: Seq<char>| #[trigger] b.vehicle_states.contains_key(u) implies vehicle_custody(
        b,
        u,
    ) by {
        assert(s.vehicle_states.contains_key(u));
        assert(vehicle_custody(s, u));
        assert forall|k: OrderItemIdView| #[trigger]
            b.vehicle_states[u].item_stack.contains(k) implies in_custody(b, u, k) by {
            assert(in_custody(s, u, k));
        }
        assert forall|k: OrderItemIdView| #[trigger]
            b.vehicle_states[u].allocated_item_stack.contains(k) implies in_custody(b, u, k) by {
            if u == v {
                lemma_replaced(planned, route.work.unload_items, route.work.load_items, k);
                if planned.contains(k) {
                    assert(in_custody(s, v, k));
                } else {
                    assert(taken_up(b, k));
                    assert(none_loads(s.vehicle_states[v].current_route, k));
                }
            } else {
                assert(in_custody(s, u, k));
            }
        }
    }
    let arrival: SimEventView = (
        SimulatorEventDataView::VehicleArrival {
            vehicle_id: v,
            factory_id: route.destination,
            work: route.work,
        },
        (t + transit_time(s.routes, f, route.destination).unwrap()) as i64,
    );
    assert(b.events == enqueue::<SimEvent>(s.events, arrival));
    assert forall|i: int| 0 <= i < b.events.len() implies event_custody(
        b,
        #[trigger] b.events[i],
    ) by {
        lemma_entered(s.events, arrival, i);
        if b.events[i] != arrival {
            let j = choose|j: int| 0 <= j < s.events.len() && s.events[j] == b.events[i];
            assert(event_custody(s, s.events[j]));
            lemma_event_custody_kept(s, b, b.events[i]);
        }
    }
}

/// A vehicle that goes on after a service keeps custody.
pub proof fn lemma_depart_custody(s: SimulatorView, v: Seq<char>, f: Seq<char>, t: int)
    requires
        custody(s),
        depart(s, v, f, t).is_ok(),
    ensures
        custody(depart(s, v, f, t).unwrap()),
{
    let stops = s.vehicle_states[v].current_route;
    if stops.len() == 0 {
        let b = depart(s, v, f, t).unwrap();
        assert forall|i: int|
            0 <= i < b.events.len() && (#[trigger] b.events[i]).0 is FinishLoading implies exists|
            j: int,
        |
            0 <= j < s.events.len() && s.events[j] == b.events[i] by {
            assert(s.events[i] == b.events[i]);
        }
        lemma_custody_frame(s, b);
    } else {
        let s0 = SimulatorView {
            vehicle_states: s.vehicle_states.insert(
                v,
                VehicleStateView {
                    position: VehiclePositionView::Idle(f),
                    current_route: stops.drop_first(),
                    ..s.vehicle_states[v]
                },
            ),
            ..s
        };
        assert forall|i: int|
            0 <= i < s0.events.len() && (#[trigger] s0.events[i]).0 is FinishLoading implies exists|
            j: int,
        |
            0 <= j < s.events.len() && s.events[j] == s0.events[i] by {
            assert(s.events[i] == s0.events[i]);
        }
        lemma_custody_frame(s, s0);
        assert(vehicle_custody(s, v));
        assert forall|k: OrderItemIdView| stops[0].work.load_items.contains(k) implies none_loads(
            s0.vehicle_states[v].current_route,
            k,
        ) by {
            let rest = stops.drop_first();
            assert forall|j: int| 0 <= j < rest.len() implies !(#[trigger] rest[j]).work.load_items.contains(
                k,
            ) by {
                assert(rest[j] == stops[j + 1]);
                assert(stops[0].work.load_items.contains(k));
                assert(!stops[j + 1].work.load_items.contains(k));
            }
        }
        lemma_transporting_custody(s0, v, f, stops[0], t);
    }
}

/// A dock that is released keeps custody, where the work of the vehicle
/// next in line lies before that vehicle.
pub proof fn lemma_release_custody(s: SimulatorView, f: Seq<char>, t: int)
    requires
        custody(s),
        release_dock(s, f, t).is_ok(),
        s.factory_states[f].queue.len() > 0 ==> planned_ahead(
            s,
            s.factory_states[f].queue[0].0,
            s.factory_states[f].queue[0].1,
        ),
    ensures
        custody(release_dock(s, f, t).unwrap()),
{
    let b = release_dock(s, f, t).unwrap();
    if s.factory_states[f].queue.len() > 0 {
        let s0 = SimulatorView {
            factory_states: s.factory_states.insert(
                f,
                FactoryStateView {
                    queue: s.factory_states[f].queue.drop_first(),
                    ..s.factory_states[f]
                },
            ),
            ..s
        };
        lemma_same_custody(s, s0);
        lemma_loading_custody(
            s0,
            s.factory_states[f].queue[0].0,
            f,
            s.factory_states[f].queue[0].1,
            t,
        );
    } else {
        lemma_same_custody(s, b);
    }
}

/// Custody is kept where the vehicles, the item states and the pending
/// events stay as they are.
pub proof fn lemma_same_custody(a: SimulatorView, b: SimulatorView)
    requires
        custody(a),
        b.vehicle_states == a.vehicle_states,
        b.order_item_states == a.order_item_states,
        b.events == a.events,
    ensures
        custody(b),
{
    assert forall|i: int|
        0 <= i < b.events.len() && (#[trigger] b.events[i]).0 is FinishLoading implies exists|
        j: int,
    |
        0 <= j < a.events.len() && a.events[j] == b.events[i] by {
        assert(a.events[i] == b.events[i]);
    }
    lemma_custody_frame(a, b);
}

/// Custody is kept where the vehicles keep their stacks and their stops,
/// no item is set back, and the pending events are events that were
/// pending, in their order.
pub proof fn lemma_later_custody(a: SimulatorView, b: SimulatorView, from: int)
    requires
        custody(a),
        keeps_taken_up(a, b),
        0 <= from <= a.events.len(),
        b.events == a.events.subrange(from, a.events.len() as int),
        forall|v: Seq<char>| #[trigger] b.vehicle_states.contains_key(v) ==> same_load(a, b, v),
    ensures
        custody(b),
{
    assert forall|i: int|
        0 <= i < b.events.len() && (#[trigger] b.events[i]).0 is FinishLoading implies exists|
        j: int,
    |
        0 <= j < a.events.len() && a.events[j] == b.events[i] by {
        assert(a.events[i + from] == b.events[i]);
    }
    lemma_custody_frame(a, b);
}

/// The end of a service keeps custody, where the work of the vehicle next
/// in line lies before that vehicle.
pub proof fn lemma_finish_custody(
    s: SimulatorView,
    v: Seq<char>,
    f: Seq<char>,
    delivered: Seq<OrderItemIdView>,
    t: int,
)
    requires
        custody(s),
        finish_load(s, v, f, delivered, t).is_ok(),
        s.factory_states[f].queue.len() > 0 ==> planned_ahead(
            s,
            s.factory_states[f].queue[0].0,
            s.factory_states[f].queue[0].1,
        ),
    ensures
        custody(finish_load(s, v, f, delivered, t).unwrap()),
{
    let s1 = release_dock(s, f, t).unwrap();
    let s2 = record_delivery(s1, delivered, t).unwrap();
    lemma_release_custody(s, f, t);
    assert(s2.events.subrange(0, s2.events.len() as int) =~= s2.events);
    lemma_later_custody(s1, s2, 0);
    lemma_depart_custody(s2, v, f, t);
}

/// An event other than a call of the scheduler keeps custody in a kernel
/// whose vehicles are engaged as they should be.
pub proof fn law_custody_over_event(s: SimulatorView)
    requires
        engaged(s),
        custody(s),
        s.events.len() > 0,
        !(s.events[0].0 is UpdateTimestep),
        dispatch(taken(s), s.events[0].0, s.events[0].1 as int).is_ok(),
    ensures
        custody(dispatch(taken(s), s.events[0].0, s.events[0].1 as int).unwrap()),
{
    let e = s.events[0];
    let t = e.1 as int;
    let s1 = taken(s);
    let b = dispatch(s1, e.0, t).unwrap();
    assert(keeps_taken_up(s, s1));
    lemma_later_custody(s, s1, 1);
    assert(event_engaged(s, s.events[0]));
    match e.0 {
        SimulatorEventDataView::OrderArrival { order_id, order_item_ids } => {
            lemma_no_arrival_fault(s1.order_item_states, order_item_ids);
            assert forall|k: OrderItemIdView| taken_up(s1, k) implies #[trigger] taken_up(b, k) by {
                if order_item_ids.contains(k) {
                    let i = choose|i: int| 0 <= i < order_item_ids.len() && order_item_ids[i] == k;
                    assert(s1.order_item_states[order_item_ids[i]] == OrderItemState::Unavailable);
                }
            }
            assert(b.events.subrange(0, b.events.len() as int) =~= b.events);
            lemma_later_custody(s1, b, 0);
        },
        SimulatorEventDataView::VehicleArrival { vehicle_id, factory_id, work } => {
            let next: SimEventView = (
                SimulatorEventDataView::VehicleApproachedDock { vehicle_id, factory_id, work },
                (t + s1.dock_approaching_time) as i64,
            );
            assert(b.events == enqueue::<SimEvent>(s1.events, next));
            assert forall|i: int|
                0 <= i < b.events.len() && (#[trigger] b.events[i]).0 is FinishLoading implies exists|
                j: int,
            |
                0 <= j < s1.events.len() && s1.events[j] == b.events[i] by {
                lemma_entered(s1.events, next, i);
            }
            assert(keeps_taken_up(s1, b));
            lemma_custody_frame(s1, b);
        },
        SimulatorEventDataView::VehicleApproachedDock { vehicle_id, factory_id, work } => {
            if s1.factory_states[factory_id].num_avail_docks == 0 {
                lemma_same_custody(s1, b);
            } else {
                assert(planned_ahead(s1, vehicle_id, work));
                lemma_loading_custody(s1, vehicle_id, factory_id, work, t);
                lemma_same_custody(begin_loading(s1, vehicle_id, factory_id, work, t).unwrap(), b);
            }
        },
        SimulatorEventDataView::FinishLoading { vehicle_id, factory_id, delivered_items } => {
            if s1.factory_states[factory_id].queue.len() > 0 {
                assert(s.factory_states.contains_key(factory_id));
                assert(place_engaged(s, factory_id, s.factory_states[factory_id].queue[0]));
            }
            lemma_finish_custody(s1, vehicle_id, factory_id, delivered_items, t);
        },
        SimulatorEventDataView::UpdateTimestep => {},
    }
}

/// A vehicle that is given stops which the validator has passed keeps
/// custody. The stops were validated against item states in which nothing
/// waits that does not wait in `s`.
pub proof fn lemma_install_custody(
    c: SimulatorView,
    s: SimulatorView,
    v: Seq<char>,
    routes: Seq<VehicleRouteView>,
    states: Map<OrderItemIdView, OrderItemState>,
    t: int,
)
    requires
        custody(s),
        check_vehicle(c, v, routes, states).is_ok(),
        install_routes(s, v, routes, t).is_ok(),
        none_set_waiting(s.order_item_states, states),
    ensures
        custody(install_routes(s, v, routes, t).unwrap()),
{
    let capacity = c.vehicles[v].capacity();
    let sh = shadow_of(c, v, states);
    let a = with_route(s, v, routes);
    lemma_routes_apart(c, capacity, routes, sh);
    assert(vehicle_custody(s, v));
    assert forall|k: OrderItemIdView| taken_up(s, k) implies none_loads(routes, k) by {
        assert forall|j: int| 0 <= j < routes.len() implies !(#[trigger] routes[j]).work.load_items.contains(
            k,
        ) by {
            if routes[j].work.load_items.contains(k) {
                lemma_routes_all_waiting(c, capacity, routes, sh, j);
                let loads = routes[j].work.load_items;
                let i = choose|i: int| 0 <= i < loads.len() && loads[i] == k;
                assert(states.contains_key(loads[i]) && states[loads[i]]
                    == OrderItemState::Unallocated);
                assert(states.contains_key(k));
            }
        }
    }
    assert(custody(a)) by {
        assert forall|u: Seq<char>| #[trigger] a.vehicle_states.contains_key(u) implies vehicle_custody(
            a,
            u,
        ) by {
            assert(s.vehicle_states.contains_key(u));
            assert(vehicle_custody(s, u));
            assert forall|k: OrderItemIdView| #[trigger]
                a.vehicle_states[u].item_stack.contains(k) implies in_custody(a, u, k) by {
                assert(in_custody(s, u, k));
            }
            assert forall|k: OrderItemIdView| #[trigger]
                a.vehicle_states[u].allocated_item_stack.contains(k) implies in_custody(a, u, k) by {
                assert(in_custody(s, u, k));
            }
        }
        assert forall|i: int| 0 <= i < a.events.len() implies event_custody(
            a,
            #[trigger] a.events[i],
        ) by {
            assert(event_custody(s, s.events[i]));
            match a.events[i].0 {
                SimulatorEventDataView::FinishLoading {
                    vehicle_id,
                    factory_id,
                    delivered_items,
                } => {
                    if a.vehicle_states.contains_key(vehicle_id) {
                        assert(s.vehicle_states.contains_key(vehicle_id));
                        assert forall|k: OrderItemIdView| #[trigger]
                            delivered_items.contains(k) implies in_custody(a, vehicle_id, k) by {
                            assert(in_custody(s, vehicle_id, k));
                        }
                    }
                },
                _ => {},
            }
        }
    }
    if s.vehicle_states[v].position is Idle && routes.len() > 0 {
        let s0 = with_route(s, v, routes.drop_first());
        assert(keeps_taken_up(a, s0));
        assert(s0.events.subrange(0, s0.events.len() as int) =~= a.events);
        lemma_later_custody(a, s0, 0);
        assert forall|k: OrderItemIdView| routes[0].work.load_items.contains(k) implies none_loads(
            s0.vehicle_states[v].current_route,
            k,
        ) by {
            let rest = routes.drop_first();
            assert forall|j: int| 0 <= j < rest.len() implies !(#[trigger] rest[j]).work.load_items.contains(
                k,
            ) by {
                assert(rest[j] == routes[j + 1]);
                assert(routes[0].work.load_items.contains(k));
                assert(!routes[j + 1].work.load_items.contains(k));
            }
        }
        let start = s.vehicle_states[v].position->Idle_0;
        lemma_transporting_custody(s0, v, start, routes[0], t);
    }
}

/// The vehicles of a plan that the validator has passed keep custody when
/// they are given their stops.
pub proof fn lemma_install_all_custody(
    c: SimulatorView,
    s: SimulatorView,
    vehicles: Seq<Seq<char>>,
    routes: Seq<Seq<VehicleRouteView>>,
    states: Map<OrderItemIdView, OrderItemState>,
    t: int,
)
    requires
        custody(s),
        vehicles.len() == routes.len(),
        check_plan(c, vehicles, routes, states).is_ok(),
        install_all(s, vehicles, routes, t).is_ok(),
        none_set_waiting(s.order_item_states, states),
    ensures
        custody(install_all(s, vehicles, routes, t).unwrap()),
    decreases vehicles.len(),
{
    if vehicles.len() > 0 {
        let v = vehicles[0];
        let r = routes[0];
        let next = check_vehicle(c, v, r, states).unwrap();
        let s1 = install_routes(s, v, r, t).unwrap();
        lemma_install_step(c, s, v, r, states, t);
        lemma_install_custody(c, s, v, r, states, t);
        lemma_install_all_custody(c, s1, vehicles.drop_first(), routes.drop_first(), next, t);
    }
}

/// A call of the scheduler keeps custody, whatever the plan and however
/// long the call took.
pub proof fn law_custody_over_timestep(
    s: SimulatorView,
    vehicles: Seq<Seq<char>>,
    routes: Seq<Seq<VehicleRouteView>>,
    t: int,
    cost: int,
)
    requires
        custody(s),
        vehicles.len() == routes.len(),
        timestep(s, vehicles, routes, t, cost).is_ok(),
    ensures
        custody(timestep(s, vehicles, routes, t, cost).unwrap()),
{
    let s0 = SimulatorView { total_distance_last_timeslot: s.total_distance, ..s };
    let canonical = dedup_all(routes);
    let b = timestep(s, vehicles, routes, t, cost).unwrap();
    lemma_same_custody(s, s0);
    lemma_install_all_custody(s0, s0, vehicles, canonical, s0.order_item_states, t);
    let s1 = install_all(s0, vehicles, canonical, t).unwrap();
    if !all_delivered(s1.order_item_states) {
        let tick: SimEventView = (
            SimulatorEventDataView::UpdateTimestep,
            (t + intervals(cost, s.time_interval) * s.time_interval) as i64,
        );
        assert(b.events == enqueue::<SimEvent>(s1.events, tick));
        assert forall|i: int|
            0 <= i < b.events.len() && (#[trigger] b.events[i]).0 is FinishLoading implies exists|
            j: int,
        |
            0 <= j < s1.events.len() && s1.events[j] == b.events[i] by {
            lemma_entered(s1.events, tick, i);
        }
        assert(keeps_taken_up(s1, b));
        lemma_custody_frame(s1, b);
    }
}

/// Where no vehicle carries anything and no pending event is about a
/// vehicle, custody holds.
pub proof fn lemma_custody_at_rest(s: SimulatorView)
    requires
        forall|v: Seq<char>| #[trigger]
            s.vehicle_states.contains_key(v) ==> s.vehicle_states[v].item_stack.len() == 0
                && s.vehicle_states[v].allocated_item_stack.len() == 0
                && s.vehicle_states[v].current_route.len() == 0,
        forall|i: int| 0 <= i < s.events.len() ==> event_vehicle(#[trigger] s.events[i]).is_none(),
    ensures
        custody(s),
{
    assert forall|i: int| 0 <= i < s.events.len() implies event_custody(
        s,
        #[trigger] s.events[i],
    ) by {
        assert(event_vehicle(s.events[i]).is_none());
    }
}

} // verus!
