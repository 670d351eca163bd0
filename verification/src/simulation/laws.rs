//! Laws of the kernel: what holds of every state and of every step.

use crate::model::order_item::{demand_of, OrderItemIdView};
use crate::model::route_info::transit_time;
use crate::schedule::{canonical, dedup_routes};
use crate::simulation::dispatch::{fork_view, taken};
use crate::simulation::event_queue::{chronological, enqueue, Event};
use crate::simulation::fitting::{lemma_checked_plan, stops_fit, vehicle_checked};
use crate::simulation::rules::{
    begin_loading, begin_transporting, deliver_time, ends_with, mark_all, order_arrival,
    record_delivery, replace_top, unload_allowance, SimError, SimulatorView,
};
use crate::simulation::sim_event::{SimEvent, SimulatorEventDataView, VehicleWorkView};
use crate::simulation::simulator::lemma_no_arrival_fault;
use crate::simulation::state::{OrderItemState, VehicleRouteView};
use crate::simulation::validator::{
    check_plan, check_route, check_unloads, kept_whole, lemma_loads_stack, lemma_loads_states,
    lemma_no_split_fault, lemma_route_demand, lemma_unloads_stack, lemma_unloads_states,
    shadow_of, ShadowView,
};
use crate::simulation::rules::PlanError;
use vstd::prelude::*;

verus! {

/// The clock never goes back: the next event is not before the clock, and
/// once it is taken no pending event is before its time.
pub proof fn law_monotone_time(s: SimulatorView)
    requires
        s.wf(),
        s.events.len() > 0,
    ensures
        taken(s).clock >= s.clock,
        taken(s).events_wf(),
{
    let r = taken(s);
    assert(s.events_wf());
    assert(chronological::<SimEvent>(s.events));
    assert(s.clock <= s.events[0].1);
    assert forall|i: int, j: int| 0 <= i < j < r.events.len() implies <SimEvent as Event>::instant(
        #[trigger] r.events[i],
    ) <= <SimEvent as Event>::instant(#[trigger] r.events[j]) by {
        assert(r.events[i] == s.events[i + 1] && r.events[j] == s.events[j + 1]);
        assert(<SimEvent as Event>::instant(s.events[i + 1]) <= <SimEvent as Event>::instant(
            s.events[j + 1],
        ));
    }
    assert forall|i: int| 0 <= i < r.events.len() implies r.clock <= (#[trigger] r.events[i]).1 by {
        assert(r.events[i] == s.events[i + 1]);
        assert(<SimEvent as Event>::instant(s.events[0]) <= <SimEvent as Event>::instant(
            s.events[i + 1],
        ));
    }
}

/// No item of `before` has gone back in `after`, and none has been lost.
pub open spec fn advances(
    before: Map<OrderItemIdView, OrderItemState>,
    after: Map<OrderItemIdView, OrderItemState>,
) -> bool {
    forall|k: OrderItemIdView| #[trigger]
        before.contains_key(k) ==> after.contains_key(k) && after[k].index() >= before[k].index()
}

/// Every listed item that has a state is at most as far as `limit`.
pub open spec fn none_beyond(
    states: Map<OrderItemIdView, OrderItemState>,
    ids: Seq<OrderItemIdView>,
    limit: int,
) -> bool {
    forall|i: int|
        0 <= i < ids.len() && states.contains_key(#[trigger] ids[i]) ==> states[ids[i]].index()
            <= limit
}

/// The arrival of an order takes no item back.
pub proof fn law_arrival_advances(s: SimulatorView, ids: Seq<OrderItemIdView>)
    requires
        order_arrival(s, ids).is_ok(),
    ensures
        advances(s.order_item_states, order_arrival(s, ids).unwrap().order_item_states),
{
    lemma_no_arrival_fault(s.order_item_states, ids);
    let after = order_arrival(s, ids).unwrap().order_item_states;
    assert forall|k: OrderItemIdView| #[trigger] s.order_item_states.contains_key(k) implies after.contains_key(
        k,
    ) && after[k].index() >= s.order_item_states[k].index() by {
        if ids.contains(k) {
            let i = choose|i: int| 0 <= i < ids.len() && ids[i] == k;
            assert(s.order_item_states[ids[i]] == OrderItemState::Unavailable);
        }
    }
}

/// The start of a service takes no item back, where none of the items to
/// load is delivered already.
pub proof fn law_loading_advances(
    s: SimulatorView,
    v: Seq<char>,
    f: Seq<char>,
    work: VehicleWorkView,
    t: int,
)
    requires
        begin_loading(s, v, f, work, t).is_ok(),
        none_beyond(s.order_item_states, work.load_items, 3),
    ensures
        advances(s.order_item_states, begin_loading(s, v, f, work, t).unwrap().order_item_states),
{
    let after = begin_loading(s, v, f, work, t).unwrap().order_item_states;
    assert(after == mark_all(s.order_item_states, work.load_items, OrderItemState::PickedUp));
    assert forall|k: OrderItemIdView| #[trigger] s.order_item_states.contains_key(k) implies after.contains_key(
        k,
    ) && after[k].index() >= s.order_item_states[k].index() by {
        if work.load_items.contains(k) {
            let i = choose|i: int| 0 <= i < work.load_items.len() && work.load_items[i] == k;
            assert(s.order_item_states[work.load_items[i]].index() <= 3);
        }
    }
}

/// The start of a trip takes no item back, where none of the items to load
/// is picked up or delivered already.
pub proof fn law_transporting_advances(
    s: SimulatorView,
    v: Seq<char>,
    f: Seq<char>,
    route: VehicleRouteView,
    t: int,
)
    requires
        begin_transporting(s, v, f, route, t).is_ok(),
        none_beyond(s.order_item_states, route.work.load_items, 2),
    ensures
        advances(
            s.order_item_states,
            begin_transporting(s, v, f, route, t).unwrap().order_item_states,
        ),
{
    let after = begin_transporting(s, v, f, route, t).unwrap().order_item_states;
    assert(after == mark_all(
        s.order_item_states,
        route.work.load_items,
        OrderItemState::Allocated,
    ));
    assert forall|k: OrderItemIdView| #[trigger] s.order_item_states.contains_key(k) implies after.contains_key(
        k,
    ) && after[k].index() >= s.order_item_states[k].index() by {
        if route.work.load_items.contains(k) {
            let i = choose|i: int|
                0 <= i < route.work.load_items.len() && route.work.load_items[i] == k;
            assert(s.order_item_states[route.work.load_items[i]].index() <= 2);
        }
    }
}

/// A delivery takes no item back, and a delivered item stays delivered.
pub proof fn law_delivery_advances(s: SimulatorView, delivered: Seq<OrderItemIdView>, t: int)
    requires
        record_delivery(s, delivered, t).is_ok(),
    ensures
        advances(s.order_item_states, record_delivery(s, delivered, t).unwrap().order_item_states),
        forall|k: OrderItemIdView|
            s.order_item_states.contains_key(k) && s.order_item_states[k].index() == 4
                ==> #[trigger] record_delivery(s, delivered, t).unwrap().order_item_states[k].index()
                == 4,
{
}

/// Between any two events no vehicle carries, or is planned to carry, more
/// than four boxes for each pallet of its declared capacity.
pub proof fn law_capacity(s: SimulatorView, v: Seq<char>)
    requires
        s.wf(),
        s.vehicle_states.contains_key(v),
    ensures
        demand_of(s.vehicle_states[v].item_stack) <= 4 * s.vehicles[v].pallets,
        demand_of(s.vehicle_states[v].allocated_item_stack) <= 4 * s.vehicles[v].pallets,
{
}

/// What leaves a vehicle at a dock leaves from the top of its stack: the
/// stack was what stays, with the unloaded items on top; it becomes what
/// stays, with the loaded items on top; and the items that count as put
/// down are the unloaded ones, the uppermost first.
pub proof fn law_lifo_physical(
    s: SimulatorView,
    v: Seq<char>,
    f: Seq<char>,
    work: VehicleWorkView,
    t: int,
)
    requires
        begin_loading(s, v, f, work, t).is_ok(),
    ensures
        ({
            let after = begin_loading(s, v, f, work, t).unwrap();
            let stays = s.vehicle_states[v].item_stack.subrange(
                0,
                s.vehicle_states[v].item_stack.len() - work.unload_items.len(),
            );
            &&& s.vehicle_states[v].item_stack == stays + work.unload_items
            &&& after.vehicle_states[v].item_stack == stays + work.load_items
            &&& after.events == enqueue::<SimEvent>(
                s.events,
                (
                    SimulatorEventDataView::FinishLoading {
                        vehicle_id: v,
                        factory_id: f,
                        delivered_items: work.unload_items.reverse(),
                    },
                    (t + work.load_time() + work.unload_time()) as i64,
                ),
            )
        }),
{
    let stack = s.vehicle_states[v].item_stack;
    let stays = stack.subrange(0, stack.len() - work.unload_items.len());
    assert(stack =~= stays + work.unload_items);
}

/// The validator refuses a stop that unloads an item which is not on top of
/// the planned stack.
pub proof fn law_lifo_planned(
    s: SimulatorView,
    dest: Seq<char>,
    unloads: Seq<OrderItemIdView>,
    sh: ShadowView,
)
    requires
        unloads.len() > 0,
        sh.stack.len() == 0 || sh.stack.last() != unloads.last(),
    ensures
        check_unloads(s, dest, unloads, sh) == Err::<ShadowView, PlanError>(
            PlanError::LifoViolation,
        ),
{
}

/// The planned stack of a vehicle when the first `j` of the stops `routes`
/// are behind it: what each stop unloads has left the top, and what it
/// loads has come on.
pub open spec fn stack_before(
    stack: Seq<OrderItemIdView>,
    routes: Seq<VehicleRouteView>,
    j: int,
) -> Seq<OrderItemIdView>
    decreases j,
{
    if j <= 0 || routes.len() == 0 {
        stack
    } else {
        stack_before(
            replace_top(stack, routes[0].work.unload_items, routes[0].work.load_items),
            routes.drop_first(),
            j - 1,
        )
    }
}

/// Of stops that fit a stack, each unloads from the top of the stack as the
/// stops before it leave it.
pub proof fn lemma_fit_at(
    s: SimulatorView,
    stack: Seq<OrderItemIdView>,
    capacity: int,
    routes: Seq<VehicleRouteView>,
    j: int,
)
    requires
        stops_fit(s, stack, capacity, routes),
        0 <= j < routes.len(),
    ensures
        ends_with(stack_before(stack, routes, j), routes[j].work.unload_items),
    decreases j,
{
    if j > 0 {
        lemma_fit_at(
            s,
            replace_top(stack, routes[0].work.unload_items, routes[0].work.load_items),
            capacity,
            routes.drop_first(),
            j - 1,
        );
        assert(routes.drop_first()[j - 1] == routes[j]);
    }
}

/// The validator refuses every plan in which some stop of some vehicle
/// unloads what is not on top of the planned stack of that vehicle, as the
/// stops before it leave it: in a plan that passes, every stop unloads from
/// the top.
pub proof fn law_lifo_plan(
    s: SimulatorView,
    vehicles: Seq<Seq<char>>,
    routes: Seq<Seq<VehicleRouteView>>,
    i: int,
    j: int,
)
    requires
        vehicles.len() == routes.len(),
        0 <= i < vehicles.len(),
        0 <= j < routes[i].len(),
    ensures
        check_plan(s, vehicles, routes, s.order_item_states).is_ok() ==> ends_with(
            stack_before(s.vehicle_states[vehicles[i]].allocated_item_stack, routes[i], j),
            routes[i][j].work.unload_items,
        ),
{
    if check_plan(s, vehicles, routes, s.order_item_states).is_ok() {
        lemma_checked_plan(s, vehicles, routes, s.order_item_states);
        assert(vehicle_checked(s, vehicles[i], routes[i]));
        lemma_fit_at(
            s,
            s.vehicle_states[vehicles[i]].allocated_item_stack,
            s.vehicles[vehicles[i]].capacity(),
            routes[i],
            j,
        );
    }
}

/// A stop passes the validator only if the items it unloads are the top of
/// the planned stack, the last of the list uppermost.
pub proof fn law_lifo_accepted(
    s: SimulatorView,
    capacity: int,
    route: VehicleRouteView,
    sh: ShadowView,
)
    requires
        check_route(s, capacity, route, sh).is_ok(),
    ensures
        ends_with(sh.stack, route.work.unload_items),
        check_route(s, capacity, route, sh).unwrap().stack == replace_top(
            sh.stack,
            route.work.unload_items,
            route.work.load_items,
        ),
{
    let sh0 = ShadowView { demand: sh.demand + route.work.delta_demand(), ..sh };
    let sh1 = check_unloads(s, route.destination, route.work.unload_items, sh0).unwrap();
    lemma_unloads_stack(s, route.destination, route.work.unload_items, sh0);
    lemma_loads_stack(s, route.destination, route.work.load_items, sh1);
    let n = sh.stack.len() - route.work.unload_items.len();
    assert(sh.stack.subrange(n, sh.stack.len() as int) =~= route.work.unload_items);
    assert(sh.stack.subrange(0, n) =~= sh1.stack);
}

/// A stop that passes the validator loads whole orders: the order of every
/// item that it takes on is of the instance, and where that order fits into
/// the vehicle, the stop takes on every item of it.
pub proof fn law_order_split(
    s: SimulatorView,
    capacity: int,
    route: VehicleRouteView,
    sh: ShadowView,
    i: int,
    other: OrderItemIdView,
)
    requires
        check_route(s, capacity, route, sh).is_ok(),
        0 <= i < route.work.load_items.len(),
        s.orders[route.work.load_items[i].order_id].demand() <= capacity,
        s.orders[route.work.load_items[i].order_id].has_item(other),
    ensures
        s.orders.contains_key(route.work.load_items[i].order_id),
        route.work.load_items.contains(other),
{
    lemma_no_split_fault(s, route.work.load_items, capacity, 0);
    assert(kept_whole(s, route.work.load_items, capacity, route.work.load_items[i].order_id));
}

/// The canonical form of a list of stops is canonical.
pub proof fn law_dedup_canonical(routes: Seq<VehicleRouteView>)
    ensures
        canonical(dedup_routes(routes)),
    decreases routes.len(),
{
    if routes.len() > 0 {
        law_dedup_canonical(routes.drop_last());
        let head = dedup_routes(routes.drop_last());
        let r = routes.last();
        let out = dedup_routes(routes);
        assert forall|i: int| 0 <= i < out.len() - 1 implies (#[trigger] out[i]).destination
            != out[i + 1].destination by {
            if head.len() > 0 && head.last().destination == r.destination {
                if i + 1 < out.len() - 1 {
                    assert(out[i] == head[i] && out[i + 1] == head[i + 1]);
                } else {
                    assert(out[i] == head[i]);
                    assert(out[i + 1].destination == head[i + 1].destination);
                }
            } else {
                if i + 1 < out.len() - 1 {
                    assert(out[i] == head[i] && out[i + 1] == head[i + 1]);
                } else {
                    assert(out[i] == head.last());
                }
            }
        }
    }
}

/// Bringing a canonical list of stops into canonical form changes nothing.
pub proof fn law_dedup_identity(routes: Seq<VehicleRouteView>)
    requires
        canonical(routes),
    ensures
        dedup_routes(routes) == routes,
    decreases routes.len(),
{
    if routes.len() == 0 {
        assert(dedup_routes(routes) =~= routes);
    } else {
        let init = routes.drop_last();
        assert(canonical(init)) by {
            assert forall|i: int| 0 <= i < init.len() - 1 implies (#[trigger] init[i]).destination
                != init[i + 1].destination by {
                assert(init[i] == routes[i] && init[i + 1] == routes[i + 1]);
            }
        }
        law_dedup_identity(init);
        if init.len() > 0 {
            assert(init.last() == routes[routes.len() - 2]);
            assert(routes[routes.len() - 2].destination != routes[routes.len() - 2
                + 1].destination);
        }
        assert(dedup_routes(routes) =~= routes);
    }
}

/// Bringing a list of stops into canonical form twice is the same as once.
pub proof fn law_dedup_idempotent(routes: Seq<VehicleRouteView>)
    ensures
        dedup_routes(dedup_routes(routes)) == dedup_routes(routes),
{
    law_dedup_canonical(routes);
    law_dedup_identity(dedup_routes(routes));
}

/// A stop that the validator passes for a vehicle as it stands is not
/// refused by the kernel for what it loads or unloads when the vehicle
/// leaves for it: the trip begins, unless the vehicle is elsewhere, no road
/// leads to the stop, or an instant or a distance leaves the range of
/// 64-bit integers.
pub proof fn law_valid_stop_departs(
    s: SimulatorView,
    v: Seq<char>,
    f: Seq<char>,
    route: VehicleRouteView,
    t: int,
)
    requires
        s.vehicle_states.contains_key(v),
        check_route(
            s,
            s.vehicles[v].capacity(),
            route,
            shadow_of(s, v, s.order_item_states),
        ).is_ok(),
    ensures
        match begin_transporting(s, v, f, route, t) {
            Ok(_) => true,
            Err(e) => e == SimError::WrongPosition || e == SimError::NoRoute || e
                == SimError::Overflow,
        },
{
    let capacity = s.vehicles[v].capacity();
    let sh = shadow_of(s, v, s.order_item_states);
    let sh0 = ShadowView { demand: sh.demand + route.work.delta_demand(), ..sh };
    let sh1 = check_unloads(s, route.destination, route.work.unload_items, sh0).unwrap();
    law_lifo_accepted(s, capacity, route, sh);
    lemma_route_demand(s, capacity, route, sh);
    lemma_unloads_states(s, route.destination, route.work.unload_items, sh0);
    lemma_loads_states(s, route.destination, route.work.load_items, sh1);
}

/// A vehicle that leaves at `t` arrives after the time that the road
/// takes, and at `t` itself where it stays at the same factory.
pub proof fn law_route_timing(
    s: SimulatorView,
    v: Seq<char>,
    f: Seq<char>,
    route: VehicleRouteView,
    t: int,
)
    requires
        begin_transporting(s, v, f, route, t).is_ok(),
    ensures
        begin_transporting(s, v, f, route, t).unwrap().events == enqueue::<SimEvent>(
            s.events,
            (
                SimulatorEventDataView::VehicleArrival {
                    vehicle_id: v,
                    factory_id: route.destination,
                    work: route.work,
                },
                (t + transit_time(s.routes, f, route.destination).unwrap()) as i64,
            ),
        ),
        f == route.destination ==> transit_time(s.routes, f, route.destination).unwrap() == 0,
        f != route.destination ==> s.routes.contains_key((f, route.destination)) && transit_time(
            s.routes,
            f,
            route.destination,
        ).unwrap() == s.routes[(f, route.destination)].time,
{
}

/// Every item that a service has put down is delivered at the end of the
/// service, less the approach time, less the unloading times that the
/// orders of the items of the service allow; its deadline is its order's.
pub proof fn law_delivery_attribution(
    s: SimulatorView,
    delivered: Seq<OrderItemIdView>,
    t: int,
    id: OrderItemIdView,
)
    requires
        record_delivery(s, delivered, t).is_ok(),
        delivered.contains(id),
    ensures
        record_delivery(s, delivered, t).unwrap().order_item_states[id]
            == (OrderItemState::Delivered {
            deadline: s.orders[id.order_id].deadline(s.initial_date) as i64,
            deliver_time: (t - s.dock_approaching_time - unload_allowance(
                s.order_items,
                delivered,
            )) as i64,
        }),
{
}

/// A copy taken with a deadline knows exactly the orders placed by the
/// deadline, and has the state of the simulator it was made from.
pub proof fn law_fork_orders(s: SimulatorView, deadline: i64, k: Seq<char>)
    ensures
        fork_view(s, Some(deadline)).orders.contains_key(k) <==> s.orders.contains_key(k)
            && s.initial_date + s.orders[k].creation_time <= deadline,
        fork_view(s, Some(deadline)).vehicle_states == s.vehicle_states,
        fork_view(s, Some(deadline)).factory_states == s.factory_states,
        fork_view(s, Some(deadline)).order_item_states == s.order_item_states,
        fork_view(s, Some(deadline)).events == s.events,
{
}

} // verus!
