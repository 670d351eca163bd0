//! Every vehicle that is not idle is engaged in exactly one thing: it is on
//! the road, it comes up to the docks, it waits for a dock, or it is served.
//! What it is engaged in agrees with where it is and with what it carries,
//! so that the events that the kernel has scheduled for it find it as they
//! need it.

use crate::model::order_item::OrderItemIdView;
use crate::simulation::accounting::lemma_slot_range;
use crate::simulation::event_queue::slot;
use crate::model::route_info::transit_time;
use crate::schedule::dedup_all;
use crate::simulation::accounting::{
    docks_accounted, lemma_services_drop_first, lemma_services_nonnegative,
};
use crate::simulation::dispatch::{
    dispatch, install_all, install_routes, taken, timestep, with_route,
};
use crate::simulation::laws::law_monotone_time;
use crate::simulation::rules::{
    all_delivered, all_tracked, begin_loading, begin_transporting, depart, ends_with, finish_load,
    intervals, order_arrival, record_delivery, release_dock, replace_top, vehicle_approached_dock,
    vehicle_arrival, SimError, SimulatorView,
};
use crate::simulation::sim_event::{
    SimEvent, SimEventView, SimulatorEventDataView, VehicleWorkView,
};
use crate::simulation::state::{
    FactoryStateView, VehiclePositionView, VehicleRouteView, VehicleStateView,
};
use vstd::prelude::*;

verus! {

/// The vehicle that an event is about, if it is about one.
pub open spec fn event_vehicle(e: SimEventView) -> Option<Seq<char>> {
    match e.0 {
        SimulatorEventDataView::VehicleArrival { vehicle_id, .. } => Some(vehicle_id),
        SimulatorEventDataView::VehicleApproachedDock { vehicle_id, .. } => Some(vehicle_id),
        SimulatorEventDataView::FinishLoading { vehicle_id, .. } => Some(vehicle_id),
        _ => None,
    }
}

/// The number of pending events that are about the vehicle `v`.
pub open spec fn pending_of(events: Seq<SimEventView>, v: Seq<char>) -> int
    decreases events.len(),
{
    if events.len() == 0 {
        0
    } else {
        pending_of(events.drop_last(), v) + if event_vehicle(events.last()) == Some(v) {
            1int
        } else {
            0int
        }
    }
}

/// The number of places that the vehicle `v` holds in a line.
pub open spec fn waiting_of(queue: Seq<(Seq<char>, VehicleWorkView)>, v: Seq<char>) -> int
    decreases queue.len(),
{
    if queue.len() == 0 {
        0
    } else {
        waiting_of(queue.drop_last(), v) + if queue.last().0 == v {
            1int
        } else {
            0int
        }
    }
}

/// The number of things that the vehicle `v` is engaged in: the pending
/// events about it, and its places in the line of the factory it is at.
pub open spec fn engagements(s: SimulatorView, v: Seq<char>) -> int {
    pending_of(s.events, v) + match s.vehicle_states[v].position {
        VehiclePositionView::DoingWork(f) => if s.factory_states.contains_key(f) {
            waiting_of(s.factory_states[f].queue, v)
        } else {
            0int
        },
        _ => 0int,
    }
}

/// The work `w` lies before the vehicle `v`: what it unloads is on top
/// of what the vehicle carries, the planned stack is what the work will
/// leave, and what it loads has a state.
pub open spec fn planned_ahead(s: SimulatorView, v: Seq<char>, w: VehicleWorkView) -> bool {
    &&& ends_with(s.vehicle_states[v].item_stack, w.unload_items)
    &&& s.vehicle_states[v].allocated_item_stack == replace_top(
        s.vehicle_states[v].item_stack,
        w.unload_items,
        w.load_items,
    )
    &&& all_tracked(s.order_item_states, w.load_items)
}

/// The state is as the pending event needs it.
pub open spec fn event_engaged(s: SimulatorView, e: SimEventView) -> bool {
    match e.0 {
        SimulatorEventDataView::VehicleArrival { vehicle_id, factory_id, work } => {
            &&& s.vehicle_states.contains_key(vehicle_id)
            &&& s.vehicle_states[vehicle_id].position matches VehiclePositionView::Transporting(
                _,
                to,
            ) && to == factory_id
            &&& planned_ahead(s, vehicle_id, work)
        },
        SimulatorEventDataView::VehicleApproachedDock { vehicle_id, factory_id, work } => {
            &&& s.vehicle_states.contains_key(vehicle_id)
            &&& s.vehicle_states[vehicle_id].position == VehiclePositionView::DoingWork(factory_id)
            &&& planned_ahead(s, vehicle_id, work)
        },
        SimulatorEventDataView::FinishLoading { vehicle_id, factory_id, delivered_items } => {
            &&& s.vehicle_states.contains_key(vehicle_id)
            &&& s.vehicle_states[vehicle_id].position == VehiclePositionView::DoingWork(factory_id)
            &&& s.factory_states.contains_key(factory_id)
            &&& s.vehicle_states[vehicle_id].item_stack
                == s.vehicle_states[vehicle_id].allocated_item_stack
        },
        _ => true,
    }
}

/// The state is as the place in the line of `f` needs it.
pub open spec fn place_engaged(s: SimulatorView, f: Seq<char>, place: (Seq<char>, VehicleWorkView)) -> bool {
    &&& s.vehicle_states.contains_key(place.0)
    &&& s.vehicle_states[place.0].position == VehiclePositionView::DoingWork(f)
    &&& planned_ahead(s, place.0, place.1)
}

/// The vehicle is engaged in at most one thing, and in nothing if it is
/// idle, when it carries what is planned.
pub open spec fn vehicle_engaged(s: SimulatorView, v: Seq<char>) -> bool {
    &&& engagements(s, v) <= 1
    &&& s.vehicle_states[v].position is Idle ==> engagements(s, v) == 0
        && s.vehicle_states[v].item_stack == s.vehicle_states[v].allocated_item_stack
}

/// Every pending event and every place in a line is as it needs the
/// state, and every vehicle is engaged as it should be, but for the
/// vehicles of `free`, which are engaged in nothing whatever they do.
pub open spec fn engaged_but(s: SimulatorView, free: Set<Seq<char>>) -> bool {
    &&& forall|i: int| 0 <= i < s.events.len() ==> event_engaged(s, #[trigger] s.events[i])
    &&& forall|f: Seq<char>, j: int|
        s.factory_states.contains_key(f) && 0 <= j < s.factory_states[f].queue.len()
            ==> place_engaged(s, f, #[trigger] s.factory_states[f].queue[j])
    &&& forall|v: Seq<char>| #[trigger]
        s.vehicle_states.contains_key(v) ==> if free.contains(v) {
            engagements(s, v) == 0
        } else {
            vehicle_engaged(s, v)
        }
}

/// Every pending event, every place in a line and every vehicle is as the others need it.
pub open spec fn engaged(s: SimulatorView) -> bool {
    engaged_but(s, Set::empty())
}

/// `b` is `a` but for the state of the vehicle `v`, for the pending
/// events, and for the states of items, of which none is lost.
pub open spec fn differs_at(a: SimulatorView, b: SimulatorView, v: Seq<char>) -> bool {
    &&& b.vehicle_states.dom() =~= a.vehicle_states.dom()
    &&& forall|u: Seq<char>| u != v ==> #[trigger] b.vehicle_states[u] == a.vehicle_states[u]
    &&& b.factory_states == a.factory_states
    &&& forall|k: OrderItemIdView| #[trigger]
        a.order_item_states.contains_key(k) ==> b.order_item_states.contains_key(k)
}

pub proof fn lemma_pending_bounds(events: Seq<SimEventView>, v: Seq<char>)
    ensures
        0 <= pending_of(events, v) <= events.len(),
    decreases events.len(),
{
    if events.len() > 0 {
        lemma_pending_bounds(events.drop_last(), v);
    }
}

pub proof fn lemma_pending_insert(events: Seq<SimEventView>, k: int, e: SimEventView, v: Seq<char>)
    requires
        0 <= k <= events.len(),
    ensures
        pending_of(events.insert(k, e), v) == pending_of(events, v) + if event_vehicle(e) == Some(
            v,
        ) {
            1int
        } else {
            0int
        },
    decreases events.len(),
{
    let after = events.insert(k, e);
    if k == events.len() {
        assert(after.drop_last() =~= events);
        assert(after.last() == e);
    } else {
        assert(after.drop_last() =~= events.drop_last().insert(k, e));
        assert(after.last() == events.last());
        lemma_pending_insert(events.drop_last(), k, e, v);
    }
}

pub proof fn lemma_pending_drop_first(events: Seq<SimEventView>, v: Seq<char>)
    requires
        events.len() > 0,
    ensures
        pending_of(events.drop_first(), v) == pending_of(events, v) - if event_vehicle(events[0])
            == Some(v) {
            1int
        } else {
            0int
        },
    decreases events.len(),
{
    if events.len() == 1 {
        assert(events.drop_first() =~= Seq::<SimEventView>::empty());
        assert(events.drop_last() =~= Seq::<SimEventView>::empty());
    } else {
        assert(events.drop_first().drop_last() =~= events.drop_last().drop_first());
        assert(events.drop_first().last() == events.last());
        assert(events.drop_last()[0] == events[0]);
        lemma_pending_drop_first(events.drop_last(), v);
    }
}

/// A vehicle about which nothing is pending is the vehicle of no pending event.
pub proof fn lemma_pending_none(events: Seq<SimEventView>, v: Seq<char>)
    requires
        pending_of(events, v) == 0,
    ensures
        forall|i: int| 0 <= i < events.len() ==> event_vehicle(#[trigger] events[i]) != Some(v),
    decreases events.len(),
{
    if events.len() > 0 {
        lemma_pending_bounds(events.drop_last(), v);
        lemma_pending_none(events.drop_last(), v);
        assert forall|i: int| 0 <= i < events.len() implies event_vehicle(#[trigger] events[i])
            != Some(v) by {
            if i < events.len() - 1 {
                assert(events[i] == events.drop_last()[i]);
            }
        }
    }
}

/// A vehicle about which an event is pending counts at least one.
pub proof fn lemma_pending_some(events: Seq<SimEventView>, v: Seq<char>, i: int)
    requires
        0 <= i < events.len(),
        event_vehicle(events[i]) == Some(v),
    ensures
        pending_of(events, v) >= 1,
    decreases events.len(),
{
    lemma_pending_bounds(events.drop_last(), v);
    if i < events.len() - 1 {
        assert(events[i] == events.drop_last()[i]);
        lemma_pending_some(events.drop_last(), v, i);
    }
}

pub proof fn lemma_waiting_bounds(queue: Seq<(Seq<char>, VehicleWorkView)>, v: Seq<char>)
    ensures
        0 <= waiting_of(queue, v) <= queue.len(),
    decreases queue.len(),
{
    if queue.len() > 0 {
        lemma_waiting_bounds(queue.drop_last(), v);
    }
}

pub proof fn lemma_waiting_push(
    queue: Seq<(Seq<char>, VehicleWorkView)>,
    place: (Seq<char>, VehicleWorkView),
    v: Seq<char>,
)
    ensures
        waiting_of(queue.push(place), v) == waiting_of(queue, v) + if place.0 == v {
            1int
        } else {
            0int
        },
{
    assert(queue.push(place).drop_last() =~= queue);
}

pub proof fn lemma_waiting_drop_first(queue: Seq<(Seq<char>, VehicleWorkView)>, v: Seq<char>)
    requires
        queue.len() > 0,
    ensures
        waiting_of(queue.drop_first(), v) == waiting_of(queue, v) - if queue[0].0 == v {
            1int
        } else {
            0int
        },
    decreases queue.len(),
{
    if queue.len() == 1 {
        assert(queue.drop_first() =~= Seq::<(Seq<char>, VehicleWorkView)>::empty());
        assert(queue.drop_last() =~= Seq::<(Seq<char>, VehicleWorkView)>::empty());
    } else {
        assert(queue.drop_first().drop_last() =~= queue.drop_last().drop_first());
        assert(queue.drop_first().last() == queue.last());
        assert(queue.drop_last()[0] == queue[0]);
        lemma_waiting_drop_first(queue.drop_last(), v);
    }
}

pub proof fn lemma_waiting_none(queue: Seq<(Seq<char>, VehicleWorkView)>, v: Seq<char>)
    requires
        waiting_of(queue, v) == 0,
    ensures
        forall|j: int| 0 <= j < queue.len() ==> (#[trigger] queue[j]).0 != v,
    decreases queue.len(),
{
    if queue.len() > 0 {
        lemma_waiting_bounds(queue.drop_last(), v);
        lemma_waiting_none(queue.drop_last(), v);
        assert forall|j: int| 0 <= j < queue.len() implies (#[trigger] queue[j]).0 != v by {
            if j < queue.len() - 1 {
                assert(queue[j] == queue.drop_last()[j]);
            }
        }
    }
}

pub proof fn lemma_waiting_some(queue: Seq<(Seq<char>, VehicleWorkView)>, v: Seq<char>, j: int)
    requires
        0 <= j < queue.len(),
        queue[j].0 == v,
    ensures
        waiting_of(queue, v) >= 1,
    decreases queue.len(),
{
    lemma_waiting_bounds(queue.drop_last(), v);
    if j < queue.len() - 1 {
        assert(queue[j] == queue.drop_last()[j]);
        lemma_waiting_some(queue.drop_last(), v, j);
    }
}

/// A vehicle that stands in no line holds no place in it.
pub proof fn lemma_waiting_zero(queue: Seq<(Seq<char>, VehicleWorkView)>, v: Seq<char>)
    requires
        forall|j: int| 0 <= j < queue.len() ==> (#[trigger] queue[j]).0 != v,
    ensures
        waiting_of(queue, v) == 0,
    decreases queue.len(),
{
    if queue.len() > 0 {
        assert forall|j: int| 0 <= j < queue.drop_last().len() implies (
        #[trigger] queue.drop_last()[j]).0 != v by {
            assert(queue.drop_last()[j] == queue[j]);
        }
        lemma_waiting_zero(queue.drop_last(), v);
        assert(queue.last() == queue[queue.len() - 1]);
    }
}

/// A vehicle that is engaged in nothing is the vehicle of no pending event
/// and stands in no line.
pub proof fn lemma_free_vehicle(s: SimulatorView, free: Set<Seq<char>>, v: Seq<char>)
    requires
        engaged_but(s, free),
        free.contains(v),
        s.vehicle_states.contains_key(v),
    ensures
        forall|i: int| 0 <= i < s.events.len() ==> event_vehicle(#[trigger] s.events[i]) != Some(v),
        forall|f: Seq<char>, j: int|
            s.factory_states.contains_key(f) && 0 <= j < s.factory_states[f].queue.len() ==> (
            #[trigger] s.factory_states[f].queue[j]).0 != v,
        forall|f: Seq<char>| #[trigger]
            s.factory_states.contains_key(f) ==> waiting_of(s.factory_states[f].queue, v) == 0,
{
    lemma_pending_bounds(s.events, v);
    match s.vehicle_states[v].position {
        VehiclePositionView::DoingWork(f) => {
            if s.factory_states.contains_key(f) {
                lemma_waiting_bounds(s.factory_states[f].queue, v);
            }
        },
        _ => {},
    }
    lemma_pending_none(s.events, v);
    assert forall|f: Seq<char>, j: int|
        s.factory_states.contains_key(f) && 0 <= j < s.factory_states[f].queue.len() implies (
    #[trigger] s.factory_states[f].queue[j]).0 != v by {
        if s.factory_states[f].queue[j].0 == v {
            assert(place_engaged(s, f, s.factory_states[f].queue[j]));
            lemma_waiting_some(s.factory_states[f].queue, v, j);
        }
    }
    assert forall|f: Seq<char>| #[trigger] s.factory_states.contains_key(f) implies waiting_of(
        s.factory_states[f].queue,
        v,
    ) == 0 by {
        lemma_waiting_zero(s.factory_states[f].queue, v);
    }
}

/// What a vehicle that is engaged in nothing does changes nothing for the others.
pub proof fn lemma_change_vehicle(
    a: SimulatorView,
    b: SimulatorView,
    free: Set<Seq<char>>,
    v: Seq<char>,
)
    requires
        engaged_but(a, free),
        free.contains(v),
        a.vehicle_states.contains_key(v),
        differs_at(a, b, v),
        b.events == a.events,
    ensures
        engaged_but(b, free),
{
    lemma_free_vehicle(a, free, v);
    assert forall|i: int| 0 <= i < b.events.len() implies event_engaged(
        b,
        #[trigger] b.events[i],
    ) by {
        assert(event_engaged(a, a.events[i]));
        assert(event_vehicle(a.events[i]) != Some(v));
    }
    assert forall|f: Seq<char>, j: int|
        b.factory_states.contains_key(f) && 0 <= j < b.factory_states[f].queue.len() implies place_engaged(
        b,
        f,
        #[trigger] b.factory_states[f].queue[j],
    ) by {
        assert(place_engaged(a, f, a.factory_states[f].queue[j]));
        assert(a.factory_states[f].queue[j].0 != v);
    }
    assert forall|u: Seq<char>| #[trigger] b.vehicle_states.contains_key(u) implies if free.contains(
        u,
    ) {
        engagements(b, u) == 0
    } else {
        vehicle_engaged(b, u)
    } by {
        assert(a.vehicle_states.contains_key(u));
        if u == v {
            match b.vehicle_states[v].position {
                VehiclePositionView::DoingWork(f) => {
                    if b.factory_states.contains_key(f) {
                        assert(waiting_of(a.factory_states[f].queue, v) == 0);
                    }
                },
                _ => {},
            }
        }
    }
}

/// A new event that finds the state as it needs it engages its vehicle,
/// which was engaged in nothing, and changes nothing for the others.
pub proof fn lemma_push_engaged(
    s: SimulatorView,
    data: SimulatorEventDataView,
    time: int,
    free: Set<Seq<char>>,
)
    requires
        engaged_but(s, free),
        event_engaged(s, (data, time as i64)),
        match event_vehicle((data, time as i64)) {
            Some(v) => free.contains(v) && !(s.vehicle_states[v].position is Idle),
            None => true,
        },
    ensures
        engaged_but(
            s.push(data, time),
            match event_vehicle((data, time as i64)) {
                Some(v) => free.remove(v),
                None => free,
            },
        ),
{
    let e: SimEventView = (data, time as i64);
    let next = s.push(data, time);
    let k = slot::<SimEvent>(
        s.events,
        e.1 as int,
    );
    lemma_slot_range(s.events, e.1 as int);
    let rest = match event_vehicle(e) {
        Some(v) => free.remove(v),
        None => free,
    };
    assert forall|i: int| 0 <= i < next.events.len() implies event_engaged(
        next,
        #[trigger] next.events[i],
    ) by {
        if i < k {
            assert(next.events[i] == s.events[i]);
        } else if i > k {
            assert(next.events[i] == s.events[i - 1]);
        }
    }
    assert forall|u: Seq<char>| #[trigger] next.vehicle_states.contains_key(u) implies if rest.contains(
        u,
    ) {
        engagements(next, u) == 0
    } else {
        vehicle_engaged(next, u)
    } by {
        lemma_pending_insert(s.events, k, e, u);
        if event_vehicle(e) == Some(u) {
            lemma_free_vehicle(s, free, u);
        }
    }
}

/// A vehicle that no pending event is about counts none.
pub proof fn lemma_pending_zero(events: Seq<SimEventView>, v: Seq<char>)
    requires
        forall|i: int| 0 <= i < events.len() ==> event_vehicle(#[trigger] events[i]) != Some(v),
    ensures
        pending_of(events, v) == 0,
    decreases events.len(),
{
    if events.len() > 0 {
        assert forall|i: int| 0 <= i < events.drop_last().len() implies event_vehicle(
            #[trigger] events.drop_last()[i],
        ) != Some(v) by {
            assert(events.drop_last()[i] == events[i]);
        }
        lemma_pending_zero(events.drop_last(), v);
        assert(events.last() == events[events.len() - 1]);
    }
}

/// Engagement is a matter of the pending events, the lines, the vehicles
/// and the items that have a state, and of nothing else.
pub proof fn lemma_same_parts(a: SimulatorView, b: SimulatorView, free: Set<Seq<char>>)
    requires
        engaged_but(a, free),
        b.events == a.events,
        b.factory_states == a.factory_states,
        b.vehicle_states == a.vehicle_states,
        b.order_item_states.dom() =~= a.order_item_states.dom(),
    ensures
        engaged_but(b, free),
{
    assert forall|i: int| 0 <= i < b.events.len() implies event_engaged(
        b,
        #[trigger] b.events[i],
    ) by {
        assert(event_engaged(a, a.events[i]));
    }
    assert forall|f: Seq<char>, j: int|
        b.factory_states.contains_key(f) && 0 <= j < b.factory_states[f].queue.len() implies place_engaged(
        b,
        f,
        #[trigger] b.factory_states[f].queue[j],
    ) by {
        assert(place_engaged(a, f, a.factory_states[f].queue[j]));
    }
    assert forall|u: Seq<char>| #[trigger] b.vehicle_states.contains_key(u) implies if free.contains(
        u,
    ) {
        engagements(b, u) == 0
    } else {
        vehicle_engaged(b, u)
    } by {
        assert(a.vehicle_states.contains_key(u));
    }
}

/// New states of items change nothing of what vehicles are engaged in.
pub proof fn lemma_states_grow(a: SimulatorView, b: SimulatorView, free: Set<Seq<char>>)
    requires
        engaged_but(a, free),
        b.events == a.events,
        b.factory_states == a.factory_states,
        b.vehicle_states == a.vehicle_states,
        forall|k: OrderItemIdView| #[trigger]
            a.order_item_states.contains_key(k) ==> b.order_item_states.contains_key(k),
    ensures
        engaged_but(b, free),
{
    assert forall|i: int| 0 <= i < b.events.len() implies event_engaged(
        b,
        #[trigger] b.events[i],
    ) by {
        assert(event_engaged(a, a.events[i]));
    }
    assert forall|f: Seq<char>, j: int|
        b.factory_states.contains_key(f) && 0 <= j < b.factory_states[f].queue.len() implies place_engaged(
        b,
        f,
        #[trigger] b.factory_states[f].queue[j],
    ) by {
        assert(place_engaged(a, f, a.factory_states[f].queue[j]));
    }
    assert forall|u: Seq<char>| #[trigger] b.vehicle_states.contains_key(u) implies if free.contains(
        u,
    ) {
        engagements(b, u) == 0
    } else {
        vehicle_engaged(b, u)
    } by {
        assert(a.vehicle_states.contains_key(u));
    }
}

/// New stops for a vehicle change nothing of what vehicles are engaged in.
pub proof fn lemma_reroute(
    a: SimulatorView,
    v: Seq<char>,
    routes: Seq<VehicleRouteView>,
    free: Set<Seq<char>>,
)
    requires
        engaged_but(a, free),
        a.vehicle_states.contains_key(v),
    ensures
        engaged_but(with_route(a, v, routes), free),
{
    let b = with_route(a, v, routes);
    assert(b.vehicle_states.dom() =~= a.vehicle_states.dom());
    assert forall|i: int| 0 <= i < b.events.len() implies event_engaged(
        b,
        #[trigger] b.events[i],
    ) by {
        assert(event_engaged(a, a.events[i]));
    }
    assert forall|f: Seq<char>, j: int|
        b.factory_states.contains_key(f) && 0 <= j < b.factory_states[f].queue.len() implies place_engaged(
        b,
        f,
        #[trigger] b.factory_states[f].queue[j],
    ) by {
        assert(place_engaged(a, f, a.factory_states[f].queue[j]));
    }
    assert forall|u: Seq<char>| #[trigger] b.vehicle_states.contains_key(u) implies if free.contains(
        u,
    ) {
        engagements(b, u) == 0
    } else {
        vehicle_engaged(b, u)
    } by {
        assert(a.vehicle_states.contains_key(u));
    }
}

/// The number of free docks changes nothing of what vehicles are engaged in.
pub proof fn lemma_docks_change(
    a: SimulatorView,
    f: Seq<char>,
    docks: int,
    free: Set<Seq<char>>,
)
    requires
        engaged_but(a, free),
        a.factory_states.contains_key(f),
    ensures
        engaged_but(
            SimulatorView {
                factory_states: a.factory_states.insert(
                    f,
                    FactoryStateView { num_avail_docks: docks, ..a.factory_states[f] },
                ),
                ..a
            },
            free,
        ),
{
    let b = SimulatorView {
        factory_states: a.factory_states.insert(
            f,
            FactoryStateView { num_avail_docks: docks, ..a.factory_states[f] },
        ),
        ..a
    };
    assert forall|i: int| 0 <= i < b.events.len() implies event_engaged(
        b,
        #[trigger] b.events[i],
    ) by {
        assert(event_engaged(a, a.events[i]));
    }
    assert forall|g: Seq<char>, j: int|
        b.factory_states.contains_key(g) && 0 <= j < b.factory_states[g].queue.len() implies place_engaged(
        b,
        g,
        #[trigger] b.factory_states[g].queue[j],
    ) by {
        assert(place_engaged(a, g, a.factory_states[g].queue[j]));
    }
    assert forall|u: Seq<char>| #[trigger] b.vehicle_states.contains_key(u) implies if free.contains(
        u,
    ) {
        engagements(b, u) == 0
    } else {
        vehicle_engaged(b, u)
    } by {
        assert(a.vehicle_states.contains_key(u));
    }
}

/// A vehicle that is engaged as it should be need not be excepted.
pub proof fn lemma_settle(s: SimulatorView, free: Set<Seq<char>>, v: Seq<char>)
    requires
        engaged_but(s, free),
        s.vehicle_states.contains_key(v) ==> vehicle_engaged(s, v),
    ensures
        engaged_but(s, free.remove(v)),
{
}

/// A vehicle that is engaged in nothing may be excepted.
pub proof fn lemma_except(s: SimulatorView, free: Set<Seq<char>>, v: Seq<char>)
    requires
        engaged_but(s, free),
        s.vehicle_states.contains_key(v) ==> engagements(s, v) == 0,
    ensures
        engaged_but(s, free.insert(v)),
{
}

/// Taking the next event leaves its vehicle engaged in nothing, and the
/// state as the event needs it.
pub proof fn lemma_take_engaged(s: SimulatorView)
    requires
        engaged(s),
        s.events.len() > 0,
    ensures
        engaged_but(
            taken(s),
            match event_vehicle(s.events[0]) {
                Some(v) => set![v],
                None => Set::empty(),
            },
        ),
        event_engaged(taken(s), s.events[0]),
{
    let e = s.events[0];
    let next = taken(s);
    let free: Set<Seq<char>> = match event_vehicle(e) {
        Some(v) => set![v],
        None => Set::empty(),
    };
    assert(event_engaged(s, s.events[0]));
    assert forall|i: int| 0 <= i < next.events.len() implies event_engaged(
        next,
        #[trigger] next.events[i],
    ) by {
        assert(next.events[i] == s.events[i + 1]);
        assert(event_engaged(s, s.events[i + 1]));
    }
    assert forall|f: Seq<char>, j: int|
        next.factory_states.contains_key(f) && 0 <= j < next.factory_states[f].queue.len() implies place_engaged(
        next,
        f,
        #[trigger] next.factory_states[f].queue[j],
    ) by {
        assert(place_engaged(s, f, s.factory_states[f].queue[j]));
    }
    assert forall|u: Seq<char>| #[trigger] next.vehicle_states.contains_key(u) implies if free.contains(
        u,
    ) {
        engagements(next, u) == 0
    } else {
        vehicle_engaged(next, u)
    } by {
        assert(s.vehicle_states.contains_key(u));
        assert(vehicle_engaged(s, u));
        lemma_pending_drop_first(s.events, u);
        if event_vehicle(e) == Some(u) {
            lemma_pending_some(s.events, u, 0);
            match s.vehicle_states[u].position {
                VehiclePositionView::DoingWork(f) => {
                    if s.factory_states.contains_key(f) {
                        lemma_waiting_bounds(s.factory_states[f].queue, u);
                    }
                },
                _ => {},
            }
        }
    }
}

/// A vehicle that arrives comes up to the docks, engaged in that alone.
pub proof fn lemma_arrival_engaged(
    s: SimulatorView,
    v: Seq<char>,
    f: Seq<char>,
    work: VehicleWorkView,
    t: int,
    free: Set<Seq<char>>,
)
    requires
        engaged_but(s, free),
        free.contains(v),
        event_engaged(s, (SimulatorEventDataView::VehicleArrival { vehicle_id: v, factory_id: f, work }, 0i64)),
        vehicle_arrival(s, v, f, work, t).is_ok(),
    ensures
        engaged_but(vehicle_arrival(s, v, f, work, t).unwrap(), free.remove(v)),
{
    let next = vehicle_arrival(s, v, f, work, t).unwrap();
    let mid = SimulatorView { events: s.events, ..next };
    assert(differs_at(s, mid, v));
    lemma_change_vehicle(s, mid, free, v);
    lemma_push_engaged(
        mid,
        SimulatorEventDataView::VehicleApproachedDock { vehicle_id: v, factory_id: f, work },
        t + s.dock_approaching_time,
        free,
    );
}

/// The service of a vehicle whom the work lies before begins without a
/// fault, unless its end is later than 64 bits hold.
pub proof fn lemma_service_begins(
    s: SimulatorView,
    v: Seq<char>,
    f: Seq<char>,
    work: VehicleWorkView,
    t: int,
)
    requires
        s.within_capacity(),
        s.vehicle_states.contains_key(v),
        s.vehicle_states[v].position == VehiclePositionView::DoingWork(f),
        planned_ahead(s, v, work),
    ensures
        match begin_loading(s, v, f, work, t) {
            Ok(_) => true,
            Err(e) => e == SimError::Overflow,
        },
{
}

/// A vehicle whose service begins is engaged in that service alone, and
/// carries what was planned.
pub proof fn lemma_loading_engaged(
    s: SimulatorView,
    v: Seq<char>,
    f: Seq<char>,
    work: VehicleWorkView,
    t: int,
    free: Set<Seq<char>>,
)
    requires
        engaged_but(s, free),
        free.contains(v),
        s.factory_states.contains_key(f),
        planned_ahead(s, v, work),
        begin_loading(s, v, f, work, t).is_ok(),
    ensures
        engaged_but(begin_loading(s, v, f, work, t).unwrap(), free.remove(v)),
{
    let next = begin_loading(s, v, f, work, t).unwrap();
    let mid = SimulatorView { events: s.events, ..next };
    assert(differs_at(s, mid, v));
    lemma_change_vehicle(s, mid, free, v);
    lemma_push_engaged(
        mid,
        SimulatorEventDataView::FinishLoading {
            vehicle_id: v,
            factory_id: f,
            delivered_items: work.unload_items.reverse(),
        },
        t + work.load_time() + work.unload_time(),
        free,
    );
}

/// A vehicle that takes a place in a line is engaged in waiting alone.
pub proof fn lemma_queue_engaged(
    s: SimulatorView,
    v: Seq<char>,
    f: Seq<char>,
    work: VehicleWorkView,
    free: Set<Seq<char>>,
)
    requires
        engaged_but(s, free),
        free.contains(v),
        s.vehicle_states.contains_key(v),
        s.factory_states.contains_key(f),
        s.vehicle_states[v].position == VehiclePositionView::DoingWork(f),
        planned_ahead(s, v, work),
    ensures
        engaged_but(
            SimulatorView {
                factory_states: s.factory_states.insert(
                    f,
                    FactoryStateView {
                        queue: s.factory_states[f].queue.push((v, work)),
                        ..s.factory_states[f]
                    },
                ),
                ..s
            },
            free.remove(v),
        ),
{
    let next = SimulatorView {
        factory_states: s.factory_states.insert(
            f,
            FactoryStateView {
                queue: s.factory_states[f].queue.push((v, work)),
                ..s.factory_states[f]
            },
        ),
        ..s
    };
    let rest = free.remove(v);
    lemma_free_vehicle(s, free, v);
    assert forall|i: int| 0 <= i < next.events.len() implies event_engaged(
        next,
        #[trigger] next.events[i],
    ) by {
        assert(event_engaged(s, s.events[i]));
    }
    assert forall|g: Seq<char>, j: int|
        next.factory_states.contains_key(g) && 0 <= j < next.factory_states[g].queue.len() implies place_engaged(
        next,
        g,
        #[trigger] next.factory_states[g].queue[j],
    ) by {
        if g == f {
            if j < s.factory_states[f].queue.len() {
                assert(next.factory_states[g].queue[j] == s.factory_states[f].queue[j]);
                assert(place_engaged(s, f, s.factory_states[f].queue[j]));
            }
        } else {
            assert(place_engaged(s, g, s.factory_states[g].queue[j]));
        }
    }
    assert forall|u: Seq<char>| #[trigger] next.vehicle_states.contains_key(u) implies if rest.contains(
        u,
    ) {
        engagements(next, u) == 0
    } else {
        vehicle_engaged(next, u)
    } by {
        lemma_waiting_push(s.factory_states[f].queue, (v, work), u);
    }
}

/// A request for a dock fails only where the factory is unknown or the end
/// of the service is later than 64 bits hold; otherwise the vehicle is
/// served or waits, engaged in that alone.
pub proof fn lemma_approach_engaged(
    s: SimulatorView,
    v: Seq<char>,
    f: Seq<char>,
    work: VehicleWorkView,
    t: int,
    free: Set<Seq<char>>,
)
    requires
        s.wf(),
        engaged_but(s, free),
        free.contains(v),
        event_engaged(
            s,
            (SimulatorEventDataView::VehicleApproachedDock { vehicle_id: v, factory_id: f, work }, 0i64),
        ),
    ensures
        match vehicle_approached_dock(s, v, f, work, t) {
            Ok(next) => engaged_but(next, free.remove(v)),
            Err(e) => e == SimError::UnknownFactory || e == SimError::Overflow,
        },
{
    if s.factory_states.contains_key(f) {
        if s.factory_states[f].num_avail_docks == 0 {
            lemma_queue_engaged(s, v, f, work, free);
        } else {
            lemma_service_begins(s, v, f, work, t);
            if begin_loading(s, v, f, work, t).is_ok() {
                let s1 = begin_loading(s, v, f, work, t).unwrap();
                lemma_loading_engaged(s, v, f, work, t, free);
                lemma_docks_change(
                    s1,
                    f,
                    s1.factory_states[f].num_avail_docks - 1,
                    free.remove(v),
                );
            }
        }
    }
}

/// The first vehicle in a line leaves the line engaged in nothing; the
/// others keep their places.
pub proof fn lemma_dequeue_engaged(s: SimulatorView, f: Seq<char>, free: Set<Seq<char>>)
    requires
        engaged_but(s, free),
        s.factory_states.contains_key(f),
        s.factory_states[f].queue.len() > 0,
    ensures
        !free.contains(s.factory_states[f].queue[0].0),
        place_engaged(s, f, s.factory_states[f].queue[0]),
        engaged_but(
            SimulatorView {
                factory_states: s.factory_states.insert(
                    f,
                    FactoryStateView {
                        queue: s.factory_states[f].queue.drop_first(),
                        ..s.factory_states[f]
                    },
                ),
                ..s
            },
            free.insert(s.factory_states[f].queue[0].0),
        ),
        planned_ahead(
            SimulatorView {
                factory_states: s.factory_states.insert(
                    f,
                    FactoryStateView {
                        queue: s.factory_states[f].queue.drop_first(),
                        ..s.factory_states[f]
                    },
                ),
                ..s
            },
            s.factory_states[f].queue[0].0,
            s.factory_states[f].queue[0].1,
        ),
{
    let queue = s.factory_states[f].queue;
    let head = queue[0];
    let v = head.0;
    let next = SimulatorView {
        factory_states: s.factory_states.insert(
            f,
            FactoryStateView { queue: queue.drop_first(), ..s.factory_states[f] },
        ),
        ..s
    };
    let more = free.insert(v);
    assert(place_engaged(s, f, queue[0]));
    lemma_waiting_some(queue, v, 0);
    lemma_pending_bounds(s.events, v);
    assert(s.vehicle_states.contains_key(v));
    assert forall|i: int| 0 <= i < next.events.len() implies event_engaged(
        next,
        #[trigger] next.events[i],
    ) by {
        assert(event_engaged(s, s.events[i]));
    }
    assert forall|g: Seq<char>, j: int|
        next.factory_states.contains_key(g) && 0 <= j < next.factory_states[g].queue.len() implies place_engaged(
        next,
        g,
        #[trigger] next.factory_states[g].queue[j],
    ) by {
        if g == f {
            assert(next.factory_states[g].queue[j] == queue[j + 1]);
            assert(place_engaged(s, f, queue[j + 1]));
        } else {
            assert(place_engaged(s, g, s.factory_states[g].queue[j]));
        }
    }
    assert forall|u: Seq<char>| #[trigger] next.vehicle_states.contains_key(u) implies if more.contains(
        u,
    ) {
        engagements(next, u) == 0
    } else {
        vehicle_engaged(next, u)
    } by {
        lemma_waiting_drop_first(queue, u);
    }
}

/// A dock is released without a fault, unless the service that begins at
/// it ends later than 64 bits hold; what the vehicles are engaged in stays
/// in order.
pub proof fn lemma_release_engaged(s: SimulatorView, f: Seq<char>, t: int, free: Set<Seq<char>>)
    requires
        s.wf(),
        engaged_but(s, free),
        s.factory_states.contains_key(f),
        s.factory_states[f].num_avail_docks < s.factories[f].port_num,
    ensures
        match release_dock(s, f, t) {
            Ok(next) => engaged_but(next, free) && next.vehicle_states.dom()
                =~= s.vehicle_states.dom() && forall|u: Seq<char>|
                free.contains(u) ==> #[trigger] next.vehicle_states[u] == s.vehicle_states[u],
            Err(e) => e == SimError::Overflow,
        },
{
    let queue = s.factory_states[f].queue;
    if queue.len() > 0 {
        let v = queue[0].0;
        let w = queue[0].1;
        let waiting = SimulatorView {
            factory_states: s.factory_states.insert(
                f,
                FactoryStateView { queue: queue.drop_first(), ..s.factory_states[f] },
            ),
            ..s
        };
        lemma_dequeue_engaged(s, f, free);
        assert(waiting.within_capacity());
        lemma_service_begins(waiting, v, f, w, t);
        if begin_loading(waiting, v, f, w, t).is_ok() {
            lemma_loading_engaged(waiting, v, f, w, t, free.insert(v));
            assert(free.insert(v).remove(v) =~= free);
        }
    } else {
        lemma_docks_change(s, f, s.factory_states[f].num_avail_docks + 1, free);
    }
}

/// A vehicle that leaves for a stop is engaged in the trip alone.
pub proof fn lemma_transporting_engaged(
    s: SimulatorView,
    v: Seq<char>,
    f: Seq<char>,
    route: VehicleRouteView,
    t: int,
    free: Set<Seq<char>>,
)
    requires
        engaged_but(s, free),
        free.contains(v),
        s.vehicle_states[v].item_stack == s.vehicle_states[v].allocated_item_stack,
        begin_transporting(s, v, f, route, t).is_ok(),
    ensures
        engaged_but(begin_transporting(s, v, f, route, t).unwrap(), free.remove(v)),
{
    let next = begin_transporting(s, v, f, route, t).unwrap();
    let mid = SimulatorView { events: s.events, ..next };
    assert(differs_at(s, mid, v));
    lemma_change_vehicle(s, mid, free, v);
    lemma_push_engaged(
        mid,
        SimulatorEventDataView::VehicleArrival {
            vehicle_id: v,
            factory_id: route.destination,
            work: route.work,
        },
        t + transit_time(s.routes, f, route.destination).unwrap(),
        free,
    );
}

/// A vehicle whose service has ended and that carries what was planned
/// goes on in order: idle, or engaged in its next trip alone.
pub proof fn lemma_depart_engaged(
    s: SimulatorView,
    v: Seq<char>,
    f: Seq<char>,
    t: int,
    free: Set<Seq<char>>,
)
    requires
        engaged_but(s, free),
        free.contains(v),
        s.vehicle_states.contains_key(v),
        s.vehicle_states[v].position == VehiclePositionView::DoingWork(f),
        s.vehicle_states[v].item_stack == s.vehicle_states[v].allocated_item_stack,
        depart(s, v, f, t).is_ok(),
    ensures
        engaged_but(depart(s, v, f, t).unwrap(), free.remove(v)),
{
    if s.vehicle_states[v].current_route.len() == 0 {
        let next = depart(s, v, f, t).unwrap();
        assert(differs_at(s, next, v));
        lemma_change_vehicle(s, next, free, v);
        lemma_settle(next, free, v);
    } else {
        let idle = SimulatorView {
            vehicle_states: s.vehicle_states.insert(
                v,
                VehicleStateView {
                    position: VehiclePositionView::Idle(f),
                    current_route: s.vehicle_states[v].current_route.drop_first(),
                    ..s.vehicle_states[v]
                },
            ),
            ..s
        };
        assert(differs_at(s, idle, v));
        lemma_change_vehicle(s, idle, free, v);
        lemma_transporting_engaged(idle, v, f, s.vehicle_states[v].current_route[0], t, free);
    }
}

/// The end of a service finds the vehicle and the factory as it needs
/// them: it fails only for what is delivered, for the next stop of the
/// vehicle, or for an instant or a distance beyond 64 bits.
pub proof fn lemma_finish_engaged(
    s: SimulatorView,
    v: Seq<char>,
    f: Seq<char>,
    delivered: Seq<OrderItemIdView>,
    t: int,
    free: Set<Seq<char>>,
)
    requires
        s.wf(),
        engaged_but(s, free),
        free.contains(v),
        event_engaged(
            s,
            (
                SimulatorEventDataView::FinishLoading {
                    vehicle_id: v,
                    factory_id: f,
                    delivered_items: delivered,
                },
                0i64,
            ),
        ),
        s.factory_states[f].num_avail_docks < s.factories[f].port_num,
    ensures
        match finish_load(s, v, f, delivered, t) {
            Ok(next) => engaged_but(next, free.remove(v)),
            Err(e) => e != SimError::UnknownVehicle && e != SimError::UnknownFactory && e
                != SimError::WrongPosition && e != SimError::NoBusyDock && e
                != SimError::ItemNotUnavailable,
        },
{
    lemma_release_engaged(s, f, t, free);
    if release_dock(s, f, t).is_ok() {
        let s1 = release_dock(s, f, t).unwrap();
        assert(s1.vehicle_states[v] == s.vehicle_states[v]);
        if record_delivery(s1, delivered, t).is_ok() {
            let s2 = record_delivery(s1, delivered, t).unwrap();
            lemma_states_grow(s1, s2, free);
            if depart(s2, v, f, t).is_ok() {
                lemma_depart_engaged(s2, v, f, t, free);
            }
        }
    }
}

/// Giving a vehicle its stops keeps what the vehicles are engaged in in order.
pub proof fn lemma_install_engaged(
    s: SimulatorView,
    v: Seq<char>,
    routes: Seq<VehicleRouteView>,
    t: int,
)
    requires
        engaged(s),
        install_routes(s, v, routes, t).is_ok(),
    ensures
        engaged(install_routes(s, v, routes, t).unwrap()),
{
    let none: Set<Seq<char>> = Set::empty();
    match s.vehicle_states[v].position {
        VehiclePositionView::Idle(start) => {
            if routes.len() > 0 {
                let mid = with_route(s, v, routes.drop_first());
                lemma_reroute(s, v, routes.drop_first(), none);
                assert(vehicle_engaged(s, v));
                lemma_except(mid, none, v);
                lemma_transporting_engaged(mid, v, start, routes[0], t, none.insert(v));
                assert(none.insert(v).remove(v) =~= none);
            } else {
                lemma_reroute(s, v, routes, none);
            }
        },
        _ => {
            lemma_reroute(s, v, routes, none);
        },
    }
}

pub proof fn lemma_install_all_engaged(
    s: SimulatorView,
    vehicles: Seq<Seq<char>>,
    routes: Seq<Seq<VehicleRouteView>>,
    t: int,
)
    requires
        engaged(s),
        install_all(s, vehicles, routes, t).is_ok(),
    ensures
        engaged(install_all(s, vehicles, routes, t).unwrap()),
    decreases vehicles.len(),
{
    if !(vehicles.len() == 0 || routes.len() == 0) {
        let s1 = install_routes(s, vehicles[0], routes[0], t).unwrap();
        lemma_install_engaged(s, vehicles[0], routes[0], t);
        lemma_install_all_engaged(s1, vehicles.drop_first(), routes.drop_first(), t);
    }
}

/// Over a call of the scheduler the engagements stay in order, whatever the plan.
pub proof fn law_engaged_over_timestep(
    s: SimulatorView,
    vehicles: Seq<Seq<char>>,
    routes: Seq<Seq<VehicleRouteView>>,
    cost: int,
)
    requires
        engaged(s),
        s.events.len() > 0,
        s.events[0].0 is UpdateTimestep,
        timestep(taken(s), vehicles, routes, s.events[0].1 as int, cost).is_ok(),
    ensures
        engaged(timestep(taken(s), vehicles, routes, s.events[0].1 as int, cost).unwrap()),
{
    let t = s.events[0].1 as int;
    let s1 = taken(s);
    lemma_take_engaged(s);
    let none: Set<Seq<char>> = Set::empty();
    let s0 = SimulatorView { total_distance_last_timeslot: s1.total_distance, ..s1 };
    lemma_same_parts(s1, s0, none);
    let s2 = install_all(s0, vehicles, dedup_all(routes), t).unwrap();
    lemma_install_all_engaged(s0, vehicles, dedup_all(routes), t);
    if !all_delivered(s2.order_item_states) {
        lemma_push_engaged(
            s2,
            SimulatorEventDataView::UpdateTimestep,
            t + intervals(cost, s1.time_interval) * s1.time_interval,
            none,
        );
    }
}

/// Over every event that the kernel has scheduled, the engagements stay in
/// order, and the event finds the vehicle and the factory as it needs
/// them: the arrival of a vehicle fails only for an instant beyond 64 bits;
/// a request for a dock only for that or for a factory that the instance
/// does not have; and the end of a service never because the vehicle or
/// the factory is unknown, the vehicle elsewhere, or no dock busy.
pub proof fn law_engaged_over_event(s: SimulatorView)
    requires
        s.wf(),
        docks_accounted(s),
        engaged(s),
        s.events.len() > 0,
        !(s.events[0].0 is UpdateTimestep),
    ensures
        match dispatch(taken(s), s.events[0].0, s.events[0].1 as int) {
            Ok(next) => engaged(next),
            Err(e) => match s.events[0].0 {
                SimulatorEventDataView::VehicleArrival { .. } => e == SimError::Overflow,
                SimulatorEventDataView::VehicleApproachedDock { .. } => e == SimError::Overflow
                    || e == SimError::UnknownFactory,
                SimulatorEventDataView::FinishLoading { .. } => e != SimError::UnknownVehicle && e
                    != SimError::UnknownFactory && e != SimError::WrongPosition && e
                    != SimError::NoBusyDock && e != SimError::ItemNotUnavailable,
                _ => true,
            },
        },
{
    let e = s.events[0];
    let t = e.1 as int;
    let s1 = taken(s);
    lemma_take_engaged(s);
    law_monotone_time(s);
    assert(s1.wf());
    let none: Set<Seq<char>> = Set::empty();
    match e.0 {
        SimulatorEventDataView::OrderArrival { order_id, order_item_ids } => {
            if order_arrival(s1, order_item_ids).is_ok() {
                lemma_states_grow(s1, order_arrival(s1, order_item_ids).unwrap(), none);
            }
        },
        SimulatorEventDataView::VehicleArrival { vehicle_id, factory_id, work } => {
            if vehicle_arrival(s1, vehicle_id, factory_id, work, t).is_ok() {
                lemma_arrival_engaged(s1, vehicle_id, factory_id, work, t, set![vehicle_id]);
                assert(set![vehicle_id].remove(vehicle_id) =~= none);
            }
        },
        SimulatorEventDataView::VehicleApproachedDock { vehicle_id, factory_id, work } => {
            lemma_approach_engaged(s1, vehicle_id, factory_id, work, t, set![vehicle_id]);
            assert(set![vehicle_id].remove(vehicle_id) =~= none);
        },
        SimulatorEventDataView::FinishLoading { vehicle_id, factory_id, delivered_items } => {
            lemma_services_drop_first(s.events, factory_id);
            lemma_services_nonnegative(s1.events, factory_id);
            assert(s.factory_states.contains_key(factory_id));
            lemma_finish_engaged(s1, vehicle_id, factory_id, delivered_items, t, set![vehicle_id]);
            assert(set![vehicle_id].remove(vehicle_id) =~= none);
        },
        SimulatorEventDataView::UpdateTimestep => {},
    }
}

} // verus!
