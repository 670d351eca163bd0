//! The docks of a factory are either free or busy with a service whose end
//! is pending: no step of the simulation loses a dock or makes one up.

use crate::model::order_item::OrderItemIdView;
use crate::schedule::dedup_all;
use crate::model::route_info::transit_time;
use crate::simulation::dispatch::{
    dispatch, install_all, install_routes, taken, timestep, with_route,
};
use crate::simulation::event_queue::slot;
use crate::simulation::rules::{
    begin_loading, begin_transporting, depart, finish_load, intervals, record_delivery,
    release_dock, vehicle_approached_dock, SimulatorView,
};
use crate::simulation::sim_event::{
    SimEvent, SimEventView, SimulatorEventDataView, VehicleWorkView,
};
use crate::simulation::state::{
    FactoryStateView, VehiclePositionView, VehicleRouteView, VehicleStateView,
};
use vstd::prelude::*;

verus! {

/// The event is the end of a service at the factory `f`.
pub open spec fn ends_service_at(e: SimEventView, f: Seq<char>) -> bool {
    match e.0 {
        SimulatorEventDataView::FinishLoading { factory_id, .. } => factory_id == f,
        _ => false,
    }
}

/// The number of services in progress at `f`: the ends of service there that are pending.
pub open spec fn services(events: Seq<SimEventView>, f: Seq<char>) -> int
    decreases events.len(),
{
    if events.len() == 0 {
        0
    } else {
        services(events.drop_last(), f) + if ends_service_at(events.last(), f) {
            1int
        } else {
            0int
        }
    }
}

/// The docks of `f` that are accounted for: the free ones and the busy ones.
pub open spec fn dock_sum(s: SimulatorView, f: Seq<char>) -> int {
    s.factory_states[f].num_avail_docks + services(s.events, f)
}

/// At every factory the free docks and the services in progress are
/// together all its docks.
pub open spec fn docks_accounted(s: SimulatorView) -> bool {
    forall|f: Seq<char>| #[trigger]
        s.factory_states.contains_key(f) ==> dock_sum(s, f) == s.factories[f].port_num
}

/// The factories of `b` are those of `a`, and at each of them as many
/// docks are accounted for, but for `extra` more at `at`.
pub open spec fn docks_kept(a: SimulatorView, b: SimulatorView, at: Seq<char>, extra: int) -> bool {
    &&& b.factories == a.factories
    &&& b.factory_states.dom() =~= a.factory_states.dom()
    &&& forall|f: Seq<char>| #[trigger]
        a.factory_states.contains_key(f) ==> dock_sum(b, f) == dock_sum(a, f) + if f == at {
            extra
        } else {
            0int
        }
}

pub proof fn lemma_services_nonnegative(events: Seq<SimEventView>, f: Seq<char>)
    ensures
        0 <= services(events, f) <= events.len(),
    decreases events.len(),
{
    if events.len() > 0 {
        lemma_services_nonnegative(events.drop_last(), f);
    }
}

pub proof fn lemma_services_insert(events: Seq<SimEventView>, k: int, e: SimEventView, f: Seq<char>)
    requires
        0 <= k <= events.len(),
    ensures
        services(events.insert(k, e), f) == services(events, f) + if ends_service_at(e, f) {
            1int
        } else {
            0int
        },
    decreases events.len(),
{
    let after = events.insert(k, e);
    if k == events.len() {
        assert(after.drop_last() =~= events);
        assert(after.last() == e);
    } else {
        assert(after.drop_last() =~= events.drop_last().insert(k, e));
        assert(after.last() == events.last());
        lemma_services_insert(events.drop_last(), k, e, f);
    }
}

pub proof fn lemma_services_drop_first(events: Seq<SimEventView>, f: Seq<char>)
    requires
        events.len() > 0,
    ensures
        services(events.drop_first(), f) == services(events, f) - if ends_service_at(
            events[0],
            f,
        ) {
            1int
        } else {
            0int
        },
    decreases events.len(),
{
    if events.len() == 1 {
        assert(events.drop_first() =~= Seq::<SimEventView>::empty());
        assert(events.drop_last() =~= Seq::<SimEventView>::empty());
    } else {
        assert(events.drop_first().drop_last() =~= events.drop_last().drop_first());
        assert(events.drop_first().last() == events.last());
        assert(events.drop_last()[0] == events[0]);
        lemma_services_drop_first(events.drop_last(), f);
    }
}

pub proof fn lemma_slot_range(events: Seq<SimEventView>, t: int)
    ensures
        0 <= slot::<SimEvent>(events, t) <= events.len(),
    decreases events.len(),
{
    if !(events.len() == 0 || events[0].1 > t) {
        lemma_slot_range(events.drop_first(), t);
    }
}

/// A new event adds a service in progress exactly where it is the end of one.
pub proof fn lemma_services_push(
    s: SimulatorView,
    data: SimulatorEventDataView,
    time: int,
    f: Seq<char>,
)
    ensures
        services(s.push(data, time).events, f) == services(s.events, f) + if ends_service_at(
            (data, time as i64),
            f,
        ) {
            1int
        } else {
            0int
        },
{
    let e: SimEventView = (data, time as i64);
    lemma_slot_range(s.events, e.1 as int);
    lemma_services_insert(s.events, slot::<SimEvent>(s.events, e.1 as int), e, f);
}

/// The start of a service makes one dock of its factory busy.
pub proof fn lemma_loading_docks(
    s: SimulatorView,
    v: Seq<char>,
    f: Seq<char>,
    work: VehicleWorkView,
    t: int,
)
    requires
        begin_loading(s, v, f, work, t).is_ok(),
    ensures
        docks_kept(s, begin_loading(s, v, f, work, t).unwrap(), f, 1),
        begin_loading(s, v, f, work, t).unwrap().factory_states == s.factory_states,
{
    let next = begin_loading(s, v, f, work, t).unwrap();
    let mid = SimulatorView { events: s.events, ..next };
    let data = SimulatorEventDataView::FinishLoading {
        vehicle_id: v,
        factory_id: f,
        delivered_items: work.unload_items.reverse(),
    };
    assert forall|g: Seq<char>| #[trigger] s.factory_states.contains_key(g) implies dock_sum(
        next,
        g,
    ) == dock_sum(s, g) + if g == f {
        1int
    } else {
        0int
    } by {
        lemma_services_push(mid, data, t + work.load_time() + work.unload_time(), g);
    }
}

/// The start of a trip leaves the docks as they are.
pub proof fn lemma_transporting_docks(
    s: SimulatorView,
    v: Seq<char>,
    f: Seq<char>,
    route: VehicleRouteView,
    t: int,
)
    requires
        begin_transporting(s, v, f, route, t).is_ok(),
    ensures
        docks_kept(s, begin_transporting(s, v, f, route, t).unwrap(), f, 0),
{
    let next = begin_transporting(s, v, f, route, t).unwrap();
    let mid = SimulatorView { events: s.events, ..next };
    let data = SimulatorEventDataView::VehicleArrival {
        vehicle_id: v,
        factory_id: route.destination,
        work: route.work,
    };
    assert forall|g: Seq<char>| #[trigger] s.factory_states.contains_key(g) implies dock_sum(
        next,
        g,
    ) == dock_sum(s, g) by {
        lemma_services_push(
            mid,
            data,
            t + transit_time(s.routes, f, route.destination).unwrap(),
            g,
        );
    }
}

/// The end of a service at `f`, once it has left the queue, brings the
/// dock back into the account: it goes to the next vehicle or becomes free.
pub proof fn lemma_finish_docks(
    s: SimulatorView,
    v: Seq<char>,
    f: Seq<char>,
    delivered: Seq<OrderItemIdView>,
    t: int,
)
    requires
        finish_load(s, v, f, delivered, t).is_ok(),
    ensures
        docks_kept(s, finish_load(s, v, f, delivered, t).unwrap(), f, 1),
{
    let s1 = release_dock(s, f, t).unwrap();
    if s.factory_states[f].queue.len() > 0 {
        let waiting = SimulatorView {
            factory_states: s.factory_states.insert(
                f,
                FactoryStateView {
                    queue: s.factory_states[f].queue.drop_first(),
                    ..s.factory_states[f]
                },
            ),
            ..s
        };
        lemma_loading_docks(
            waiting,
            s.factory_states[f].queue[0].0,
            f,
            s.factory_states[f].queue[0].1,
            t,
        );
        assert(docks_kept(s, s1, f, 1));
    } else {
        assert(docks_kept(s, s1, f, 1));
    }
    let s2 = record_delivery(s1, delivered, t).unwrap();
    assert(docks_kept(s1, s2, f, 0));
    let s3 = depart(s2, v, f, t).unwrap();
    if s2.vehicle_states[v].current_route.len() > 0 {
        let idle = SimulatorView {
            vehicle_states: s2.vehicle_states.insert(
                v,
                VehicleStateView {
                    position: VehiclePositionView::Idle(f),
                    current_route: s2.vehicle_states[v].current_route.drop_first(),
                    ..s2.vehicle_states[v]
                },
            ),
            ..s2
        };
        lemma_transporting_docks(idle, v, f, s2.vehicle_states[v].current_route[0], t);
        assert(docks_kept(s2, s3, f, 0));
    } else {
        assert(docks_kept(s2, s3, f, 0));
    }
}

/// A request for a dock leaves the account as it is: the vehicle waits, or
/// a free dock becomes busy.
pub proof fn lemma_approach_docks(
    s: SimulatorView,
    v: Seq<char>,
    f: Seq<char>,
    work: VehicleWorkView,
    t: int,
)
    requires
        vehicle_approached_dock(s, v, f, work, t).is_ok(),
    ensures
        docks_kept(s, vehicle_approached_dock(s, v, f, work, t).unwrap(), f, 0),
{
    let next = vehicle_approached_dock(s, v, f, work, t).unwrap();
    if s.factory_states[f].num_avail_docks != 0 {
        lemma_loading_docks(s, v, f, work, t);
    }
    assert(next.factory_states.dom() =~= s.factory_states.dom());
}

/// Giving a vehicle its stops leaves the docks as they are.
pub proof fn lemma_install_docks(
    s: SimulatorView,
    v: Seq<char>,
    routes: Seq<VehicleRouteView>,
    t: int,
)
    requires
        install_routes(s, v, routes, t).is_ok(),
    ensures
        docks_kept(s, install_routes(s, v, routes, t).unwrap(), v, 0),
{
    match s.vehicle_states[v].position {
        VehiclePositionView::Idle(start) => {
            if routes.len() > 0 {
                lemma_transporting_docks(
                    with_route(s, v, routes.drop_first()),
                    v,
                    start,
                    routes[0],
                    t,
                );
            }
        },
        _ => {},
    }
}

pub proof fn lemma_install_all_docks(
    s: SimulatorView,
    vehicles: Seq<Seq<char>>,
    routes: Seq<Seq<VehicleRouteView>>,
    t: int,
)
    requires
        install_all(s, vehicles, routes, t).is_ok(),
    ensures
        docks_kept(s, install_all(s, vehicles, routes, t).unwrap(), seq![], 0),
    decreases vehicles.len(),
{
    if !(vehicles.len() == 0 || routes.len() == 0) {
        let s1 = install_routes(s, vehicles[0], routes[0], t).unwrap();
        lemma_install_docks(s, vehicles[0], routes[0], t);
        lemma_install_all_docks(s1, vehicles.drop_first(), routes.drop_first(), t);
    }
}

/// A call of the scheduler leaves the docks as they are, whatever the plan.
pub proof fn lemma_timestep_docks(
    s: SimulatorView,
    vehicles: Seq<Seq<char>>,
    routes: Seq<Seq<VehicleRouteView>>,
    t: int,
    cost: int,
)
    requires
        timestep(s, vehicles, routes, t, cost).is_ok(),
    ensures
        docks_kept(s, timestep(s, vehicles, routes, t, cost).unwrap(), seq![], 0),
{
    let s0 = SimulatorView { total_distance_last_timeslot: s.total_distance, ..s };
    let s1 = install_all(s0, vehicles, dedup_all(routes), t).unwrap();
    lemma_install_all_docks(s0, vehicles, dedup_all(routes), t);
    let next = timestep(s, vehicles, routes, t, cost).unwrap();
    assert forall|g: Seq<char>| #[trigger] s.factory_states.contains_key(g) implies dock_sum(
        next,
        g,
    ) == dock_sum(s, g) by {
        lemma_services_push(
            s1,
            SimulatorEventDataView::UpdateTimestep,
            t + intervals(cost, s.time_interval) * s.time_interval,
            g,
        );
    }
}

/// Dock conservation over a step other than a call of the scheduler: if
/// every dock is accounted for before the next event is taken, every dock
/// is accounted for after it has been handled.
pub proof fn law_docks_over_event(s: SimulatorView)
    requires
        s.events.len() > 0,
        docks_accounted(s),
        !(s.events[0].0 is UpdateTimestep),
        dispatch(taken(s), s.events[0].0, s.events[0].1 as int).is_ok(),
    ensures
        docks_accounted(dispatch(taken(s), s.events[0].0, s.events[0].1 as int).unwrap()),
{
    let e = s.events[0];
    let t = e.1 as int;
    let s1 = taken(s);
    let next = dispatch(s1, e.0, t).unwrap();
    assert forall|g: Seq<char>| #[trigger] s.factory_states.contains_key(g) implies dock_sum(s1, g)
        == dock_sum(s, g) - if ends_service_at(e, g) {
        1int
    } else {
        0int
    } by {
        lemma_services_drop_first(s.events, g);
    }
    match e.0 {
        SimulatorEventDataView::OrderArrival { order_id, order_item_ids } => {
            assert(docks_kept(s1, next, seq![], 0));
        },
        SimulatorEventDataView::VehicleArrival { vehicle_id, factory_id, work } => {
            let mid = SimulatorView { events: s1.events, ..next };
            assert forall|g: Seq<char>| #[trigger] s1.factory_states.contains_key(g) implies dock_sum(
                next,
                g,
            ) == dock_sum(s1, g) by {
                lemma_services_push(
                    mid,
                    SimulatorEventDataView::VehicleApproachedDock { vehicle_id, factory_id, work },
                    t + s1.dock_approaching_time,
                    g,
                );
            }
        },
        SimulatorEventDataView::VehicleApproachedDock { vehicle_id, factory_id, work } => {
            lemma_approach_docks(s1, vehicle_id, factory_id, work, t);
        },
        SimulatorEventDataView::FinishLoading { vehicle_id, factory_id, delivered_items } => {
            lemma_finish_docks(s1, vehicle_id, factory_id, delivered_items, t);
        },
        SimulatorEventDataView::UpdateTimestep => {},
    }
}

/// Dock conservation over a call of the scheduler.
pub proof fn law_docks_over_timestep(
    s: SimulatorView,
    vehicles: Seq<Seq<char>>,
    routes: Seq<Seq<VehicleRouteView>>,
    cost: int,
)
    requires
        s.events.len() > 0,
        docks_accounted(s),
        s.events[0].0 is UpdateTimestep,
        timestep(taken(s), vehicles, routes, s.events[0].1 as int, cost).is_ok(),
    ensures
        docks_accounted(
            timestep(taken(s), vehicles, routes, s.events[0].1 as int, cost).unwrap(),
        ),
{
    let s1 = taken(s);
    assert forall|g: Seq<char>| #[trigger] s.factory_states.contains_key(g) implies dock_sum(s1, g)
        == dock_sum(s, g) by {
        lemma_services_drop_first(s.events, g);
    }
    lemma_timestep_docks(s1, vehicles, routes, s.events[0].1 as int, cost);
}

/// Dock conservation: at every factory the docks that are busy with a
/// service and the docks that are free are together all its docks, neither
/// number is negative, and nobody waits while a dock is free.
pub proof fn law_dock_conservation(s: SimulatorView, f: Seq<char>)
    requires
        s.wf(),
        docks_accounted(s),
        s.factory_states.contains_key(f),
    ensures
        services(s.events, f) + s.factory_states[f].num_avail_docks == s.factories[f].port_num,
        0 <= services(s.events, f) <= s.factories[f].port_num,
        0 <= s.factory_states[f].num_avail_docks <= s.factories[f].port_num,
        s.factory_states[f].queue.len() > 0 ==> s.factory_states[f].num_avail_docks == 0,
{
    lemma_services_nonnegative(s.events, f);
}

} // verus!
