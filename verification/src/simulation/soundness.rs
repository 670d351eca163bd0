//! The kernel is sound when it is well-formed, every dock is accounted for,
//! every vehicle is engaged as it should be, and the stops of every vehicle
//! fit its planned stack. A new simulator is sound, every step keeps it
//! sound, and a sound kernel does not stumble over its own events.

use crate::simulation::accounting::{
    docks_accounted, law_docks_over_event, law_docks_over_timestep, lemma_services_drop_first,
    lemma_services_nonnegative,
};
use crate::model::order_item::lemma_demand_bounds;
use crate::model::route_info::transit_time;
use crate::schedule::dedup_all;
use crate::simulation::dispatch::{
    dispatch, follows, install_all, install_routes, is_run, lemma_product_bounds, taken, timestep,
    with_route,
};
use crate::simulation::engagement::{
    engaged, event_engaged, law_engaged_over_event, law_engaged_over_timestep,
    lemma_release_engaged, lemma_take_engaged,
};
use crate::simulation::fitting::{
    fitted, is_plan, law_fitted_over_timestep, lemma_depart_fitted, lemma_fitted_frame,
};
use crate::simulation::laws::law_monotone_time;
use crate::model::order_item::OrderItemIdView;
use crate::simulation::rules::{
    all_delivered, arrival_fault, begin_loading, begin_transporting, intervals, record_delivery,
    release_dock, SimError, SimulatorView,
};
use crate::simulation::simulator::lemma_push_events_wf;
use crate::simulation::state::{
    FactoryStateView, OrderItemState, VehiclePositionView, VehicleStateView,
};
use crate::simulation::sim_event::{SimulatorEventDataView, VehicleWorkView};
use crate::simulation::state::VehicleRouteView;
use crate::simulation::custody::{
    custody, law_custody_over_event, law_custody_over_timestep, lemma_later_custody,
};
use vstd::prelude::*;

verus! {

/// Every dock is accounted for, every vehicle is engaged as it should be,
/// the stops of every vehicle fit its planned stack, and what a vehicle
/// has taken up it is not planned to load again.
pub open spec fn steady(s: SimulatorView) -> bool {
    docks_accounted(s) && engaged(s) && fitted(s) && custody(s)
}

/// The kernel is sound: well-formed and steady.
pub open spec fn sound(s: SimulatorView) -> bool {
    s.wf() && steady(s)
}

/// The faults that an event of a sound kernel can still meet. The arrival
/// of a vehicle and the start of a service fail only where an instant is
/// later than 64 bits hold; a request for a dock also where the factory is
/// not of the instance; the end of a service only for that range, for a
/// delivered item that the catalogue does not know, or for a road that is
/// not recorded.
pub open spec fn may_fail(data: SimulatorEventDataView, e: SimError) -> bool {
    match data {
        SimulatorEventDataView::OrderArrival { .. } => e == SimError::UnknownItem || e
            == SimError::ItemNotUnavailable,
        SimulatorEventDataView::VehicleArrival { .. } => e == SimError::Overflow,
        SimulatorEventDataView::VehicleApproachedDock { .. } => e == SimError::Overflow || e
            == SimError::UnknownFactory,
        SimulatorEventDataView::FinishLoading { .. } => e == SimError::Overflow || e
            == SimError::UnknownItem || e == SimError::NoRoute,
        SimulatorEventDataView::UpdateTimestep => e is InvalidPlan || e == SimError::NoRoute || e
            == SimError::Overflow,
    }
}

/// The start of a service keeps the kernel well-formed.
pub proof fn lemma_loading_wf(
    s: SimulatorView,
    v: Seq<char>,
    f: Seq<char>,
    work: VehicleWorkView,
    t: int,
)
    requires
        s.wf(),
        s.clock <= t,
        begin_loading(s, v, f, work, t).is_ok(),
    ensures
        begin_loading(s, v, f, work, t).unwrap().wf(),
{
    let next = begin_loading(s, v, f, work, t).unwrap();
    let mid = SimulatorView { events: s.events, ..next };
    lemma_demand_bounds(work.load_items);
    lemma_demand_bounds(work.unload_items);
    assert(mid.vehicle_states.dom() =~= s.vehicle_states.dom());
    assert(mid.within_capacity());
    lemma_push_events_wf(
        mid,
        SimulatorEventDataView::FinishLoading {
            vehicle_id: v,
            factory_id: f,
            delivered_items: work.unload_items.reverse(),
        },
        t + work.load_time() + work.unload_time(),
    );
}

/// The start of a trip keeps the kernel well-formed.
pub proof fn lemma_transporting_wf(
    s: SimulatorView,
    v: Seq<char>,
    f: Seq<char>,
    route: VehicleRouteView,
    t: int,
)
    requires
        s.wf(),
        s.clock <= t,
        begin_transporting(s, v, f, route, t).is_ok(),
    ensures
        begin_transporting(s, v, f, route, t).unwrap().wf(),
{
    let next = begin_transporting(s, v, f, route, t).unwrap();
    let mid = SimulatorView { events: s.events, ..next };
    assert(mid.vehicle_states.dom() =~= s.vehicle_states.dom());
    assert(mid.within_capacity());
    lemma_push_events_wf(
        mid,
        SimulatorEventDataView::VehicleArrival {
            vehicle_id: v,
            factory_id: route.destination,
            work: route.work,
        },
        t + transit_time(s.routes, f, route.destination).unwrap(),
    );
}

/// Giving a vehicle its stops keeps the kernel well-formed.
pub proof fn lemma_install_wf(s: SimulatorView, v: Seq<char>, routes: Seq<VehicleRouteView>, t: int)
    requires
        s.wf(),
        s.clock <= t,
        install_routes(s, v, routes, t).is_ok(),
    ensures
        install_routes(s, v, routes, t).unwrap().wf(),
        install_routes(s, v, routes, t).unwrap().clock == s.clock,
        install_routes(s, v, routes, t).unwrap().time_interval == s.time_interval,
{
    match s.vehicle_states[v].position {
        VehiclePositionView::Idle(start) => {
            if routes.len() > 0 {
                let mid = with_route(s, v, routes.drop_first());
                assert(mid.vehicle_states.dom() =~= s.vehicle_states.dom());
                assert(mid.within_capacity());
                lemma_transporting_wf(mid, v, start, routes[0], t);
            } else {
                let next = with_route(s, v, routes);
                assert(next.vehicle_states.dom() =~= s.vehicle_states.dom());
                assert(next.within_capacity());
            }
        },
        _ => {
            let next = with_route(s, v, routes);
            assert(next.vehicle_states.dom() =~= s.vehicle_states.dom());
            assert(next.within_capacity());
        },
    }
}

pub proof fn lemma_install_all_wf(
    s: SimulatorView,
    vehicles: Seq<Seq<char>>,
    routes: Seq<Seq<VehicleRouteView>>,
    t: int,
)
    requires
        s.wf(),
        s.clock <= t,
        install_all(s, vehicles, routes, t).is_ok(),
    ensures
        install_all(s, vehicles, routes, t).unwrap().wf(),
        install_all(s, vehicles, routes, t).unwrap().clock == s.clock,
        install_all(s, vehicles, routes, t).unwrap().time_interval == s.time_interval,
    decreases vehicles.len(),
{
    if !(vehicles.len() == 0 || routes.len() == 0) {
        lemma_install_wf(s, vehicles[0], routes[0], t);
        lemma_install_all_wf(
            install_routes(s, vehicles[0], routes[0], t).unwrap(),
            vehicles.drop_first(),
            routes.drop_first(),
            t,
        );
    }
}

/// A call of the scheduler keeps the kernel well-formed.
pub proof fn lemma_timestep_wf(
    s: SimulatorView,
    vehicles: Seq<Seq<char>>,
    routes: Seq<Seq<VehicleRouteView>>,
    t: int,
    cost: int,
)
    requires
        s.wf(),
        s.clock <= t,
        0 <= cost,
        timestep(s, vehicles, routes, t, cost).is_ok(),
    ensures
        timestep(s, vehicles, routes, t, cost).unwrap().wf(),
{
    let s0 = SimulatorView { total_distance_last_timeslot: s.total_distance, ..s };
    assert(s0.wf());
    let s1 = install_all(s0, vehicles, dedup_all(routes), t).unwrap();
    lemma_install_all_wf(s0, vehicles, dedup_all(routes), t);
    if !all_delivered(s1.order_item_states) {
        let k = intervals(cost, s.time_interval);
        assert(0 <= cost / (s.time_interval * 1_000_000_000)) by (nonlinear_arith)
            requires
                0 <= cost,
                0 < s.time_interval,
        ;
        lemma_product_bounds(k, s.time_interval);
        lemma_push_events_wf(
            s1,
            SimulatorEventDataView::UpdateTimestep,
            t + k * s.time_interval,
        );
    }
}

/// An event other than a call of the scheduler keeps the kernel well-formed.
pub proof fn lemma_event_wf(s: SimulatorView, data: SimulatorEventDataView, t: int)
    requires
        s.wf(),
        s.clock <= t,
        dispatch(s, data, t).is_ok(),
    ensures
        dispatch(s, data, t).unwrap().wf(),
{
    let next = dispatch(s, data, t).unwrap();
    match data {
        SimulatorEventDataView::OrderArrival { order_id, order_item_ids } => {},
        SimulatorEventDataView::VehicleArrival { vehicle_id, factory_id, work } => {
            let mid = SimulatorView { events: s.events, ..next };
            assert(mid.vehicle_states.dom() =~= s.vehicle_states.dom());
            assert(mid.within_capacity());
            lemma_push_events_wf(
                mid,
                SimulatorEventDataView::VehicleApproachedDock { vehicle_id, factory_id, work },
                t + s.dock_approaching_time,
            );
        },
        SimulatorEventDataView::VehicleApproachedDock { vehicle_id, factory_id, work } => {
            if s.factory_states[factory_id].num_avail_docks == 0 {
                assert(next.factory_states.dom() =~= s.factory_states.dom());
            } else {
                lemma_loading_wf(s, vehicle_id, factory_id, work, t);
                let s1 = begin_loading(s, vehicle_id, factory_id, work, t).unwrap();
                assert(next.factory_states.dom() =~= s1.factory_states.dom());
            }
        },
        SimulatorEventDataView::FinishLoading { vehicle_id, factory_id, delivered_items } => {
            let s1 = release_dock(s, factory_id, t).unwrap();
            if s.factory_states[factory_id].queue.len() > 0 {
                let waiting = SimulatorView {
                    factory_states: s.factory_states.insert(
                        factory_id,
                        FactoryStateView {
                            queue: s.factory_states[factory_id].queue.drop_first(),
                            ..s.factory_states[factory_id]
                        },
                    ),
                    ..s
                };
                assert(waiting.factory_states.dom() =~= s.factory_states.dom());
                assert(waiting.wf());
                lemma_loading_wf(
                    waiting,
                    s.factory_states[factory_id].queue[0].0,
                    factory_id,
                    s.factory_states[factory_id].queue[0].1,
                    t,
                );
            } else {
                assert(s1.factory_states.dom() =~= s.factory_states.dom());
            }
            assert(s1.wf());
            let s2 = record_delivery(s1, delivered_items, t).unwrap();
            assert(s2.wf());
            if s2.vehicle_states[vehicle_id].current_route.len() == 0 {
                assert(next.vehicle_states.dom() =~= s2.vehicle_states.dom());
                assert(next.within_capacity());
            } else {
                let idle = SimulatorView {
                    vehicle_states: s2.vehicle_states.insert(
                        vehicle_id,
                        VehicleStateView {
                            position: VehiclePositionView::Idle(factory_id),
                            current_route: s2.vehicle_states[vehicle_id].current_route.drop_first(),
                            ..s2.vehicle_states[vehicle_id]
                        },
                    ),
                    ..s2
                };
                assert(idle.vehicle_states.dom() =~= s2.vehicle_states.dom());
                assert(idle.within_capacity());
                lemma_transporting_wf(
                    idle,
                    vehicle_id,
                    factory_id,
                    s2.vehicle_states[vehicle_id].current_route[0],
                    t,
                );
            }
        },
        SimulatorEventDataView::UpdateTimestep => {},
    }
}

/// An arriving order is refused only for an item without a state or for
/// one that is available already.
pub proof fn lemma_arrival_faults(
    states: Map<OrderItemIdView, OrderItemState>,
    ids: Seq<OrderItemIdView>,
)
    ensures
        match arrival_fault(states, ids) {
            Some(e) => e == SimError::UnknownItem || e == SimError::ItemNotUnavailable,
            None => true,
        },
    decreases ids.len(),
{
    if ids.len() > 0 {
        lemma_arrival_faults(states, ids.drop_first());
    }
}

/// An event of a sound kernel, other than a call of the scheduler, leaves
/// the kernel sound, and fails only as `may_fail` allows.
pub proof fn law_sound_over_event(s: SimulatorView)
    requires
        sound(s),
        s.events.len() > 0,
        !(s.events[0].0 is UpdateTimestep),
    ensures
        match dispatch(taken(s), s.events[0].0, s.events[0].1 as int) {
            Ok(next) => sound(next),
            Err(e) => may_fail(s.events[0].0, e),
        },
{
    let e = s.events[0];
    let t = e.1 as int;
    let s1 = taken(s);
    law_engaged_over_event(s);
    law_monotone_time(s);
    assert(s1.wf());
    if dispatch(s1, e.0, t).is_ok() {
        lemma_event_wf(s1, e.0, t);
    }
    lemma_take_engaged(s);
    lemma_fitted_frame(s, s1);
    if dispatch(s1, e.0, t).is_ok() {
        law_docks_over_event(s);
        law_custody_over_event(s);
    }
    match e.0 {
        SimulatorEventDataView::OrderArrival { order_id, order_item_ids } => {
            lemma_arrival_faults(s1.order_item_states, order_item_ids);
            if dispatch(s1, e.0, t).is_ok() {
                lemma_fitted_frame(s1, dispatch(s1, e.0, t).unwrap());
            }
        },
        SimulatorEventDataView::VehicleArrival { vehicle_id, factory_id, work } => {
            if dispatch(s1, e.0, t).is_ok() {
                lemma_fitted_frame(s1, dispatch(s1, e.0, t).unwrap());
            }
        },
        SimulatorEventDataView::VehicleApproachedDock { vehicle_id, factory_id, work } => {
            if dispatch(s1, e.0, t).is_ok() {
                lemma_fitted_frame(s1, dispatch(s1, e.0, t).unwrap());
            }
        },
        SimulatorEventDataView::FinishLoading { vehicle_id, factory_id, delivered_items } => {
            lemma_services_drop_first(s.events, factory_id);
            lemma_services_nonnegative(s1.events, factory_id);
            assert(event_engaged(s1, e));
            assert(s.factory_states.contains_key(factory_id));
            lemma_release_engaged(s1, factory_id, t, set![vehicle_id]);
            if release_dock(s1, factory_id, t).is_ok() {
                let s2 = release_dock(s1, factory_id, t).unwrap();
                lemma_fitted_frame(s1, s2);
                assert(s2.vehicle_states[vehicle_id] == s1.vehicle_states[vehicle_id]);
                if record_delivery(s2, delivered_items, t).is_ok() {
                    let s3 = record_delivery(s2, delivered_items, t).unwrap();
                    lemma_fitted_frame(s2, s3);
                    lemma_depart_fitted(s3, vehicle_id, factory_id, t);
                }
            }
        },
        SimulatorEventDataView::UpdateTimestep => {},
    }
}

/// A call of the scheduler in a sound kernel leaves the kernel sound,
/// whatever the plan and however long the call took, and fails only as
/// `may_fail` allows.
pub proof fn law_sound_over_timestep(
    s: SimulatorView,
    vehicles: Seq<Seq<char>>,
    routes: Seq<Seq<VehicleRouteView>>,
    cost: int,
)
    requires
        sound(s),
        s.events.len() > 0,
        s.events[0].0 is UpdateTimestep,
        is_plan(vehicles, routes),
        0 <= cost,
    ensures
        match timestep(taken(s), vehicles, routes, s.events[0].1 as int, cost) {
            Ok(next) => sound(next),
            Err(e) => may_fail(s.events[0].0, e),
        },
{
    let t = s.events[0].1 as int;
    let s1 = taken(s);
    law_monotone_time(s);
    assert(s1.wf());
    lemma_fitted_frame(s, s1);
    law_fitted_over_timestep(s1, vehicles, routes, t, cost);
    if timestep(s1, vehicles, routes, t, cost).is_ok() {
        lemma_timestep_wf(s1, vehicles, routes, t, cost);
        law_docks_over_timestep(s, vehicles, routes, cost);
        law_engaged_over_timestep(s, vehicles, routes, cost);
        lemma_later_custody(s, s1, 1);
        law_custody_over_timestep(s1, vehicles, routes, t, cost);
    }
}

/// A step keeps a sound kernel sound, and sets the clock to the time of the
/// event it takes, which is not before the clock.
pub proof fn law_sound_follows(a: SimulatorView, b: SimulatorView)
    requires
        sound(a),
        follows(a, b),
    ensures
        sound(b),
        a.clock <= b.clock,
        a.events.len() > 0 ==> b.clock == a.events[0].1,
{
    if a.events.len() > 0 {
        let t = a.events[0].1 as int;
        let s1 = taken(a);
        law_monotone_time(a);
        assert(s1.wf());
        if a.events[0].0 is UpdateTimestep {
            let (vehicles, routes, cost) = choose|
                vehicles: Seq<Seq<char>>,
                routes: Seq<Seq<VehicleRouteView>>,
                cost: int,
            |
                is_plan(vehicles, routes) && 0 <= cost && #[trigger] timestep(
                    taken(a),
                    vehicles,
                    routes,
                    a.events[0].1 as int,
                    cost,
                ) == Ok::<SimulatorView, SimError>(b);
            law_sound_over_timestep(a, vehicles, routes, cost);
            let s0 = SimulatorView { total_distance_last_timeslot: s1.total_distance, ..s1 };
            assert(s0.wf());
            lemma_install_all_wf(s0, vehicles, dedup_all(routes), t);
        } else {
            law_sound_over_event(a);
            lemma_event_clock(s1, a.events[0].0, t);
        }
    }
}

/// An event other than a call of the scheduler leaves the clock where it is.
pub proof fn lemma_event_clock(s: SimulatorView, data: SimulatorEventDataView, t: int)
    requires
        dispatch(s, data, t).is_ok(),
    ensures
        dispatch(s, data, t).unwrap().clock == s.clock,
{
}

/// Along a run that starts from a sound kernel the kernel stays sound
/// and the clock never goes back: every event is dispatched at a time that
/// is not before the time of the event before it.
pub proof fn law_sound_run(path: Seq<SimulatorView>, i: int, j: int)
    requires
        is_run(path),
        path.len() > 0,
        sound(path[0]),
        0 <= i <= j < path.len(),
    ensures
        sound(path[i]),
        sound(path[j]),
        path[i].clock <= path[j].clock,
    decreases j,
{
    if j > 0 {
        if i < j {
            law_sound_run(path, i, j - 1);
        } else {
            law_sound_run(path, j - 1, j - 1);
        }
        assert(follows(path[j - 1], path[j - 1 + 1]));
        law_sound_follows(path[j - 1], path[j]);
    }
}

} // verus!
