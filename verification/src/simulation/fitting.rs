//! The stops that a vehicle has before it fit its planned stack: when the
//! vehicle leaves for one of them, the kernel finds nothing wrong with what
//! the stop loads and unloads. Stops that have passed the validator fit.

use crate::model::order_item::{demand_of, OrderItemIdView};
use crate::schedule::dedup_all;
use crate::simulation::dispatch::{install_all, install_routes, timestep, with_route};
use crate::simulation::rules::{
    all_tracked, begin_transporting, depart, ends_with, replace_top, SimError, SimulatorView,
};
use crate::simulation::state::{
    OrderItemState, VehiclePositionView, VehicleRouteView, VehicleStateView,
};
use crate::simulation::validator::{
    check_plan, check_route, check_routes, check_unloads, check_vehicle, lemma_loads_stack,
    lemma_loads_states, lemma_route_demand, lemma_unloads_stack, lemma_unloads_states, shadow_of,
    ShadowView,
};
use vstd::prelude::*;

verus! {

/// The stops can be made one after the other from the given stack: each
/// unloads from the top, keeps within the capacity, and loads items that
/// have a state.
pub open spec fn stops_fit(
    s: SimulatorView,
    stack: Seq<OrderItemIdView>,
    capacity: int,
    routes: Seq<VehicleRouteView>,
) -> bool
    decreases routes.len(),
{
    routes.len() == 0 || {
        &&& ends_with(stack, routes[0].work.unload_items)
        &&& demand_of(
            replace_top(stack, routes[0].work.unload_items, routes[0].work.load_items),
        ) <= capacity
        &&& all_tracked(s.order_item_states, routes[0].work.load_items)
        &&& stops_fit(
            s,
            replace_top(stack, routes[0].work.unload_items, routes[0].work.load_items),
            capacity,
            routes.drop_first(),
        )
    }
}

/// The stops of the vehicle `v` fit its planned stack.
pub open spec fn vehicle_fitted(s: SimulatorView, v: Seq<char>) -> bool {
    stops_fit(
        s,
        s.vehicle_states[v].allocated_item_stack,
        s.vehicles[v].capacity(),
        s.vehicle_states[v].current_route,
    )
}

/// The stops of every vehicle fit its planned stack.
pub open spec fn fitted(s: SimulatorView) -> bool {
    forall|v: Seq<char>| #[trigger] s.vehicle_states.contains_key(v) ==> vehicle_fitted(s, v)
}

/// Stops that fit keep fitting when more items get a state.
pub proof fn lemma_fit_grows(
    a: SimulatorView,
    b: SimulatorView,
    stack: Seq<OrderItemIdView>,
    capacity: int,
    routes: Seq<VehicleRouteView>,
)
    requires
        stops_fit(a, stack, capacity, routes),
        forall|k: OrderItemIdView| #[trigger]
            a.order_item_states.contains_key(k) ==> b.order_item_states.contains_key(k),
    ensures
        stops_fit(b, stack, capacity, routes),
    decreases routes.len(),
{
    if routes.len() > 0 {
        lemma_fit_grows(
            a,
            b,
            replace_top(stack, routes[0].work.unload_items, routes[0].work.load_items),
            capacity,
            routes.drop_first(),
        );
    }
}

/// Stops that pass the validator fit the stack they were played against.
pub proof fn lemma_checked_fits(
    s: SimulatorView,
    capacity: int,
    routes: Seq<VehicleRouteView>,
    sh: ShadowView,
)
    requires
        check_routes(s, capacity, routes, sh).is_ok(),
        sh.demand == demand_of(sh.stack),
        sh.states.dom() =~= s.order_item_states.dom(),
    ensures
        stops_fit(s, sh.stack, capacity, routes),
        check_routes(s, capacity, routes, sh).unwrap().states.dom() =~= sh.states.dom(),
    decreases routes.len(),
{
    if routes.len() > 0 {
        let route = routes[0];
        let sh0 = ShadowView { demand: sh.demand + route.work.delta_demand(), ..sh };
        let sh1 = check_unloads(s, route.destination, route.work.unload_items, sh0).unwrap();
        let sh2 = check_route(s, capacity, route, sh).unwrap();
        lemma_unloads_stack(s, route.destination, route.work.unload_items, sh0);
        lemma_loads_stack(s, route.destination, route.work.load_items, sh1);
        lemma_unloads_states(s, route.destination, route.work.unload_items, sh0);
        lemma_loads_states(s, route.destination, route.work.load_items, sh1);
        lemma_route_demand(s, capacity, route, sh);
        let n = sh.stack.len() - route.work.unload_items.len();
        assert(sh.stack.subrange(n, sh.stack.len() as int) =~= route.work.unload_items);
        assert(sh.stack.subrange(0, n) =~= sh1.stack);
        assert(sh2.stack == replace_top(
            sh.stack,
            route.work.unload_items,
            route.work.load_items,
        ));
        lemma_checked_fits(s, capacity, routes.drop_first(), sh2);
    }
}

/// A vehicle that leaves for the first of stops that fit is not refused for
/// what the stop loads or unloads, and the stops that remain fit the stack
/// that the first leaves.
pub proof fn lemma_fitting_stop_departs(
    s: SimulatorView,
    v: Seq<char>,
    f: Seq<char>,
    route: VehicleRouteView,
    rest: Seq<VehicleRouteView>,
    t: int,
)
    requires
        s.vehicle_states.contains_key(v),
        s.vehicle_states[v].position == VehiclePositionView::Idle(f),
        s.vehicle_states[v].current_route == rest,
        stops_fit(
            s,
            s.vehicle_states[v].allocated_item_stack,
            s.vehicles[v].capacity(),
            seq![route] + rest,
        ),
        fitted_but(s, v),
    ensures
        match begin_transporting(s, v, f, route, t) {
            Ok(next) => fitted(next),
            Err(e) => e == SimError::NoRoute || e == SimError::Overflow,
        },
{
    let all = seq![route] + rest;
    assert(all[0] == route);
    assert(all.drop_first() =~= rest);
    if begin_transporting(s, v, f, route, t).is_ok() {
        let next = begin_transporting(s, v, f, route, t).unwrap();
        assert forall|u: Seq<char>| #[trigger] next.vehicle_states.contains_key(u) implies vehicle_fitted(
            next,
            u,
        ) by {
            if u == v {
                lemma_fit_grows(
                    s,
                    next,
                    next.vehicle_states[v].allocated_item_stack,
                    s.vehicles[v].capacity(),
                    rest,
                );
            } else {
                assert(s.vehicle_states.contains_key(u));
                lemma_fit_grows(
                    s,
                    next,
                    s.vehicle_states[u].allocated_item_stack,
                    s.vehicles[u].capacity(),
                    s.vehicle_states[u].current_route,
                );
            }
        }
    }
}

/// The stops of every vehicle but `v` fit its planned stack.
pub open spec fn fitted_but(s: SimulatorView, v: Seq<char>) -> bool {
    forall|u: Seq<char>|
        u != v && #[trigger] s.vehicle_states.contains_key(u) ==> vehicle_fitted(s, u)
}

/// What changes neither a planned stack, nor the stops of a vehicle, nor a
/// capacity, and takes no state from an item, keeps the stops fitting.
pub proof fn lemma_fitted_frame(a: SimulatorView, b: SimulatorView)
    requires
        fitted(a),
        b.vehicles == a.vehicles,
        b.vehicle_states.dom() =~= a.vehicle_states.dom(),
        forall|u: Seq<char>| #[trigger]
            a.vehicle_states.contains_key(u) ==> b.vehicle_states[u].allocated_item_stack
                == a.vehicle_states[u].allocated_item_stack && b.vehicle_states[u].current_route
                == a.vehicle_states[u].current_route,
        forall|k: OrderItemIdView| #[trigger]
            a.order_item_states.contains_key(k) ==> b.order_item_states.contains_key(k),
    ensures
        fitted(b),
{
    assert forall|u: Seq<char>| #[trigger] b.vehicle_states.contains_key(u) implies vehicle_fitted(
        b,
        u,
    ) by {
        assert(a.vehicle_states.contains_key(u));
        lemma_fit_grows(
            a,
            b,
            a.vehicle_states[u].allocated_item_stack,
            a.vehicles[u].capacity(),
            a.vehicle_states[u].current_route,
        );
    }
}

/// A plan names vehicles and gives each its stops: no vehicle twice.
pub open spec fn is_plan(vehicles: Seq<Seq<char>>, routes: Seq<Seq<VehicleRouteView>>) -> bool {
    vehicles.no_duplicates() && vehicles.len() == routes.len()
}

/// The vehicle `v` is of the instance, and the stops `routes` fit its planned stack.
pub open spec fn vehicle_checked(s: SimulatorView, v: Seq<char>, routes: Seq<VehicleRouteView>) -> bool {
    &&& s.vehicles.contains_key(v)
    &&& s.vehicle_states.contains_key(v)
    &&& stops_fit(s, s.vehicle_states[v].allocated_item_stack, s.vehicles[v].capacity(), routes)
}

/// In a plan that passes the validator every vehicle is of the instance,
/// and its stops fit its planned stack.
pub proof fn lemma_checked_plan(
    s: SimulatorView,
    vehicles: Seq<Seq<char>>,
    routes: Seq<Seq<VehicleRouteView>>,
    states: Map<OrderItemIdView, OrderItemState>,
)
    requires
        check_plan(s, vehicles, routes, states).is_ok(),
        vehicles.len() == routes.len(),
        states.dom() =~= s.order_item_states.dom(),
    ensures
        forall|i: int|
            0 <= i < vehicles.len() ==> #[trigger] vehicle_checked(s, vehicles[i], routes[i]),
    decreases vehicles.len(),
{
    if vehicles.len() > 0 {
        let v = vehicles[0];
        lemma_checked_fits(s, s.vehicles[v].capacity(), routes[0], shadow_of(s, v, states));
        let next = check_vehicle(s, v, routes[0], states).unwrap();
        lemma_checked_plan(s, vehicles.drop_first(), routes.drop_first(), next);
        assert forall|i: int| 0 <= i < vehicles.len() implies #[trigger] vehicle_checked(
            s,
            vehicles[i],
            routes[i],
        ) by {
            if i > 0 {
                assert(vehicles[i] == vehicles.drop_first()[i - 1]);
                assert(routes[i] == routes.drop_first()[i - 1]);
                assert(vehicle_checked(
                    s,
                    vehicles.drop_first()[i - 1],
                    routes.drop_first()[i - 1],
                ));
            }
        }
    }
}

/// The vehicles still to be given their stops are in `now` as they were
/// in `then`, when the plan was validated.
pub open spec fn untouched(then: SimulatorView, now: SimulatorView, vehicles: Seq<Seq<char>>) -> bool {
    &&& now.vehicles == then.vehicles
    &&& now.vehicle_states.dom() =~= then.vehicle_states.dom()
    &&& forall|k: OrderItemIdView| #[trigger]
        then.order_item_states.contains_key(k) ==> now.order_item_states.contains_key(k)
    &&& forall|i: int|
        0 <= i < vehicles.len() ==> now.vehicle_states[#[trigger] vehicles[i]].allocated_item_stack
            == then.vehicle_states[vehicles[i]].allocated_item_stack
}

/// Giving a vehicle stops that the validator has passed keeps the stops of
/// all vehicles fitting, and fails only where no road leads to the first
/// stop or an instant or a distance leaves the range of 64-bit integers.
pub proof fn lemma_install_fitted(
    then: SimulatorView,
    s: SimulatorView,
    v: Seq<char>,
    routes: Seq<VehicleRouteView>,
    t: int,
)
    requires
        fitted(s),
        vehicle_checked(then, v, routes),
        untouched(then, s, seq![v]),
    ensures
        match install_routes(s, v, routes, t) {
            Ok(next) => fitted(next) && next.vehicles == s.vehicles && next.vehicle_states.dom()
                =~= s.vehicle_states.dom() && (forall|k: OrderItemIdView| #[trigger]
                s.order_item_states.contains_key(k) ==> next.order_item_states.contains_key(k))
                && (forall|u: Seq<char>|
                u != v ==> #[trigger] next.vehicle_states[u] == s.vehicle_states[u]),
            Err(e) => e == SimError::NoRoute || e == SimError::Overflow,
        },
{
    let capacity = s.vehicles[v].capacity();
    assert(seq![v][0] == v);
    lemma_fit_grows(then, s, s.vehicle_states[v].allocated_item_stack, capacity, routes);
    assert(s.vehicle_states.contains_key(v));
    match s.vehicle_states[v].position {
        VehiclePositionView::Idle(start) => {
            if routes.len() > 0 {
                let mid = with_route(s, v, routes.drop_first());
                assert(seq![routes[0]] + routes.drop_first() =~= routes);
                lemma_fit_grows(s, mid, s.vehicle_states[v].allocated_item_stack, capacity, routes);
                assert forall|u: Seq<char>|
                    u != v && #[trigger] mid.vehicle_states.contains_key(u) implies vehicle_fitted(
                    mid,
                    u,
                ) by {
                    assert(s.vehicle_states.contains_key(u));
                    lemma_fit_grows(
                        s,
                        mid,
                        s.vehicle_states[u].allocated_item_stack,
                        s.vehicles[u].capacity(),
                        s.vehicle_states[u].current_route,
                    );
                }
                lemma_fitting_stop_departs(mid, v, start, routes[0], routes.drop_first(), t);
            } else {
                lemma_rerouted_fits(s, v, routes);
            }
        },
        _ => {
            lemma_rerouted_fits(s, v, routes);
        },
    }
}

/// New stops that fit the planned stack of a vehicle keep all stops fitting.
pub proof fn lemma_rerouted_fits(s: SimulatorView, v: Seq<char>, routes: Seq<VehicleRouteView>)
    requires
        fitted(s),
        s.vehicle_states.contains_key(v),
        stops_fit(s, s.vehicle_states[v].allocated_item_stack, s.vehicles[v].capacity(), routes),
    ensures
        fitted(with_route(s, v, routes)),
{
    let next = with_route(s, v, routes);
    assert forall|u: Seq<char>| #[trigger] next.vehicle_states.contains_key(u) implies vehicle_fitted(
        next,
        u,
    ) by {
        if u == v {
            lemma_fit_grows(s, next, s.vehicle_states[v].allocated_item_stack, s.vehicles[v].capacity(), routes);
        } else {
            assert(s.vehicle_states.contains_key(u));
            lemma_fit_grows(
                s,
                next,
                s.vehicle_states[u].allocated_item_stack,
                s.vehicles[u].capacity(),
                s.vehicle_states[u].current_route,
            );
        }
    }
}

/// Installing a plan that the validator has passed keeps the stops of all
/// vehicles fitting, and fails only for a road or for the range of 64-bit integers.
pub proof fn lemma_install_all_fitted(
    then: SimulatorView,
    s: SimulatorView,
    vehicles: Seq<Seq<char>>,
    routes: Seq<Seq<VehicleRouteView>>,
    t: int,
)
    requires
        fitted(s),
        is_plan(vehicles, routes),
        forall|i: int|
            0 <= i < vehicles.len() ==> #[trigger] vehicle_checked(then, vehicles[i], routes[i]),
        untouched(then, s, vehicles),
    ensures
        match install_all(s, vehicles, routes, t) {
            Ok(next) => fitted(next),
            Err(e) => e == SimError::NoRoute || e == SimError::Overflow,
        },
    decreases vehicles.len(),
{
    if vehicles.len() > 0 {
        let v = vehicles[0];
        assert(vehicle_checked(then, vehicles[0], routes[0]));
        assert(untouched(then, s, seq![v])) by {
            assert forall|i: int| 0 <= i < seq![v].len() implies s.vehicle_states[
            #[trigger] seq![v][i]].allocated_item_stack
                == then.vehicle_states[seq![v][i]].allocated_item_stack by {
                assert(seq![v][i] == vehicles[0]);
            }
        }
        lemma_install_fitted(then, s, v, routes[0], t);
        if install_routes(s, v, routes[0], t).is_ok() {
            let s1 = install_routes(s, v, routes[0], t).unwrap();
            let rest = vehicles.drop_first();
            assert(rest.no_duplicates()) by {
                assert forall|i: int, j: int|
                    0 <= i < rest.len() && 0 <= j < rest.len() && i != j implies rest[i]
                    != rest[j] by {
                    assert(rest[i] == vehicles[i + 1] && rest[j] == vehicles[j + 1]);
                }
            }
            assert forall|i: int| 0 <= i < rest.len() implies #[trigger] vehicle_checked(
                then,
                rest[i],
                routes.drop_first()[i],
            ) by {
                assert(rest[i] == vehicles[i + 1]);
                assert(routes.drop_first()[i] == routes[i + 1]);
                assert(vehicle_checked(then, vehicles[i + 1], routes[i + 1]));
            }
            assert(untouched(then, s1, rest)) by {
                assert forall|i: int| 0 <= i < rest.len() implies s1.vehicle_states[
                #[trigger] rest[i]].allocated_item_stack
                    == then.vehicle_states[rest[i]].allocated_item_stack by {
                    assert(rest[i] == vehicles[i + 1]);
                    assert(vehicles[i + 1] != vehicles[0]);
                }
            }
            lemma_install_all_fitted(then, s1, rest, routes.drop_first(), t);
        }
    }
}

/// Over a call of the scheduler the stops of all vehicles keep fitting,
/// whatever the plan; the call fails only where the plan is refused, no
/// road leads to a first stop, or an instant or a distance leaves the range
/// of 64-bit integers.
pub proof fn law_fitted_over_timestep(
    s: SimulatorView,
    vehicles: Seq<Seq<char>>,
    routes: Seq<Seq<VehicleRouteView>>,
    t: int,
    cost: int,
)
    requires
        fitted(s),
        is_plan(vehicles, routes),
    ensures
        match timestep(s, vehicles, routes, t, cost) {
            Ok(next) => fitted(next),
            Err(e) => e is InvalidPlan || e == SimError::NoRoute || e == SimError::Overflow,
        },
{
    let s0 = SimulatorView { total_distance_last_timeslot: s.total_distance, ..s };
    lemma_fitted_frame(s, s0);
    let canonical = dedup_all(routes);
    if check_plan(s0, vehicles, canonical, s0.order_item_states).is_ok() {
        lemma_checked_plan(s0, vehicles, canonical, s0.order_item_states);
        lemma_install_all_fitted(s0, s0, vehicles, canonical, t);
        if install_all(s0, vehicles, canonical, t).is_ok() {
            let s1 = install_all(s0, vehicles, canonical, t).unwrap();
            if timestep(s, vehicles, routes, t, cost).is_ok() {
                lemma_fitted_frame(s1, timestep(s, vehicles, routes, t, cost).unwrap());
            }
        }
    }
}

/// A vehicle whose service has ended goes on without a fault for what its
/// next stop loads or unloads.
pub proof fn lemma_depart_fitted(s: SimulatorView, v: Seq<char>, f: Seq<char>, t: int)
    requires
        fitted(s),
        s.vehicle_states.contains_key(v),
        s.vehicle_states[v].position == VehiclePositionView::DoingWork(f),
    ensures
        match depart(s, v, f, t) {
            Ok(next) => fitted(next),
            Err(e) => e == SimError::NoRoute || e == SimError::Overflow,
        },
{
    let routes = s.vehicle_states[v].current_route;
    if routes.len() == 0 {
        lemma_fitted_frame(s, depart(s, v, f, t).unwrap());
    } else {
        let idle = SimulatorView {
            vehicle_states: s.vehicle_states.insert(
                v,
                VehicleStateView {
                    position: VehiclePositionView::Idle(f),
                    current_route: routes.drop_first(),
                    ..s.vehicle_states[v]
                },
            ),
            ..s
        };
        assert(seq![routes[0]] + routes.drop_first() =~= routes);
        assert(vehicle_fitted(s, v));
        lemma_fit_grows(
            s,
            idle,
            s.vehicle_states[v].allocated_item_stack,
            s.vehicles[v].capacity(),
            routes,
        );
        assert forall|u: Seq<char>|
            u != v && #[trigger] idle.vehicle_states.contains_key(u) implies vehicle_fitted(
            idle,
            u,
        ) by {
            assert(s.vehicle_states.contains_key(u));
            lemma_fit_grows(
                s,
                idle,
                s.vehicle_states[u].allocated_item_stack,
                s.vehicles[u].capacity(),
                s.vehicle_states[u].current_route,
            );
        }
        lemma_fitting_stop_departs(idle, v, f, routes[0], routes.drop_first(), t);
    }
}

} // verus!
