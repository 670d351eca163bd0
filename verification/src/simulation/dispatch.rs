//! Calling the scheduler, and the event loop: what a scheduler is shown, how
//! its plan is installed, and how events are taken from the queue.

use crate::model::order::OrderMap;
use crate::model::order_item::{OrderItemId, OrderItemIdView, OrderItemMap, OrderItemView};
use crate::model::table::{duplicate_vec, Duplicate, MapType};
use crate::model::vehicle_info::VehicleId;
use crate::schedule::{dedup_all, deduplicate, Scheduler, SchedulerArgs};
use crate::simulation::accounting::{
    docks_accounted, law_docks_over_event, law_docks_over_timestep,
};
use crate::simulation::callback::SimulationCallback;
use crate::simulation::engagement::lemma_same_parts;
use crate::simulation::fitting::{is_plan, lemma_fitted_frame};
use crate::simulation::soundness::{
    law_sound_over_event, law_sound_over_timestep, may_fail, sound,
};
use crate::simulation::rules::{
    all_delivered, begin_transporting, finish_load, fits, intervals, order_arrival, refines,
    vehicle_approached_dock, vehicle_arrival, SimError, SimulatorView,
};
use crate::simulation::sim_event::{SimEvent, SimulatorEventData, SimulatorEventDataView};
use crate::simulation::simulator::{lemma_take_contains, Simulator};
use crate::simulation::state::{
    OrderItemState, Plan, VehiclePosition, VehiclePositionView, VehicleRoute, VehicleRouteView,
    VehicleStateView,
};
use crate::simulation::validator::check_plan;
use crate::simulation::wall_clock::{elapsed, nanoseconds, start_watch};
use std::collections::VecDeque;
use crate::simulation::custody::lemma_same_custody;
use vstd::prelude::*;

verus! {

/// Whether something created at the time of day `creation_time` is known at `deadline`.
pub open spec fn visible(s: SimulatorView, deadline: Option<i64>, creation_time: int) -> bool {
    match deadline {
        None => true,
        Some(d) => s.initial_date + creation_time <= d,
    }
}

/// The copy of a simulator that knows only the orders placed by `deadline`,
/// and their items. Everything else is as in the simulator it was made from.
pub open spec fn fork_view(s: SimulatorView, deadline: Option<i64>) -> SimulatorView {
    SimulatorView {
        orders: Map::new(
            |k: Seq<char>|
                s.orders.contains_key(k) && visible(s, deadline, s.orders[k].creation_time),
            |k: Seq<char>| s.orders[k],
        ),
        order_items: Map::new(
            |k: OrderItemIdView|
                s.order_items.contains_key(k) && visible(
                    s,
                    deadline,
                    s.order_items[k].creation_time,
                ),
            |k: OrderItemIdView| s.order_items[k],
        ),
        ..s
    }
}

/// The items that a scheduler is shown: those of the catalogue that are no
/// longer unavailable.
pub open spec fn available_items(s: SimulatorView) -> Map<OrderItemIdView, OrderItemView> {
    Map::new(
        |k: OrderItemIdView|
            s.order_item_states.contains_key(k) && s.order_item_states[k]
                != OrderItemState::Unavailable && s.order_items.contains_key(k),
        |k: OrderItemIdView| s.order_items[k],
    )
}

/// The planned stack of every vehicle.
pub open spec fn planned_stacks(s: SimulatorView) -> Map<Seq<char>, Seq<OrderItemIdView>> {
    Map::new(
        |v: Seq<char>| s.vehicle_states.contains_key(v),
        |v: Seq<char>| s.vehicle_states[v].allocated_item_stack,
    )
}

/// The position of every vehicle.
pub open spec fn positions(s: SimulatorView) -> Map<Seq<char>, VehiclePositionView> {
    Map::new(
        |v: Seq<char>| s.vehicle_states.contains_key(v),
        |v: Seq<char>| s.vehicle_states[v].position,
    )
}

/// The state in which `v` has the stops `routes` before it.
pub open spec fn with_route(s: SimulatorView, v: Seq<char>, routes: Seq<VehicleRouteView>) -> SimulatorView {
    SimulatorView {
        vehicle_states: s.vehicle_states.insert(
            v,
            VehicleStateView { current_route: routes, ..s.vehicle_states[v] },
        ),
        ..s
    }
}

/// A vehicle is given new stops in place of those it had; if it is idle and
/// there is a stop, it leaves for the first at once.
pub open spec fn install_routes(
    s: SimulatorView,
    v: Seq<char>,
    routes: Seq<VehicleRouteView>,
    t: int,
) -> Result<SimulatorView, SimError> {
    if !s.vehicle_states.contains_key(v) {
        Err(SimError::UnknownVehicle)
    } else {
        match s.vehicle_states[v].position {
            VehiclePositionView::Idle(start) => if routes.len() > 0 {
                begin_transporting(with_route(s, v, routes.drop_first()), v, start, routes[0], t)
            } else {
                Ok(with_route(s, v, routes))
            },
            _ => Ok(with_route(s, v, routes)),
        }
    }
}

/// The vehicles of a plan are given their stops, in the order of their names.
pub open spec fn install_all(
    s: SimulatorView,
    vehicles: Seq<Seq<char>>,
    routes: Seq<Seq<VehicleRouteView>>,
    t: int,
) -> Result<SimulatorView, SimError>
    decreases vehicles.len(),
{
    if vehicles.len() == 0 || routes.len() == 0 {
        Ok(s)
    } else {
        match install_routes(s, vehicles[0], routes[0], t) {
            Err(e) => Err(e),
            Ok(s1) => install_all(s1, vehicles.drop_first(), routes.drop_first(), t),
        }
    }
}

/// The kernel after a plan has been refused: as it was, with the distance
/// since the last call of the scheduler counted anew. No stop, position,
/// stack, item state or event has changed.
pub open spec fn refused(s: SimulatorView) -> SimulatorView {
    SimulatorView { total_distance_last_timeslot: s.total_distance, ..s }
}

/// What a call of the scheduler at `t` does to the kernel when the plan that
/// comes back names `vehicles` with the stops `routes`, and took `cost`
/// nanoseconds of real time: the plan is brought into canonical form and
/// validated; a valid plan is installed; and unless every item is
/// delivered, the next call is scheduled.
pub open spec fn timestep(
    s: SimulatorView,
    vehicles: Seq<Seq<char>>,
    routes: Seq<Seq<VehicleRouteView>>,
    t: int,
    cost: int,
) -> Result<SimulatorView, SimError> {
    let s0 = SimulatorView { total_distance_last_timeslot: s.total_distance, ..s };
    match check_plan(s0, vehicles, dedup_all(routes), s0.order_item_states) {
        Err(reason) => Err(SimError::InvalidPlan(reason)),
        Ok(()) => match install_all(s0, vehicles, dedup_all(routes), t) {
            Err(e) => Err(e),
            Ok(s1) => if all_delivered(s1.order_item_states) {
                Ok(s1)
            } else if !fits(t + intervals(cost, s.time_interval) * s.time_interval) {
                Err(SimError::Overflow)
            } else {
                Ok(
                    s1.push(
                        SimulatorEventDataView::UpdateTimestep,
                        t + intervals(cost, s.time_interval) * s.time_interval,
                    ),
                )
            },
        },
    }
}

/// What an event other than a call of the scheduler does at the instant `t`.
pub open spec fn dispatch(s: SimulatorView, data: SimulatorEventDataView, t: int) -> Result<
    SimulatorView,
    SimError,
> {
    match data {
        SimulatorEventDataView::OrderArrival { order_id, order_item_ids } => order_arrival(
            s,
            order_item_ids,
        ),
        SimulatorEventDataView::VehicleArrival { vehicle_id, factory_id, work } => vehicle_arrival(
            s,
            vehicle_id,
            factory_id,
            work,
            t,
        ),
        SimulatorEventDataView::VehicleApproachedDock {
            vehicle_id,
            factory_id,
            work,
        } => vehicle_approached_dock(s, vehicle_id, factory_id, work, t),
        SimulatorEventDataView::FinishLoading {
            vehicle_id,
            factory_id,
            delivered_items,
        } => finish_load(s, vehicle_id, factory_id, delivered_items, t),
        SimulatorEventDataView::UpdateTimestep => Ok(s),
    }
}

/// The state when the next event has been taken from the queue and the clock
/// stands at its time.
pub open spec fn taken(s: SimulatorView) -> SimulatorView {
    SimulatorView { events: s.events.drop_first(), clock: s.events[0].1 as int, ..s }
}

/// `b` is what one step makes of `a`: the next event is taken and handled
/// without a failure, a call of the scheduler with some plan that took some
/// time. Nothing is pending in `a` only if `b` is `a`.
pub open spec fn follows(a: SimulatorView, b: SimulatorView) -> bool {
    if a.events.len() == 0 {
        b == a
    } else if a.events[0].0 is UpdateTimestep {
        exists|vehicles: Seq<Seq<char>>, routes: Seq<Seq<VehicleRouteView>>, cost: int|
            is_plan(vehicles, routes) && 0 <= cost && #[trigger] timestep(
                taken(a),
                vehicles,
                routes,
                a.events[0].1 as int,
                cost,
            ) == Ok::<SimulatorView, SimError>(b)
    } else {
        dispatch(taken(a), a.events[0].0, a.events[0].1 as int) == Ok::<SimulatorView, SimError>(b)
    }
}

/// The step from `a` fails with `e`: the next event is taken, and handling
/// it meets the fault `e`; for a call of the scheduler, with some plan that
/// took some time.
pub open spec fn fails(a: SimulatorView, e: SimError) -> bool {
    &&& a.events.len() > 0
    &&& if a.events[0].0 is UpdateTimestep {
        exists|vehicles: Seq<Seq<char>>, routes: Seq<Seq<VehicleRouteView>>, cost: int|
            is_plan(vehicles, routes) && 0 <= cost && #[trigger] timestep(
                taken(a),
                vehicles,
                routes,
                a.events[0].1 as int,
                cost,
            ) == Err::<SimulatorView, SimError>(e)
    } else {
        dispatch(taken(a), a.events[0].0, a.events[0].1 as int) == Err::<SimulatorView, SimError>(
            e,
        )
    }
}

/// An event is pending that is not later than `until`.
pub open spec fn due(s: SimulatorView, until: int) -> bool {
    s.events.len() > 0 && s.events[0].1 <= until
}

/// Each state of the sequence but the last has an event due by `until`, and
/// the state behind it is what one step makes of it.
pub open spec fn is_run_until(path: Seq<SimulatorView>, until: int) -> bool {
    forall|i: int|
        0 <= i < path.len() - 1 ==> due(#[trigger] path[i], until) && follows(path[i], path[i + 1])
}

/// `b` is what `n` steps make of `a`, each of which handles an event that is
/// due by `until`.
pub open spec fn reaches_by(a: SimulatorView, b: SimulatorView, n: nat, until: int) -> bool {
    exists|path: Seq<SimulatorView>|
        #[trigger] is_run_until(path, until) && path.len() == n + 1 && path[0] == a && path[n as int]
            == b
}

/// Steps that handle events due by `until` lead from `a` to a state whose
/// next event is due as well, and handling that event fails with `e`.
pub open spec fn stumbles(a: SimulatorView, until: int, e: SimError) -> bool {
    exists|path: Seq<SimulatorView>|
        #[trigger] is_run_until(path, until) && path.len() > 0 && path[0] == a && due(
            path.last(),
            until,
        ) && fails(path.last(), e)
}

/// Each state of the sequence is what one step makes of the state before it.
pub open spec fn is_run(path: Seq<SimulatorView>) -> bool {
    forall|i: int| 0 <= i < path.len() - 1 ==> follows(#[trigger] path[i], path[i + 1])
}

/// `b` is what `n` steps make of `a`.
pub open spec fn reaches(a: SimulatorView, b: SimulatorView, n: nat) -> bool {
    exists|path: Seq<SimulatorView>|
        #[trigger] is_run(path) && path.len() == n + 1 && path[0] == a && path[n as int] == b
}

/// What one step of the simulation did.
#[derive(Debug, Clone, Copy, PartialEq, Eq, Structural)]
pub enum Step {
    /// No event was pending.
    Idle,
    /// An event was dispatched.
    Dispatched,
    /// The scheduler was called, every item is delivered, and no further call is scheduled.
    Finished,
}

/// The outcome of a step without what it says of the run.
pub open spec fn plain(r: Result<Step, SimError>) -> Result<(), SimError> {
    match r {
        Ok(_) => Ok(()),
        Err(e) => Err(e),
    }
}

/// A copy of the stops as a queue.
#[verifier::loop_isolation(false)]
fn queue_of(routes: &Vec<VehicleRoute>) -> (r: VecDeque<VehicleRoute>)
    ensures
        r.deep_view() == routes.deep_view(),
{
    let mut r: VecDeque<VehicleRoute> = VecDeque::new();
    let mut i: usize = 0;
    while i < routes.len()
        invariant
            i <= routes.len(),
            r@.len() == i,
            forall|j: int| 0 <= j < i ==> r@[j].deep_view() == routes@[j].deep_view(),
        decreases routes.len() - i,
    {
        r.push_back(routes[i].duplicate());
        i += 1;
    }
    assert(r.deep_view() =~= routes.deep_view());
    r
}

impl Simulator {
    #[verifier::loop_isolation(false)]
    fn visible_orders(&self, deadline: i64) -> (r: OrderMap)
        ensures
            r@ == fork_view(self@, Some(deadline)).orders,
    {
        let ghost s = self@;
        let ghost keys = self.orders.keys();
        let n: usize = self.orders.len();
        proof {
            self.orders.lemma_wf();
        }
        let mut r: OrderMap = MapType::new();
        let mut i: usize = 0;
        while i < n
            invariant
                i <= n,
                forall|k: Seq<char>|
                    r@.contains_key(k) <==> keys.take(i as int).contains(k) && visible(
                        s,
                        Some(deadline),
                        s.orders[k].creation_time,
                    ),
                forall|k: Seq<char>| r@.contains_key(k) ==> r@[k] == s.orders[k],
            decreases n - i,
        {
            let order = self.orders.value_at(i);
            let ghost k = keys[i as int];
            assert(s.orders[k] == order@);
            proof {
                assert forall|x: Seq<char>| keys.take(i + 1).contains(x) <==> (keys.take(
                    i as int,
                ).contains(x) || x == k) by {
                    lemma_take_contains(keys, i as int, x);
                }
            }
            if self.initial_date as i128 + order.creation_time as i128 <= deadline as i128 {
                r.insert(self.orders.key_at(i).duplicate(), order.duplicate());
            }
            i += 1;
        }
        assert(keys.take(n as int) =~= keys);
        assert(r@ =~= fork_view(s, Some(deadline)).orders);
        r
    }

    #[verifier::loop_isolation(false)]
    fn visible_items(&self, deadline: i64) -> (r: OrderItemMap)
        ensures
            r@ == fork_view(self@, Some(deadline)).order_items,
    {
        let ghost s = self@;
        let ghost keys = self.order_items.keys();
        let n: usize = self.order_items.len();
        proof {
            self.order_items.lemma_wf();
        }
        let mut r: OrderItemMap = MapType::new();
        let mut i: usize = 0;
        while i < n
            invariant
                i <= n,
                forall|k: OrderItemIdView|
                    r@.contains_key(k) <==> keys.take(i as int).contains(k) && visible(
                        s,
                        Some(deadline),
                        s.order_items[k].creation_time,
                    ),
                forall|k: OrderItemIdView| r@.contains_key(k) ==> r@[k] == s.order_items[k],
            decreases n - i,
        {
            let item = self.order_items.value_at(i);
            let ghost k = keys[i as int];
            assert(s.order_items[k] == item@);
            proof {
                assert forall|x: OrderItemIdView| keys.take(i + 1).contains(x) <==> (keys.take(
                    i as int,
                ).contains(x) || x == k) by {
                    lemma_take_contains(keys, i as int, x);
                }
            }
            if self.initial_date as i128 + item.creation_time as i128 <= deadline as i128 {
                r.insert(self.order_items.key_at(i).duplicate(), item.duplicate());
            }
            i += 1;
        }
        assert(keys.take(n as int) =~= keys);
        assert(r@ =~= fork_view(s, Some(deadline)).order_items);
        r
    }

    /// A copy of the simulator that shares nothing with it. With a deadline,
    /// the copy knows only the orders placed by then, and their items.
    pub fn fork(&self, static_deadline: Option<i64>) -> (r: Simulator)
        ensures
            r@ == fork_view(self@, static_deadline),
            self.wf() ==> r.wf(),
            docks_accounted(self@) ==> docks_accounted(r@),
            sound(self@) ==> sound(r@),
    {
        let ghost s = self@;
        let (orders, order_items) = match static_deadline {
            Some(deadline) => (self.visible_orders(deadline), self.visible_items(deadline)),
            None => {
                let orders = self.orders.duplicate();
                let order_items = self.order_items.duplicate();
                assert(orders@ =~= fork_view(s, None).orders);
                assert(order_items@ =~= fork_view(s, None).order_items);
                (orders, order_items)
            },
        };
        let r = Simulator {
            routes: self.routes.duplicate(),
            factories: self.factories.duplicate(),
            vehicles: self.vehicles.duplicate(),
            orders,
            order_items,
            initial_date: self.initial_date,
            time_interval: self.time_interval,
            vehicle_states: self.vehicle_states.duplicate(),
            factory_states: self.factory_states.duplicate(),
            order_item_states: self.order_item_states.duplicate(),
            dock_approaching_time: self.dock_approaching_time,
            events: self.events.duplicate(),
            clock: self.clock,
            total_distance: self.total_distance,
            total_distance_last_timeslot: self.total_distance_last_timeslot,
        };
        proof {
            if self.wf() {
                assert(r@.order_items.dom().subset_of(r@.order_item_states.dom()));
                assert(r@.catalogue_wf());
            }
            if sound(self@) {
                lemma_same_parts(self@, r@, Set::empty());
                lemma_fitted_frame(self@, r@);
                lemma_same_custody(self@, r@);
            }
        }
        r
    }

    #[verifier::loop_isolation(false)]
    fn known_items(&self) -> (r: OrderItemMap)
        ensures
            r@ == available_items(self@),
    {
        let ghost s = self@;
        let ghost keys = self.order_item_states.keys();
        let n: usize = self.order_item_states.len();
        proof {
            self.order_item_states.lemma_wf();
        }
        let mut r: OrderItemMap = MapType::new();
        let mut i: usize = 0;
        while i < n
            invariant
                i <= n,
                forall|k: OrderItemIdView|
                    r@.contains_key(k) <==> keys.take(i as int).contains(k) && available_items(
                        s,
                    ).contains_key(k),
                forall|k: OrderItemIdView| r@.contains_key(k) ==> r@[k] == s.order_items[k],
            decreases n - i,
        {
            let state = self.order_item_states.value_at(i);
            let key = self.order_item_states.key_at(i);
            let ghost k = keys[i as int];
            assert(s.order_item_states[k] == *state);
            proof {
                assert forall|x: OrderItemIdView| keys.take(i + 1).contains(x) <==> (keys.take(
                    i as int,
                ).contains(x) || x == k) by {
                    lemma_take_contains(keys, i as int, x);
                }
            }
            if *state != OrderItemState::Unavailable {
                match self.order_items.get(key) {
                    Some(item) => {
                        r.insert(key.duplicate(), item.duplicate());
                    },
                    None => {},
                }
            }
            i += 1;
        }
        assert(keys.take(n as int) =~= keys);
        assert(r@ =~= available_items(s));
        r
    }

    #[verifier::loop_isolation(false)]
    fn stacks(&self) -> (r: MapType<VehicleId, Vec<OrderItemId>>)
        ensures
            r@ == planned_stacks(self@),
    {
        let ghost s = self@;
        let ghost keys = self.vehicle_states.keys();
        let n: usize = self.vehicle_states.len();
        proof {
            self.vehicle_states.lemma_wf();
        }
        let mut r: MapType<VehicleId, Vec<OrderItemId>> = MapType::new();
        let mut i: usize = 0;
        while i < n
            invariant
                i <= n,
                forall|k: Seq<char>| r@.contains_key(k) <==> keys.take(i as int).contains(k),
                forall|k: Seq<char>|
                    r@.contains_key(k) ==> r@[k] == s.vehicle_states[k].allocated_item_stack,
            decreases n - i,
        {
            let state = self.vehicle_states.value_at(i);
            let ghost k = keys[i as int];
            assert(s.vehicle_states[k] == state@);
            proof {
                assert forall|x: Seq<char>| keys.take(i + 1).contains(x) <==> (keys.take(
                    i as int,
                ).contains(x) || x == k) by {
                    lemma_take_contains(keys, i as int, x);
                }
            }
            r.insert(
                self.vehicle_states.key_at(i).duplicate(),
                duplicate_vec(&state.allocated_item_stack),
            );
            assert forall|x: Seq<char>| r@.contains_key(x) <==> keys.take(i + 1).contains(x) by {
                lemma_take_contains(keys, i as int, x);
            }
            i += 1;
        }
        assert(keys.take(n as int) =~= keys);
        assert(r@ =~= planned_stacks(s));
        r
    }

    #[verifier::loop_isolation(false)]
    fn vehicle_positions(&self) -> (r: MapType<VehicleId, VehiclePosition>)
        ensures
            r@ == positions(self@),
    {
        let ghost s = self@;
        let ghost keys = self.vehicle_states.keys();
        let n: usize = self.vehicle_states.len();
        proof {
            self.vehicle_states.lemma_wf();
        }
        let mut r: MapType<VehicleId, VehiclePosition> = MapType::new();
        let mut i: usize = 0;
        while i < n
            invariant
                i <= n,
                forall|k: Seq<char>| r@.contains_key(k) <==> keys.take(i as int).contains(k),
                forall|k: Seq<char>| r@.contains_key(k) ==> r@[k] == s.vehicle_states[k].position,
            decreases n - i,
        {
            let state = self.vehicle_states.value_at(i);
            let ghost k = keys[i as int];
            assert(s.vehicle_states[k] == state@);
            proof {
                assert forall|x: Seq<char>| keys.take(i + 1).contains(x) <==> (keys.take(
                    i as int,
                ).contains(x) || x == k) by {
                    lemma_take_contains(keys, i as int, x);
                }
            }
            r.insert(self.vehicle_states.key_at(i).duplicate(), state.position.duplicate());
            assert forall|x: Seq<char>| r@.contains_key(x) <==> keys.take(i + 1).contains(x) by {
                lemma_take_contains(keys, i as int, x);
            }
            i += 1;
        }
        assert(keys.take(n as int) =~= keys);
        assert(r@ =~= positions(s));
        r
    }

    /// What a scheduler is shown at the instant `time`. The distance driven
    /// since the call before is handed over, and counted from here anew.
    pub fn scheduler_args(&mut self, time: i64) -> (args: SchedulerArgs)
        requires
            old(self).wf(),
        ensures
            final(self)@ == (SimulatorView {
                total_distance_last_timeslot: old(self)@.total_distance,
                ..old(self)@
            }),
            final(self).wf(),
            sound(old(self)@) ==> sound(final(self)@),
            args.items@ == available_items(old(self)@),
            args.item_states@ == old(self)@.order_item_states,
            args.vehicle_stacks@ == planned_stacks(old(self)@),
            args.vehicle_positions@ == positions(old(self)@),
            args.static_simulator@ == fork_view(final(self)@, Some(time)),
            args.static_simulator.wf(),
            args.time == time,
            args.elapsed_distance == old(self)@.total_distance
                - old(self)@.total_distance_last_timeslot,
    {
        let elapsed_distance: i64 = self.total_distance - self.total_distance_last_timeslot;
        self.total_distance_last_timeslot = self.total_distance;
        proof {
            if sound(old(self)@) {
                lemma_same_parts(old(self)@, self@, Set::empty());
                lemma_fitted_frame(old(self)@, self@);
                lemma_same_custody(old(self)@, self@);
            }
        }
        SchedulerArgs {
            items: self.known_items(),
            item_states: self.order_item_states.duplicate(),
            vehicle_stacks: self.stacks(),
            vehicle_positions: self.vehicle_positions(),
            static_simulator: self.fork(Some(time)),
            time,
            elapsed_distance,
        }
    }
}

/// The product of two numbers that are at least one is at least each of them.
pub proof fn lemma_product_bounds(k: int, step: int)
    requires
        1 <= k,
        1 <= step,
    ensures
        k <= k * step,
        step <= k * step,
{
    assert(k <= k * step) by (nonlinear_arith)
        requires
            1 <= k,
            1 <= step,
    ;
    assert(step <= k * step) by (nonlinear_arith)
        requires
            1 <= k,
            1 <= step,
    ;
}

impl Simulator {
    /// Gives a vehicle new stops in place of those it had; an idle vehicle
    /// leaves for the first at once. After a failure the simulator is
    /// well-formed, and nothing more is said of its state.
    pub fn install_routes(&mut self, vehicle_id: &VehicleId, routes: &Vec<VehicleRoute>, time: i64) -> (r:
        Result<(), SimError>)
        requires
            old(self).wf(),
            old(self)@.clock <= time,
        ensures
            final(self).wf(),
            final(self)@.clock == old(self)@.clock,
            refines(
                r,
                install_routes(old(self)@, vehicle_id@, routes.deep_view(), time as int),
                final(self)@,
            ),
    {
        let ghost before = self@;
        let ghost v = vehicle_id@;
        let ghost list = routes.deep_view();
        let p: usize = match self.vehicle_states.position(vehicle_id) {
            Some(p) => p,
            None => {
                return Err(SimError::UnknownVehicle);
            },
        };
        let state = self.vehicle_states.value_mut_at(p);
        state.current_route = queue_of(routes);
        let start = match &state.position {
            VehiclePosition::Idle(at) => Some(at.duplicate()),
            _ => None,
        };
        let first = match &start {
            Some(_) => state.current_route.pop_front(),
            None => None,
        };
        proof {
            let mid = self@;
            assert(mid.vehicle_states.dom() =~= before.vehicle_states.dom());
            assert(mid.within_capacity());
            if start.is_some() && list.len() > 0 {
                assert(mid.vehicle_states[v].current_route =~= list.drop_first());
                assert(mid.vehicle_states =~= with_route(
                    before,
                    v,
                    list.drop_first(),
                ).vehicle_states);
            } else {
                assert(mid.vehicle_states[v].current_route =~= list);
                assert(mid.vehicle_states =~= with_route(before, v, list).vehicle_states);
            }
        }
        match (start, first) {
            (Some(at), Some(route)) => self.begin_vehicle_transporting(
                vehicle_id.duplicate(),
                at,
                route,
                time,
            ),
            _ => Ok(()),
        }
    }

    /// Whether every item is delivered.
    #[verifier::loop_isolation(false)]
    pub fn all_items_delivered(&self) -> (r: bool)
        ensures
            r == all_delivered(self@.order_item_states),
    {
        let n: usize = self.order_item_states.len();
        proof {
            self.order_item_states.lemma_wf();
        }
        let ghost keys = self.order_item_states.keys();
        let ghost states = self@.order_item_states;
        let mut i: usize = 0;
        while i < n
            invariant
                i <= n,
                forall|j: int| 0 <= j < i ==> states[#[trigger] keys[j]].index() == 4,
            decreases n - i,
        {
            if !self.order_item_states.value_at(i).is_delivered() {
                assert(states.contains_key(keys[i as int]));
                return false;
            }
            i += 1;
        }
        assert forall|k: OrderItemIdView| #[trigger] states.contains_key(k) implies states[k].index()
            == 4 by {
            let j = keys.index_of(k);
            assert(keys[j] == k);
        }
        true
    }

    /// The instant of the next call of the scheduler after a call at `time`
    /// that took `cost` nanoseconds; `None` where it is no 64-bit integer.
    fn next_tick(&self, time: i64, cost: u128) -> (r: Option<i64>)
        requires
            self.wf(),
        ensures
            r.is_some() == fits(time + intervals(cost as int, self@.time_interval) * self@.time_interval),
            r.is_some() ==> r.unwrap() == time + intervals(cost as int, self@.time_interval)
                * self@.time_interval,
            r.is_some() ==> r.unwrap() > time,
    {
        let step: u128 = self.time_interval as u128;
        let unit: u128 = step * 1_000_000_000;
        let whole: u128 = cost / unit;
        let ghost k = intervals(cost as int, self@.time_interval);
        assert(k == whole + 1);
        proof {
            lemma_product_bounds(k, step as int);
        }
        if whole >= 0x1_0000_0000_0000_0000 {
            return None;
        }
        let count: u128 = whole + 1;
        assert(count * step <= 0x1_0000_0000_0000_0001 * 0x1_0000_0000_0000) by (nonlinear_arith)
            requires
                count <= 0x1_0000_0000_0000_0001,
                step <= 0x1_0000_0000_0000,
        ;
        let ahead: u128 = count * step;
        let at: i128 = time as i128 + ahead as i128;
        if at > i64::MAX as i128 {
            None
        } else {
            Some(at as i64)
        }
    }

    /// Takes a plan in: brings it into canonical form, validates it, installs
    /// it, and schedules the next call of the scheduler unless every item is
    /// delivered, which the result tells. A plan that is refused changes
    /// nothing but the count of the distance since the last call. After
    /// another failure the simulator is well-formed, and nothing more is
    /// said of its state.
    #[verifier::loop_isolation(false)]
    pub fn apply_plan(&mut self, plan: Plan, time: i64, cost: u128) -> (r: Result<bool, SimError>)
        requires
            old(self).wf(),
            old(self)@.clock <= time,
        ensures
            final(self).wf(),
            final(self)@.clock == old(self)@.clock,
            match r {
                Ok(done) => timestep(
                    old(self)@,
                    plan.keys(),
                    plan.values(),
                    time as int,
                    cost as int,
                ) == Ok::<SimulatorView, SimError>(final(self)@) && done == all_delivered(
                    final(self)@.order_item_states,
                ),
                Err(e) => timestep(old(self)@, plan.keys(), plan.values(), time as int, cost as int)
                    == Err::<SimulatorView, SimError>(e),
            },
            r matches Err(SimError::InvalidPlan(_)) ==> final(self)@ == refused(old(self)@),
    {
        let ghost before = self@;
        let ghost raw = plan.values();
        let mut plan = plan;
        self.total_distance_last_timeslot = self.total_distance;
        let ghost s0 = self@;
        deduplicate(&mut plan);
        let ghost keys = plan.keys();
        let ghost values = plan.values();
        match self.check_planned_routes(&plan) {
            Err(reason) => {
                return Err(SimError::InvalidPlan(reason));
            },
            Ok(()) => {},
        }
        let n: usize = plan.len();
        assert(keys.skip(0) =~= keys);
        assert(values.skip(0) =~= values);
        let mut i: usize = 0;
        while i < n
            invariant
                i <= n,
                self.wf(),
                self@.clock == before.clock,
                self@.time_interval == before.time_interval,
                install_all(s0, keys, values, time as int) == install_all(
                    self@,
                    keys.skip(i as int),
                    values.skip(i as int),
                    time as int,
                ),
            decreases n - i,
        {
            proof {
                assert(keys.skip(i as int)[0] == keys[i as int]);
                assert(values.skip(i as int)[0] == values[i as int]);
                assert(keys.skip(i as int).drop_first() =~= keys.skip(i + 1));
                assert(values.skip(i as int).drop_first() =~= values.skip(i + 1));
            }
            match self.install_routes(plan.key_at(i), plan.value_at(i), time) {
                Err(e) => {
                    return Err(e);
                },
                Ok(()) => {},
            }
            i += 1;
        }
        let done = self.all_items_delivered();
        if !done {
            match self.next_tick(time, cost) {
                None => {
                    return Err(SimError::Overflow);
                },
                Some(at) => {
                    self.schedule(SimulatorEventData::UpdateTimestep, at);
                },
            }
        }
        Ok(done)
    }

    /// Calls the scheduler, and takes its plan in. The observers are told
    /// what the scheduler is given and what it plans. Whatever the plan and
    /// however long the call took, the kernel does with them what `timestep`
    /// says.
    #[verifier::loop_isolation(false)]
    pub fn handle_timestep<S: Scheduler>(
        &mut self,
        time: i64,
        scheduler: &mut S,
        callbacks: &mut Vec<Box<dyn SimulationCallback>>,
    ) -> (r: Result<bool, SimError>)
        requires
            old(self).wf(),
            old(self)@.clock <= time,
        ensures
            final(self).wf(),
            final(self)@.clock == old(self)@.clock,
            exists|vehicles: Seq<Seq<char>>, routes: Seq<Seq<VehicleRouteView>>, cost: int|
                is_plan(vehicles, routes) && 0 <= cost && plain_outcome(r) == outcome(
                    #[trigger] timestep(old(self)@, vehicles, routes, time as int, cost),
                ) && (r.is_ok() ==> timestep(old(self)@, vehicles, routes, time as int, cost)
                    == Ok::<SimulatorView, SimError>(final(self)@)),
            r matches Ok(done) ==> done == all_delivered(final(self)@.order_item_states),
            r matches Err(SimError::InvalidPlan(_)) ==> final(self)@ == refused(old(self)@),
    {
        let watch = start_watch();
        let args = self.scheduler_args(time);
        let ghost counted = self@;
        let mut i: usize = 0;
        while i < callbacks.len()
            invariant
                i <= callbacks.len(),
            decreases callbacks.len() - i,
        {
            callbacks[i].visit_dispatch_input(&args);
            i += 1;
        }
        let plan = scheduler.schedule(args);
        let mut j: usize = 0;
        while j < callbacks.len()
            invariant
                j <= callbacks.len(),
            decreases callbacks.len() - j,
        {
            callbacks[j].visit_dispatch_output(&plan);
            j += 1;
        }
        let span = elapsed(&watch);
        let cost: u128 = nanoseconds(&span);
        let ghost vehicles = plan.keys();
        let ghost routes = plan.values();
        proof {
            use_type_invariant(&plan);
            plan.lemma_wf();
        }
        let r = self.apply_plan(plan, time, cost);
        proof {
            let rule = timestep(old(self)@, vehicles, routes, time as int, cost as int);
            assert(rule == timestep(counted, vehicles, routes, time as int, cost as int));
            assert(is_plan(vehicles, routes) && 0 <= cost && plain_outcome(r) == outcome(rule));
            assert(refused(counted) == refused(old(self)@));
        }
        r
    }
}

/// The outcome of a rule without the state it leads to.
pub open spec fn outcome(rule: Result<SimulatorView, SimError>) -> Result<(), SimError> {
    match rule {
        Ok(_) => Ok(()),
        Err(e) => Err(e),
    }
}

/// The outcome of a call of the scheduler without what it says of the run.
pub open spec fn plain_outcome(r: Result<bool, SimError>) -> Result<(), SimError> {
    match r {
        Ok(_) => Ok(()),
        Err(e) => Err(e),
    }
}

impl Simulator {
    /// Handles one event at its instant: tells the observers of it, and then
    /// does what the kind of the event asks for.
    #[verifier::loop_isolation(false)]
    pub fn handle_event<S: Scheduler>(
        &mut self,
        event_data: SimulatorEventData,
        time: i64,
        scheduler: &mut S,
        callbacks: &mut Vec<Box<dyn SimulationCallback>>,
    ) -> (r: Result<Step, SimError>)
        requires
            old(self).wf(),
            old(self)@.clock <= time,
        ensures
            final(self).wf(),
            final(self)@.clock == old(self)@.clock,
            r != Ok::<Step, SimError>(Step::Idle),
            !(event_data@ is UpdateTimestep) ==> refines(
                plain(r),
                dispatch(old(self)@, event_data@, time as int),
                final(self)@,
            ) && r != Ok::<Step, SimError>(Step::Finished),
            event_data@ is UpdateTimestep ==> exists|
                vehicles: Seq<Seq<char>>,
                routes: Seq<Seq<VehicleRouteView>>,
                cost: int,
            |
                is_plan(vehicles, routes) && 0 <= cost && plain(r) == outcome(
                    #[trigger] timestep(old(self)@, vehicles, routes, time as int, cost),
                ) && (r.is_ok() ==> timestep(old(self)@, vehicles, routes, time as int, cost)
                    == Ok::<SimulatorView, SimError>(final(self)@)),
            event_data@ is UpdateTimestep && r.is_ok() ==> (r == Ok::<Step, SimError>(
                Step::Finished,
            ) <==> all_delivered(final(self)@.order_item_states)),
            event_data@ is UpdateTimestep ==> (r matches Err(SimError::InvalidPlan(_))
                ==> final(self)@ == refused(old(self)@)),
    {
        let sim_event: SimEvent = (event_data, time);
        let mut i: usize = 0;
        while i < callbacks.len()
            invariant
                i <= callbacks.len(),
            decreases callbacks.len() - i,
        {
            callbacks[i].visit_event(&sim_event);
            i += 1;
        }
        let (event_data, time) = sim_event;
        match event_data {
            SimulatorEventData::OrderArrival { order_id, order_item_ids } => {
                match self.handle_order_arrival(order_id, order_item_ids, time) {
                    Ok(()) => Ok(Step::Dispatched),
                    Err(e) => Err(e),
                }
            },
            SimulatorEventData::VehicleArrival { vehicle_id, factory_id, work } => {
                match self.handle_vehicle_arrival(vehicle_id, factory_id, work, time) {
                    Ok(()) => Ok(Step::Dispatched),
                    Err(e) => Err(e),
                }
            },
            SimulatorEventData::VehicleApproachedDock { vehicle_id, factory_id, work } => {
                match self.handle_vehicle_approached_dock(vehicle_id, factory_id, work, time) {
                    Ok(()) => Ok(Step::Dispatched),
                    Err(e) => Err(e),
                }
            },
            SimulatorEventData::FinishLoading { vehicle_id, factory_id, delivered_items } => {
                match self.handle_finish_load(vehicle_id, factory_id, delivered_items, time) {
                    Ok(()) => Ok(Step::Dispatched),
                    Err(e) => Err(e),
                }
            },
            SimulatorEventData::UpdateTimestep => {
                match self.handle_timestep(time, scheduler, callbacks) {
                    Ok(done) => {
                        if done {
                            Ok(Step::Finished)
                        } else {
                            Ok(Step::Dispatched)
                        }
                    },
                    Err(e) => Err(e),
                }
            },
        }
    }

    /// Takes the next event from the queue, sets the clock to its instant,
    /// and handles it. The clock never goes back.
    pub fn simulate_step<S: Scheduler>(
        &mut self,
        scheduler: &mut S,
        callbacks: &mut Vec<Box<dyn SimulationCallback>>,
    ) -> (r: Result<Step, SimError>)
        requires
            old(self).wf(),
        ensures
            final(self).wf(),
            final(self)@.clock >= old(self)@.clock,
            r.is_ok() && docks_accounted(old(self)@) ==> docks_accounted(final(self)@),
            r.is_ok() && sound(old(self)@) ==> sound(final(self)@),
            sound(old(self)@) && old(self)@.events.len() > 0 ==> match r {
                Ok(_) => true,
                Err(e) => may_fail(old(self)@.events[0].0, e),
            },
            r.is_ok() ==> follows(old(self)@, final(self)@),
            r matches Err(e) ==> fails(old(self)@, e),
            old(self)@.events.len() > 0 && old(self)@.events[0].0 is UpdateTimestep ==> (r matches Err(
                SimError::InvalidPlan(_),
            ) ==> final(self)@ == refused(taken(old(self)@))),
            old(self)@.events.len() == 0 ==> r == Ok::<Step, SimError>(Step::Idle) && final(self)@
                == old(self)@,
            old(self)@.events.len() > 0 ==> {
                let data = old(self)@.events[0].0;
                let time = old(self)@.events[0].1 as int;
                &&& r != Ok::<Step, SimError>(Step::Idle)
                &&& final(self)@.clock == time
                &&& !(data is UpdateTimestep) ==> refines(
                    plain(r),
                    dispatch(taken(old(self)@), data, time),
                    final(self)@,
                )
                &&& data is UpdateTimestep ==> exists|
                    vehicles: Seq<Seq<char>>,
                    routes: Seq<Seq<VehicleRouteView>>,
                    cost: int,
                |
                    is_plan(vehicles, routes) && 0 <= cost && plain(r) == outcome(
                        #[trigger] timestep(taken(old(self)@), vehicles, routes, time, cost),
                    ) && (r.is_ok() ==> timestep(taken(old(self)@), vehicles, routes, time, cost)
                        == Ok::<SimulatorView, SimError>(final(self)@))
            },
    {
        let ghost before = self@;
        match self.events.pop() {
            None => Ok(Step::Idle),
            Some(event) => {
                let (data, time) = event;
                self.clock = time;
                proof {
                    let mid = self@;
                    assert(mid == taken(before));
                    assert(before.clock <= before.events[0].1);
                    assert forall|i: int| 0 <= i < mid.events.len() implies mid.clock <= (
                    #[trigger] mid.events[i]).1 by {
                        assert(mid.events[i] == before.events[i + 1]);
                    }
                }
                let r = self.handle_event(data, time, scheduler, callbacks);
                proof {
                    if before.events[0].0 is UpdateTimestep {
                        let (vehicles, routes, cost) = choose|
                            vehicles: Seq<Seq<char>>,
                            routes: Seq<Seq<VehicleRouteView>>,
                            cost: int,
                        |
                            is_plan(vehicles, routes) && 0 <= cost && plain(r) == outcome(
                                #[trigger] timestep(
                                    taken(before),
                                    vehicles,
                                    routes,
                                    time as int,
                                    cost,
                                ),
                            ) && (r.is_ok() ==> timestep(
                                taken(before),
                                vehicles,
                                routes,
                                time as int,
                                cost,
                            ) == Ok::<SimulatorView, SimError>(self@));
                        if r.is_ok() && docks_accounted(before) {
                            law_docks_over_timestep(before, vehicles, routes, cost);
                        }
                        if r.is_err() {
                            assert(is_plan(vehicles, routes) && 0 <= cost && timestep(
                                taken(before),
                                vehicles,
                                routes,
                                before.events[0].1 as int,
                                cost,
                            ) == Err::<SimulatorView, SimError>(r.unwrap_err()));
                        }
                        if sound(before) {
                            law_sound_over_timestep(before, vehicles, routes, cost);
                        }
                    } else {
                        if r.is_ok() && docks_accounted(before) {
                            law_docks_over_event(before);
                        }
                        if sound(before) {
                            law_sound_over_event(before);
                        }
                    }
                }
                r
            },
        }
    }

    /// Handles the pending events that are not later than `until`, in order,
    /// and tells how many it handled. It stops early at the first failure,
    /// when a call of the scheduler finds every item delivered and nothing
    /// else is pending by `until`, or when the count of steps reaches the
    /// largest 64-bit number.
    #[verifier::loop_isolation(false)]
    pub fn simulate_until<S: Scheduler>(
        &mut self,
        until: i64,
        scheduler: &mut S,
        callbacks: &mut Vec<Box<dyn SimulationCallback>>,
    ) -> (r: Result<u64, SimError>)
        requires
            old(self).wf(),
        ensures
            final(self).wf(),
            final(self)@.clock >= old(self)@.clock,
            r.is_ok() && docks_accounted(old(self)@) ==> docks_accounted(final(self)@),
            r.is_ok() && sound(old(self)@) ==> sound(final(self)@),
            r matches Ok(steps) ==> reaches(old(self)@, final(self)@, steps as nat),
            r matches Ok(steps) ==> reaches_by(
                old(self)@,
                final(self)@,
                steps as nat,
                until as int,
            ),
            r matches Ok(steps) ==> !due(final(self)@, until as int) || steps == u64::MAX,
            r matches Err(e) ==> stumbles(old(self)@, until as int, e),
            !due(old(self)@, until as int) ==> r == Ok::<u64, SimError>(0) && final(self)@
                == old(self)@,
            r.is_ok() && old(self)@.clock <= until ==> final(self)@.clock <= until,
    {
        let mut steps: u64 = 0;
        let ghost mut path: Seq<SimulatorView> = seq![self@];
        while steps < u64::MAX
            invariant
                self.wf(),
                self@.clock >= old(self)@.clock,
                old(self)@.clock <= until ==> self@.clock <= until,
                docks_accounted(old(self)@) ==> docks_accounted(self@),
                sound(old(self)@) ==> sound(self@),
                is_run(path),
                is_run_until(path, until as int),
                path.len() == steps + 1,
                path[0] == old(self)@,
                path[steps as int] == self@,
                steps == 0 ==> self@ == old(self)@,
            decreases u64::MAX - steps,
        {
            let pending = match self.events.peek() {
                Some(event) => event.1 <= until,
                None => false,
            };
            if !pending {
                return Ok(steps);
            }
            let ghost here = self@;
            match self.simulate_step(scheduler, callbacks) {
                Err(e) => {
                    proof {
                        assert(path.last() == here);
                        assert(due(here, until as int) && fails(here, e));
                    }
                    return Err(e);
                },
                Ok(_) => {},
            }
            proof {
                let longer = path.push(self@);
                assert forall|i: int| 0 <= i < longer.len() - 1 implies due(
                    #[trigger] longer[i],
                    until as int,
                ) && follows(longer[i], longer[i + 1]) by {
                    if i < path.len() - 1 {
                        assert(longer[i] == path[i] && longer[i + 1] == path[i + 1]);
                    } else {
                        assert(longer[i] == here);
                    }
                }
                path = longer;
            }
            steps += 1;
        }
        Ok(steps)
    }
}

} // verus!
