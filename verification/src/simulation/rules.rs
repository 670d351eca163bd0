//! The rules of the kernel, stated over its model: what each event does to the
//! state, and which plans are valid.

use crate::model::factory_info::FactoryInfoView;
use crate::model::order::OrderView;
use crate::model::order_item::{demand_of, OrderItemIdView, OrderItemView};
use crate::model::route_info::{routes_valid, transit_distance, transit_time, SingleRouteView};
use crate::model::vehicle_info::VehicleInfoView;
use crate::simulation::event_queue::{chronological, enqueue};
use crate::simulation::sim_event::{
    SimEvent, SimEventView, SimulatorEventDataView, VehicleWorkView,
};
use crate::simulation::state::{
    FactoryStateView, OrderItemState, VehiclePositionView, VehicleRouteView, VehicleStateView,
};
use vstd::prelude::*;

verus! {

/// Why a plan is refused.
#[derive(Debug, Clone, Copy, PartialEq, Eq, Structural)]
pub enum PlanError {
    /// The plan names a vehicle that the instance does not have.
    UnknownVehicle,
    /// The plan names an item that the instance does not have.
    UnknownItem,
    /// After some stop the vehicle would carry more than its capacity.
    CapacityViolation,
    /// A stop unloads an item that is not on top of the stack.
    LifoViolation,
    /// A stop unloads an item elsewhere than at its destination.
    WrongDeliveryLocation,
    /// A stop unloads an item that no vehicle has been given.
    UnloadingUnready,
    /// A stop loads an item elsewhere than at its source.
    WrongPickupLocation,
    /// A stop loads an item that is not waiting to be allocated.
    LoadingUnready,
    /// A stop takes some but not all items of an order that fits into the vehicle.
    OrderSplit,
}

/// Why the kernel stops. None of these is recovered from.
#[derive(Debug, Clone, Copy, PartialEq, Eq, Structural)]
pub enum SimError {
    /// The scheduler's plan was refused.
    InvalidPlan(PlanError),
    /// An event or a stop names a vehicle that the instance does not have.
    UnknownVehicle,
    /// An event names a factory that the instance does not have.
    UnknownFactory,
    /// An event or a stop names an item that the instance does not have.
    UnknownItem,
    /// A vehicle is not where the event needs it to be.
    WrongPosition,
    /// An order arrives of which an item is already available.
    ItemNotUnavailable,
    /// Items are to leave a vehicle that are not on top of its stack.
    LifoViolation,
    /// A vehicle would carry more than its capacity.
    CapacityViolation,
    /// No road is recorded between two factories.
    NoRoute,
    /// A service ends at a factory all of whose docks are free.
    NoBusyDock,
    /// An instant or a distance leaves the range of 64-bit integers.
    Overflow,
}

/// The model of the kernel.
#[verifier::ext_equal]
pub struct SimulatorView {
    pub routes: Map<(Seq<char>, Seq<char>), SingleRouteView>,
    pub factories: Map<Seq<char>, FactoryInfoView>,
    pub vehicles: Map<Seq<char>, VehicleInfoView>,
    pub orders: Map<Seq<char>, OrderView>,
    pub order_items: Map<OrderItemIdView, OrderItemView>,
    /// The instant at which the day of the simulation starts.
    pub initial_date: int,
    /// Seconds between two calls of the scheduler.
    pub time_interval: int,
    /// Seconds between a vehicle's arrival and its request for a dock.
    pub dock_approaching_time: int,
    pub vehicle_states: Map<Seq<char>, VehicleStateView>,
    pub factory_states: Map<Seq<char>, FactoryStateView>,
    pub order_item_states: Map<OrderItemIdView, OrderItemState>,
    /// The pending events, the next one first.
    pub events: Seq<SimEventView>,
    /// The instant of the event that was dispatched last.
    pub clock: int,
    pub total_distance: int,
    pub total_distance_last_timeslot: int,
}

/// The largest distance from the epoch at which a simulated day may start.
pub const DATE_LIMIT: i64 = 0x1000_0000_0000_0000;

/// `x` is a 64-bit signed integer.
pub open spec fn fits(x: int) -> bool {
    i64::MIN <= x <= i64::MAX
}

/// The stack ends with the items of `top`, the last of `top` uppermost.
pub open spec fn ends_with(stack: Seq<OrderItemIdView>, top: Seq<OrderItemIdView>) -> bool {
    top.len() <= stack.len() && stack.subrange(stack.len() - top.len(), stack.len() as int) == top
}

/// The stack after the items of `unload` have left its top and those of `load` have come on.
pub open spec fn replace_top(
    stack: Seq<OrderItemIdView>,
    unload: Seq<OrderItemIdView>,
    load: Seq<OrderItemIdView>,
) -> Seq<OrderItemIdView> {
    stack.subrange(0, stack.len() - unload.len()) + load
}

/// Every identifier of the list has a state.
pub open spec fn all_tracked(
    states: Map<OrderItemIdView, OrderItemState>,
    ids: Seq<OrderItemIdView>,
) -> bool {
    forall|i: int| 0 <= i < ids.len() ==> states.contains_key(#[trigger] ids[i])
}

/// The states after every item of the list has been given the state `st`.
pub open spec fn mark_all(
    states: Map<OrderItemIdView, OrderItemState>,
    ids: Seq<OrderItemIdView>,
    st: OrderItemState,
) -> Map<OrderItemIdView, OrderItemState> {
    Map::new(
        |k: OrderItemIdView| states.contains_key(k) || ids.contains(k),
        |k: OrderItemIdView|
            if ids.contains(k) {
                st
            } else {
                states[k]
            },
    )
}

/// Every item is delivered.
pub open spec fn all_delivered(states: Map<OrderItemIdView, OrderItemState>) -> bool {
    forall|k: OrderItemIdView| #[trigger] states.contains_key(k) ==> states[k].index() == 4
}

/// The sum of the times that the orders of the listed items allow for unloading.
pub open spec fn unload_allowance(
    items: Map<OrderItemIdView, OrderItemView>,
    ids: Seq<OrderItemIdView>,
) -> int
    decreases ids.len(),
{
    if ids.len() == 0 {
        0
    } else {
        unload_allowance(items, ids.drop_last()) + items[ids.last()].unload_time
    }
}

/// The states after each listed item has been delivered at `deliver_time`,
/// each with the deadline of its order.
pub open spec fn mark_delivered(
    s: SimulatorView,
    ids: Seq<OrderItemIdView>,
    deliver_time: int,
) -> Map<OrderItemIdView, OrderItemState> {
    Map::new(
        |k: OrderItemIdView| s.order_item_states.contains_key(k) || ids.contains(k),
        |k: OrderItemIdView|
            if ids.contains(k) {
                OrderItemState::Delivered {
                    deadline: s.orders[k.order_id].deadline(s.initial_date) as i64,
                    deliver_time: deliver_time as i64,
                }
            } else {
                s.order_item_states[k]
            },
    )
}

/// Every listed item is in the catalogue.
pub open spec fn all_catalogued(
    items: Map<OrderItemIdView, OrderItemView>,
    ids: Seq<OrderItemIdView>,
) -> bool {
    forall|i: int| 0 <= i < ids.len() ==> items.contains_key(#[trigger] ids[i])
}

/// How many intervals pass until the scheduler is called again, when its last
/// call took `cost` nanoseconds of real time: one, and one more for each whole
/// interval that the call took.
pub open spec fn intervals(cost: int, time_interval: int) -> int {
    1 + cost / (time_interval * 1_000_000_000)
}

impl SimulatorView {
    /// The state with one more pending event.
    pub open spec fn push(self, data: SimulatorEventDataView, time: int) -> SimulatorView {
        SimulatorView { events: enqueue::<SimEvent>(self.events, (data, time as i64)), ..self }
    }

    /// The reference data is sound: durations are not negative, every item
    /// belongs to an order of the instance and is what that order makes it.
    pub open spec fn catalogue_wf(self) -> bool {
        &&& self.time_interval > 0
        &&& self.time_interval <= 0x1_0000_0000_0000
        &&& self.dock_approaching_time >= 0
        &&& fits(self.dock_approaching_time)
        &&& -DATE_LIMIT <= self.initial_date <= DATE_LIMIT
        &&& routes_valid(self.routes)
        &&& forall|k: Seq<char>| #[trigger]
            self.orders.contains_key(k) ==> self.orders[k].valid() && self.orders[k].order_id == k
        &&& forall|k: Seq<char>| #[trigger]
            self.vehicles.contains_key(k) ==> self.vehicles[k].car_num == k
        &&& forall|k: Seq<char>| #[trigger]
            self.factories.contains_key(k) ==> self.factories[k].factory_id == k
        &&& forall|id: OrderItemIdView| #[trigger]
            self.order_items.contains_key(id) ==> self.orders.contains_key(id.order_id)
                && self.orders[id.order_id].has_item(id) && self.order_items[id]
                == self.orders[id.order_id].item(id.item_type, id.index)
    }

    /// No vehicle carries, or is planned to carry, more than its capacity.
    pub open spec fn within_capacity(self) -> bool {
        forall|v: Seq<char>| #[trigger]
            self.vehicle_states.contains_key(v) ==> demand_of(self.vehicle_states[v].item_stack)
                <= self.vehicles[v].capacity() && demand_of(
                self.vehicle_states[v].allocated_item_stack,
            ) <= self.vehicles[v].capacity()
    }

    /// At every factory the free docks are between none and all, and nobody
    /// waits while a dock is free.
    pub open spec fn docks_wf(self) -> bool {
        forall|f: Seq<char>| #[trigger]
            self.factory_states.contains_key(f) ==> 0 <= self.factory_states[f].num_avail_docks
                <= self.factories[f].port_num && (self.factory_states[f].queue.len() > 0
                ==> self.factory_states[f].num_avail_docks == 0)
    }

    /// The pending events are in the order of time, and none lies before the clock.
    pub open spec fn events_wf(self) -> bool {
        &&& chronological::<SimEvent>(self.events)
        &&& forall|i: int| 0 <= i < self.events.len() ==> self.clock <= (#[trigger] self.events[i]).1
    }

    /// What holds of the kernel between any two events.
    pub open spec fn wf(self) -> bool {
        &&& self.catalogue_wf()
        &&& self.vehicle_states.dom() =~= self.vehicles.dom()
        &&& self.factory_states.dom() =~= self.factories.dom()
        &&& self.order_items.dom().subset_of(self.order_item_states.dom())
        &&& self.within_capacity()
        &&& self.docks_wf()
        &&& self.events_wf()
        &&& fits(self.clock)
        &&& 0 <= self.total_distance_last_timeslot <= self.total_distance
        &&& fits(self.total_distance)
    }
}

/// The outcome `r` of a handler is the one that the rule gives, and on
/// success the rule's state is `after`.
pub open spec fn refines(
    r: Result<(), SimError>,
    rule: Result<SimulatorView, SimError>,
    after: SimulatorView,
) -> bool {
    match r {
        Ok(()) => rule == Ok::<SimulatorView, SimError>(after),
        Err(e) => rule == Err::<SimulatorView, SimError>(e),
    }
}

/// The first reason, if any, for which the items of an arriving order cannot
/// become available: an item without a state, or one that is available already.
pub open spec fn arrival_fault(
    states: Map<OrderItemIdView, OrderItemState>,
    ids: Seq<OrderItemIdView>,
) -> Option<SimError>
    decreases ids.len(),
{
    if ids.len() == 0 {
        None
    } else if !states.contains_key(ids[0]) {
        Some(SimError::UnknownItem)
    } else if states[ids[0]] != OrderItemState::Unavailable {
        Some(SimError::ItemNotUnavailable)
    } else {
        arrival_fault(states, ids.drop_first())
    }
}

/// An order arrives: its items, all unavailable so far, become unallocated.
pub open spec fn order_arrival(s: SimulatorView, ids: Seq<OrderItemIdView>) -> Result<
    SimulatorView,
    SimError,
> {
    match arrival_fault(s.order_item_states, ids) {
        Some(e) => Err(e),
        None => Ok(
            SimulatorView {
                order_item_states: mark_all(s.order_item_states, ids, OrderItemState::Unallocated),
                ..s
            },
        ),
    }
}

/// A vehicle arrives at the factory it was driving to, and will ask for a dock
/// after the approach time.
pub open spec fn vehicle_arrival(
    s: SimulatorView,
    v: Seq<char>,
    f: Seq<char>,
    work: VehicleWorkView,
    t: int,
) -> Result<SimulatorView, SimError> {
    if !s.vehicle_states.contains_key(v) {
        Err(SimError::UnknownVehicle)
    } else if !(s.vehicle_states[v].position matches VehiclePositionView::Transporting(_, to)
        && to == f) {
        Err(SimError::WrongPosition)
    } else if !fits(t + s.dock_approaching_time) {
        Err(SimError::Overflow)
    } else {
        Ok(
            SimulatorView {
                vehicle_states: s.vehicle_states.insert(
                    v,
                    VehicleStateView {
                        position: VehiclePositionView::DoingWork(f),
                        ..s.vehicle_states[v]
                    },
                ),
                ..s
            }.push(
                SimulatorEventDataView::VehicleApproachedDock {
                    vehicle_id: v,
                    factory_id: f,
                    work,
                },
                t + s.dock_approaching_time,
            ),
        )
    }
}

/// Service of a vehicle at a dock begins: the items to unload leave the top
/// of its stack, the items to load come on and count as picked up, and the
/// end of the service is scheduled after the time that both take.
pub open spec fn begin_loading(
    s: SimulatorView,
    v: Seq<char>,
    f: Seq<char>,
    work: VehicleWorkView,
    t: int,
) -> Result<SimulatorView, SimError> {
    if !s.vehicle_states.contains_key(v) {
        Err(SimError::UnknownVehicle)
    } else if s.vehicle_states[v].position != VehiclePositionView::DoingWork(f) {
        Err(SimError::WrongPosition)
    } else if !ends_with(s.vehicle_states[v].item_stack, work.unload_items) {
        Err(SimError::LifoViolation)
    } else if !all_tracked(s.order_item_states, work.load_items) {
        Err(SimError::UnknownItem)
    } else if demand_of(
        replace_top(s.vehicle_states[v].item_stack, work.unload_items, work.load_items),
    ) > s.vehicles[v].capacity() {
        Err(SimError::CapacityViolation)
    } else if !fits(t + work.load_time() + work.unload_time()) {
        Err(SimError::Overflow)
    } else {
        Ok(
            SimulatorView {
                vehicle_states: s.vehicle_states.insert(
                    v,
                    VehicleStateView {
                        item_stack: replace_top(
                            s.vehicle_states[v].item_stack,
                            work.unload_items,
                            work.load_items,
                        ),
                        ..s.vehicle_states[v]
                    },
                ),
                order_item_states: mark_all(
                    s.order_item_states,
                    work.load_items,
                    OrderItemState::PickedUp,
                ),
                ..s
            }.push(
                SimulatorEventDataView::FinishLoading {
                    vehicle_id: v,
                    factory_id: f,
                    delivered_items: work.unload_items.reverse(),
                },
                t + work.load_time() + work.unload_time(),
            ),
        )
    }
}

/// A vehicle asks for a dock: it is served at once if one is free, and waits
/// in line if none is.
pub open spec fn vehicle_approached_dock(
    s: SimulatorView,
    v: Seq<char>,
    f: Seq<char>,
    work: VehicleWorkView,
    t: int,
) -> Result<SimulatorView, SimError> {
    if !s.factory_states.contains_key(f) {
        Err(SimError::UnknownFactory)
    } else if s.factory_states[f].num_avail_docks == 0 {
        Ok(
            SimulatorView {
                factory_states: s.factory_states.insert(
                    f,
                    FactoryStateView {
                        queue: s.factory_states[f].queue.push((v, work)),
                        ..s.factory_states[f]
                    },
                ),
                ..s
            },
        )
    } else {
        match begin_loading(s, v, f, work, t) {
            Err(e) => Err(e),
            Ok(s1) => Ok(
                SimulatorView {
                    factory_states: s1.factory_states.insert(
                        f,
                        FactoryStateView {
                            num_avail_docks: s1.factory_states[f].num_avail_docks - 1,
                            ..s1.factory_states[f]
                        },
                    ),
                    ..s1
                },
            ),
        }
    }
}

/// A vehicle leaves a factory for the next stop of its plan: the items it
/// will load count as allocated, its planned stack runs ahead by the work of
/// the stop, the distance is added up, and its arrival is scheduled after the
/// time that the road takes.
pub open spec fn begin_transporting(
    s: SimulatorView,
    v: Seq<char>,
    f: Seq<char>,
    route: VehicleRouteView,
    t: int,
) -> Result<SimulatorView, SimError> {
    if !s.vehicle_states.contains_key(v) {
        Err(SimError::UnknownVehicle)
    } else if s.vehicle_states[v].position != VehiclePositionView::Idle(f) {
        Err(SimError::WrongPosition)
    } else if !all_tracked(s.order_item_states, route.work.load_items) {
        Err(SimError::UnknownItem)
    } else if transit_time(s.routes, f, route.destination).is_none() {
        Err(SimError::NoRoute)
    } else if !ends_with(s.vehicle_states[v].allocated_item_stack, route.work.unload_items) {
        Err(SimError::LifoViolation)
    } else if demand_of(
        replace_top(
            s.vehicle_states[v].allocated_item_stack,
            route.work.unload_items,
            route.work.load_items,
        ),
    ) > s.vehicles[v].capacity() {
        Err(SimError::CapacityViolation)
    } else if !fits(t + transit_time(s.routes, f, route.destination).unwrap()) || !fits(
        s.total_distance + transit_distance(s.routes, f, route.destination).unwrap(),
    ) {
        Err(SimError::Overflow)
    } else {
        Ok(
            SimulatorView {
                vehicle_states: s.vehicle_states.insert(
                    v,
                    VehicleStateView {
                        position: VehiclePositionView::Transporting(f, route.destination),
                        allocated_item_stack: replace_top(
                            s.vehicle_states[v].allocated_item_stack,
                            route.work.unload_items,
                            route.work.load_items,
                        ),
                        ..s.vehicle_states[v]
                    },
                ),
                order_item_states: mark_all(
                    s.order_item_states,
                    route.work.load_items,
                    OrderItemState::Allocated,
                ),
                total_distance: s.total_distance + transit_distance(
                    s.routes,
                    f,
                    route.destination,
                ).unwrap(),
                ..s
            }.push(
                SimulatorEventDataView::VehicleArrival {
                    vehicle_id: v,
                    factory_id: route.destination,
                    work: route.work,
                },
                t + transit_time(s.routes, f, route.destination).unwrap(),
            ),
        )
    }
}

/// The dock that a vehicle leaves goes to the first vehicle in line, whose
/// service begins at once; with nobody in line it becomes free.
pub open spec fn release_dock(s: SimulatorView, f: Seq<char>, t: int) -> Result<
    SimulatorView,
    SimError,
> {
    if !s.factory_states.contains_key(f) {
        Err(SimError::UnknownFactory)
    } else if s.factory_states[f].queue.len() > 0 {
        begin_loading(
            SimulatorView {
                factory_states: s.factory_states.insert(
                    f,
                    FactoryStateView {
                        queue: s.factory_states[f].queue.drop_first(),
                        ..s.factory_states[f]
                    },
                ),
                ..s
            },
            s.factory_states[f].queue[0].0,
            f,
            s.factory_states[f].queue[0].1,
            t,
        )
    } else if s.factory_states[f].num_avail_docks >= s.factories[f].port_num {
        Err(SimError::NoBusyDock)
    } else {
        Ok(
            SimulatorView {
                factory_states: s.factory_states.insert(
                    f,
                    FactoryStateView {
                        num_avail_docks: s.factory_states[f].num_avail_docks + 1,
                        ..s.factory_states[f]
                    },
                ),
                ..s
            },
        )
    }
}

/// The instant to which a delivery is attributed when the service that held
/// it ends at `t`: the end of the service, less the approach time, less the
/// time that the orders of the delivered items allow for unloading.
pub open spec fn deliver_time(s: SimulatorView, delivered: Seq<OrderItemIdView>, t: int) -> int {
    t - s.dock_approaching_time - unload_allowance(s.order_items, delivered)
}

/// The items that a service has put down count as delivered.
pub open spec fn record_delivery(s: SimulatorView, delivered: Seq<OrderItemIdView>, t: int) -> Result<
    SimulatorView,
    SimError,
> {
    if !all_catalogued(s.order_items, delivered) {
        Err(SimError::UnknownItem)
    } else if !fits(deliver_time(s, delivered, t)) {
        Err(SimError::Overflow)
    } else {
        Ok(
            SimulatorView {
                order_item_states: mark_delivered(s, delivered, deliver_time(s, delivered, t)),
                ..s
            },
        )
    }
}

/// A vehicle whose service has ended is free again, and leaves at once for
/// the next stop of its plan if it has one.
pub open spec fn depart(s: SimulatorView, v: Seq<char>, f: Seq<char>, t: int) -> Result<
    SimulatorView,
    SimError,
> {
    if !s.vehicle_states.contains_key(v) {
        Err(SimError::UnknownVehicle)
    } else if s.vehicle_states[v].position != VehiclePositionView::DoingWork(f) {
        Err(SimError::WrongPosition)
    } else if s.vehicle_states[v].current_route.len() == 0 {
        Ok(
            SimulatorView {
                vehicle_states: s.vehicle_states.insert(
                    v,
                    VehicleStateView {
                        position: VehiclePositionView::Idle(f),
                        ..s.vehicle_states[v]
                    },
                ),
                ..s
            },
        )
    } else {
        begin_transporting(
            SimulatorView {
                vehicle_states: s.vehicle_states.insert(
                    v,
                    VehicleStateView {
                        position: VehiclePositionView::Idle(f),
                        current_route: s.vehicle_states[v].current_route.drop_first(),
                        ..s.vehicle_states[v]
                    },
                ),
                ..s
            },
            v,
            f,
            s.vehicle_states[v].current_route[0],
            t,
        )
    }
}

/// The service of a vehicle at a dock ends: the dock is released, what was
/// put down counts as delivered, and the vehicle goes on.
pub open spec fn finish_load(
    s: SimulatorView,
    v: Seq<char>,
    f: Seq<char>,
    delivered: Seq<OrderItemIdView>,
    t: int,
) -> Result<SimulatorView, SimError> {
    match release_dock(s, f, t) {
        Err(e) => Err(e),
        Ok(s1) => match record_delivery(s1, delivered, t) {
            Err(e) => Err(e),
            Ok(s2) => depart(s2, v, f, t),
        },
    }
}

} // verus!
