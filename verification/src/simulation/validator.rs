//! Plan validation: a plan is played against a copy of the planned stacks and
//! of the item states, and refused at the first rule it breaks.

use crate::model::order::Order;
use crate::model::order_item::{
    demand_of, lemma_demand_bounds, lemma_demand_concat, total_demand, OrderItemId,
    OrderItemIdView, OrderItemType,
};
use crate::model::table::{duplicate_vec, Duplicate, Key};
use crate::model::vehicle_info::VehicleId;
use crate::simulation::rules::{PlanError, SimulatorView};
use crate::simulation::simulator::Simulator;
use crate::simulation::state::{
    OrderItemState, OrderItemStateMap, Plan, VehicleRoute, VehicleRouteView,
};
use vstd::prelude::*;

verus! {

/// The copy against which a vehicle's stops are played.
pub struct ShadowView {
    /// The planned stack, the last loaded on top.
    pub stack: Seq<OrderItemIdView>,
    /// The room taken after the stops played so far, in boxes.
    pub demand: int,
    pub states: Map<OrderItemIdView, OrderItemState>,
}

/// The state that the validator gives an item which a stop has unloaded.
pub open spec fn unloaded() -> OrderItemState {
    OrderItemState::Delivered { deadline: i64::MAX, deliver_time: i64::MAX }
}

/// Plays the unloading of a stop at `dest`: the items leave the stack from
/// the last of the list to the first, each from the top.
pub open spec fn check_unloads(
    s: SimulatorView,
    dest: Seq<char>,
    unloads: Seq<OrderItemIdView>,
    sh: ShadowView,
) -> Result<ShadowView, PlanError>
    decreases unloads.len(),
{
    if unloads.len() == 0 {
        Ok(sh)
    } else {
        let u = unloads.last();
        if sh.stack.len() == 0 || sh.stack.last() != u {
            Err(PlanError::LifoViolation)
        } else if !s.order_items.contains_key(u) {
            Err(PlanError::UnknownItem)
        } else if s.order_items[u].delivery_id != dest {
            Err(PlanError::WrongDeliveryLocation)
        } else if !sh.states.contains_key(u) {
            Err(PlanError::UnknownItem)
        } else if sh.states[u] != OrderItemState::Allocated && sh.states[u]
            != OrderItemState::PickedUp {
            Err(PlanError::UnloadingUnready)
        } else {
            check_unloads(
                s,
                dest,
                unloads.drop_last(),
                ShadowView {
                    stack: sh.stack.drop_last(),
                    states: sh.states.insert(u, unloaded()),
                    ..sh
                },
            )
        }
    }
}

/// Plays the loading of a stop at `dest`: the items come onto the stack in
/// the order of the list.
pub open spec fn check_loads(
    s: SimulatorView,
    dest: Seq<char>,
    loads: Seq<OrderItemIdView>,
    sh: ShadowView,
) -> Result<ShadowView, PlanError>
    decreases loads.len(),
{
    if loads.len() == 0 {
        Ok(sh)
    } else {
        let l = loads[0];
        if !s.order_items.contains_key(l) {
            Err(PlanError::UnknownItem)
        } else if s.order_items[l].pickup_id != dest {
            Err(PlanError::WrongPickupLocation)
        } else if !sh.states.contains_key(l) {
            Err(PlanError::UnknownItem)
        } else if sh.states[l] != OrderItemState::Unallocated {
            Err(PlanError::LoadingUnready)
        } else {
            check_loads(
                s,
                dest,
                loads.drop_first(),
                ShadowView {
                    stack: sh.stack.push(l),
                    states: sh.states.insert(l, OrderItemState::PickedUp),
                    ..sh
                },
            )
        }
    }
}

/// The order `o` is of the instance, and the list holds every item of it
/// unless it takes more room than `capacity`.
pub open spec fn kept_whole(
    s: SimulatorView,
    ids: Seq<OrderItemIdView>,
    capacity: int,
    o: Seq<char>,
) -> bool {
    &&& s.orders.contains_key(o)
    &&& s.orders[o].demand() <= capacity ==> forall|id: OrderItemIdView|
        s.orders[o].has_item(id) ==> ids.contains(id)
}

/// What is wrong with the way in which the list takes the order `o`: the
/// order is not of the instance, or it fits into the vehicle and the list
/// takes only part of it.
pub open spec fn order_fault(
    s: SimulatorView,
    ids: Seq<OrderItemIdView>,
    capacity: int,
    o: Seq<char>,
) -> Option<PlanError> {
    if !s.orders.contains_key(o) {
        Some(PlanError::UnknownItem)
    } else if !kept_whole(s, ids, capacity, o) {
        Some(PlanError::OrderSplit)
    } else {
        None
    }
}

/// The first fault, if any, that the orders of the items of the list from
/// the place `from` on show, in the order of the list.
pub open spec fn split_fault(
    s: SimulatorView,
    ids: Seq<OrderItemIdView>,
    capacity: int,
    from: int,
) -> Option<PlanError>
    decreases ids.len() - from,
{
    if from < 0 || from >= ids.len() {
        None
    } else {
        match order_fault(s, ids, capacity, ids[from].order_id) {
            Some(e) => Some(e),
            None => split_fault(s, ids, capacity, from + 1),
        }
    }
}

/// A list without a fault takes every order it touches whole, or in part
/// only where the order does not fit into the vehicle.
pub proof fn lemma_no_split_fault(
    s: SimulatorView,
    ids: Seq<OrderItemIdView>,
    capacity: int,
    from: int,
)
    requires
        0 <= from,
        split_fault(s, ids, capacity, from).is_none(),
    ensures
        forall|i: int|
            from <= i < ids.len() ==> kept_whole(s, ids, capacity, (#[trigger] ids[i]).order_id),
    decreases ids.len() - from,
{
    if from < ids.len() {
        lemma_no_split_fault(s, ids, capacity, from + 1);
    }
}

/// Plays one stop.
pub open spec fn check_route(
    s: SimulatorView,
    capacity: int,
    route: VehicleRouteView,
    sh: ShadowView,
) -> Result<ShadowView, PlanError> {
    if sh.demand + route.work.delta_demand() > capacity {
        Err(PlanError::CapacityViolation)
    } else {
        match check_unloads(
            s,
            route.destination,
            route.work.unload_items,
            ShadowView { demand: sh.demand + route.work.delta_demand(), ..sh },
        ) {
            Err(e) => Err(e),
            Ok(sh1) => match check_loads(s, route.destination, route.work.load_items, sh1) {
                Err(e) => Err(e),
                Ok(sh2) => match split_fault(s, route.work.load_items, capacity, 0) {
                    Some(e) => Err(e),
                    None => match split_fault(s, route.work.unload_items, capacity, 0) {
                        Some(e) => Err(e),
                        None => Ok(sh2),
                    },
                },
            },
        }
    }
}

/// Plays the stops of one vehicle in order, and gives the copy as the last stop leaves it.
pub open spec fn check_routes(
    s: SimulatorView,
    capacity: int,
    routes: Seq<VehicleRouteView>,
    sh: ShadowView,
) -> Result<ShadowView, PlanError>
    decreases routes.len(),
{
    if routes.len() == 0 {
        Ok(sh)
    } else {
        match check_route(s, capacity, routes[0], sh) {
            Err(e) => Err(e),
            Ok(sh1) => check_routes(s, capacity, routes.drop_first(), sh1),
        }
    }
}

/// The copy with which the stops of `v` start: its planned stack, the room
/// that stack takes, and the item states as the stops played before have
/// left them.
pub open spec fn shadow_of(
    s: SimulatorView,
    v: Seq<char>,
    states: Map<OrderItemIdView, OrderItemState>,
) -> ShadowView {
    ShadowView {
        stack: s.vehicle_states[v].allocated_item_stack,
        demand: demand_of(s.vehicle_states[v].allocated_item_stack),
        states,
    }
}

/// Validates the stops planned for one vehicle against the item states
/// `states`, and gives the item states as the stops leave them.
pub open spec fn check_vehicle(
    s: SimulatorView,
    v: Seq<char>,
    routes: Seq<VehicleRouteView>,
    states: Map<OrderItemIdView, OrderItemState>,
) -> Result<Map<OrderItemIdView, OrderItemState>, PlanError> {
    if !s.vehicles.contains_key(v) || !s.vehicle_states.contains_key(v) {
        Err(PlanError::UnknownVehicle)
    } else {
        match check_routes(s, s.vehicles[v].capacity(), routes, shadow_of(s, v, states)) {
            Err(e) => Err(e),
            Ok(sh) => Ok(sh.states),
        }
    }
}

/// Validates a plan, vehicle by vehicle in the order of their names. The
/// plan is played against one copy of the item states, which starts as
/// `states`: what the stops of one vehicle load or unload is loaded or
/// unloaded for the vehicles that follow. Each vehicle starts from its own
/// planned stack.
pub open spec fn check_plan(
    s: SimulatorView,
    vehicles: Seq<Seq<char>>,
    routes: Seq<Seq<VehicleRouteView>>,
    states: Map<OrderItemIdView, OrderItemState>,
) -> Result<(), PlanError>
    decreases vehicles.len(),
{
    if vehicles.len() == 0 || routes.len() == 0 {
        Ok(())
    } else {
        match check_vehicle(s, vehicles[0], routes[0], states) {
            Err(e) => Err(e),
            Ok(next) => check_plan(s, vehicles.drop_first(), routes.drop_first(), next),
        }
    }
}

/// The copy that the validator works on.
pub struct Shadow {
    pub stack: Vec<OrderItemId>,
    pub demand: i128,
    pub states: OrderItemStateMap,
}

impl View for Shadow {
    type V = ShadowView;

    open spec fn view(&self) -> ShadowView {
        ShadowView {
            stack: self.stack.deep_view(),
            demand: self.demand as int,
            states: self.states@,
        }
    }
}

/// Whether the list holds the item.
#[verifier::loop_isolation(false)]
pub fn holds(ids: &Vec<OrderItemId>, id: &OrderItemId) -> (r: bool)
    ensures
        r == ids.deep_view().contains(id@),
{
    let mut i: usize = 0;
    while i < ids.len()
        invariant
            i <= ids.len(),
            forall|j: int| 0 <= j < i ==> ids.deep_view()[j] != id@,
        decreases ids.len() - i,
    {
        if ids[i].same(id) {
            assert(ids.deep_view()[i as int] == id@);
            return true;
        }
        i += 1;
    }
    false
}

/// Whether the list holds every item of one class of the order.
#[verifier::loop_isolation(false)]
fn holds_class(ids: &Vec<OrderItemId>, order: &Order, class: OrderItemType, quantity: i32) -> (r:
    bool)
    requires
        quantity == order@.quantity(class),
    ensures
        r == forall|id: OrderItemIdView|
            order@.has_item(id) && id.item_type == class ==> ids.deep_view().contains(id),
{
    let mut probe = OrderItemId { order_id: order.order_id.duplicate(), item_type: class, index: 0 };
    let mut i: i32 = 0;
    while i < quantity
        invariant
            0 <= i,
            probe@.order_id == order@.order_id,
            probe.item_type == class,
            forall|id: OrderItemIdView|
                order@.has_item(id) && id.item_type == class && id.index < i
                    ==> ids.deep_view().contains(id),
        decreases quantity - i,
    {
        probe.index = i;
        if !holds(ids, &probe) {
            assert(order@.has_item(probe@));
            return false;
        }
        assert forall|id: OrderItemIdView|
            order@.has_item(id) && id.item_type == class && id.index < i + 1 implies ids.deep_view().contains(
            id,
        ) by {
            if id.index == i {
                assert(id == probe@);
            }
        }
        i += 1;
    }
    true
}

impl Simulator {
    /// What is wrong with the orders that the list touches: `UnknownItem`
    /// where an order is not of the instance, `OrderSplit` where the list
    /// takes part of an order that fits into a vehicle of the given
    /// capacity and not all of it. The first item of the list whose order
    /// shows a fault decides.
    #[verifier::loop_isolation(false)]
    pub fn check_order_split(&self, item_ids: &Vec<OrderItemId>, capacity: i64) -> (r: Result<
        (),
        PlanError,
    >)
        ensures
            r == match split_fault(self@, item_ids.deep_view(), capacity as int, 0) {
                Some(e) => Err::<(), PlanError>(e),
                None => Ok::<(), PlanError>(()),
            },
    {
        let ghost s = self@;
        let ghost list = item_ids.deep_view();
        let mut i: usize = 0;
        while i < item_ids.len()
            invariant
                i <= item_ids.len(),
                split_fault(s, list, capacity as int, 0) == split_fault(
                    s,
                    list,
                    capacity as int,
                    i as int,
                ),
            decreases item_ids.len() - i,
        {
            match self.orders.get(&item_ids[i].order_id) {
                None => {
                    return Err(PlanError::UnknownItem);
                },
                Some(order) => {
                    if order.calc_demand() <= capacity {
                        let whole = holds_class(
                            item_ids,
                            order,
                            OrderItemType::Standard,
                            order.q_standard,
                        ) && holds_class(item_ids, order, OrderItemType::Small, order.q_small)
                            && holds_class(item_ids, order, OrderItemType::Box, order.q_box);
                        if !whole {
                            return Err(PlanError::OrderSplit);
                        }
                    }
                },
            }
            i += 1;
        }
        Ok(())
    }

    #[verifier::loop_isolation(false)]
    fn play_unloads(&self, route: &VehicleRoute, shadow: &mut Shadow) -> (r: Result<(), PlanError>)
        ensures
            match r {
                Ok(()) => check_unloads(
                    self@,
                    route@.destination,
                    route@.work.unload_items,
                    old(shadow)@,
                ) == Ok::<ShadowView, PlanError>(final(shadow)@),
                Err(e) => check_unloads(
                    self@,
                    route@.destination,
                    route@.work.unload_items,
                    old(shadow)@,
                ) == Err::<ShadowView, PlanError>(e),
            },
    {
        let ghost s = self@;
        let ghost dest = route@.destination;
        let ghost list = route@.work.unload_items;
        let ghost start = shadow@;
        let items = &route.work.unload_items;
        let mut n: usize = items.len();
        assert(list.take(n as int) =~= list);
        while n > 0
            invariant
                n <= items.len(),
                check_unloads(s, dest, list, start) == check_unloads(
                    s,
                    dest,
                    list.take(n as int),
                    shadow@,
                ),
            decreases n,
        {
            let item = &items[n - 1];
            proof {
                assert(list.take(n as int).last() == list[n - 1]);
                assert(list.take(n as int).drop_last() =~= list.take(n - 1));
            }
            let ghost was = shadow@;
            let top = shadow.stack.pop();
            let on_top = match &top {
                Some(t) => t.same(item),
                None => false,
            };
            if !on_top {
                return Err(PlanError::LifoViolation);
            }
            assert(shadow.stack.deep_view() =~= was.stack.drop_last());
            let info = match self.order_items.get(item) {
                Some(info) => info,
                None => {
                    return Err(PlanError::UnknownItem);
                },
            };
            if !info.delivery_id.same(&route.destination) {
                return Err(PlanError::WrongDeliveryLocation);
            }
            let p: usize = match shadow.states.position(item) {
                Some(p) => p,
                None => {
                    return Err(PlanError::UnknownItem);
                },
            };
            let state = shadow.states.value_mut_at(p);
            if *state != OrderItemState::Allocated && *state != OrderItemState::PickedUp {
                return Err(PlanError::UnloadingUnready);
            }
            *state = OrderItemState::delivered_irrelevant();
            n -= 1;
        }
        Ok(())
    }

    #[verifier::loop_isolation(false)]
    fn play_loads(&self, route: &VehicleRoute, shadow: &mut Shadow) -> (r: Result<(), PlanError>)
        ensures
            match r {
                Ok(()) => check_loads(
                    self@,
                    route@.destination,
                    route@.work.load_items,
                    old(shadow)@,
                ) == Ok::<ShadowView, PlanError>(final(shadow)@),
                Err(e) => check_loads(
                    self@,
                    route@.destination,
                    route@.work.load_items,
                    old(shadow)@,
                ) == Err::<ShadowView, PlanError>(e),
            },
    {
        let ghost s = self@;
        let ghost dest = route@.destination;
        let ghost list = route@.work.load_items;
        let ghost start = shadow@;
        let items = &route.work.load_items;
        let mut i: usize = 0;
        assert(list.skip(0) =~= list);
        while i < items.len()
            invariant
                i <= items.len(),
                check_loads(s, dest, list, start) == check_loads(
                    s,
                    dest,
                    list.skip(i as int),
                    shadow@,
                ),
            decreases items.len() - i,
        {
            let item = &items[i];
            proof {
                assert(list.skip(i as int)[0] == list[i as int]);
                assert(list.skip(i as int).drop_first() =~= list.skip(i + 1));
            }
            let info = match self.order_items.get(item) {
                Some(info) => info,
                None => {
                    return Err(PlanError::UnknownItem);
                },
            };
            if !info.pickup_id.same(&route.destination) {
                return Err(PlanError::WrongPickupLocation);
            }
            let p: usize = match shadow.states.position(item) {
                Some(p) => p,
                None => {
                    return Err(PlanError::UnknownItem);
                },
            };
            let state = shadow.states.value_mut_at(p);
            if *state != OrderItemState::Unallocated {
                return Err(PlanError::LoadingUnready);
            }
            *state = OrderItemState::PickedUp;
            let ghost was = shadow.stack.deep_view();
            shadow.stack.push(item.duplicate());
            assert(shadow.stack.deep_view() =~= was.push(list[i as int]));
            i += 1;
        }
        Ok(())
    }
}

/// Unloading that succeeds takes exactly the listed items off the top of the
/// stack, and leaves the count of room as it was.
pub proof fn lemma_unloads_stack(
    s: SimulatorView,
    dest: Seq<char>,
    unloads: Seq<OrderItemIdView>,
    sh: ShadowView,
)
    requires
        check_unloads(s, dest, unloads, sh).is_ok(),
    ensures
        sh.stack == check_unloads(s, dest, unloads, sh).unwrap().stack + unloads,
        check_unloads(s, dest, unloads, sh).unwrap().demand == sh.demand,
    decreases unloads.len(),
{
    let r = check_unloads(s, dest, unloads, sh).unwrap();
    if unloads.len() == 0 {
        assert(sh.stack =~= r.stack + unloads);
    } else {
        let u = unloads.last();
        let next = ShadowView {
            stack: sh.stack.drop_last(),
            states: sh.states.insert(u, unloaded()),
            ..sh
        };
        lemma_unloads_stack(s, dest, unloads.drop_last(), next);
        assert(sh.stack =~= sh.stack.drop_last().push(u));
        assert(unloads =~= unloads.drop_last().push(u));
        assert(sh.stack =~= r.stack + unloads);
    }
}

/// Loading that succeeds puts exactly the listed items on the stack, and
/// leaves the count of room as it was.
pub proof fn lemma_loads_stack(
    s: SimulatorView,
    dest: Seq<char>,
    loads: Seq<OrderItemIdView>,
    sh: ShadowView,
)
    requires
        check_loads(s, dest, loads, sh).is_ok(),
    ensures
        check_loads(s, dest, loads, sh).unwrap().stack == sh.stack + loads,
        check_loads(s, dest, loads, sh).unwrap().demand == sh.demand,
    decreases loads.len(),
{
    let r = check_loads(s, dest, loads, sh).unwrap();
    if loads.len() == 0 {
        assert(r.stack =~= sh.stack + loads);
    } else {
        let l = loads[0];
        let next = ShadowView {
            stack: sh.stack.push(l),
            states: sh.states.insert(l, OrderItemState::PickedUp),
            ..sh
        };
        lemma_loads_stack(s, dest, loads.drop_first(), next);
        assert(r.stack =~= sh.stack + loads);
    }
}

/// Unloading that succeeds gives no item a state that had none.
pub proof fn lemma_unloads_states(
    s: SimulatorView,
    dest: Seq<char>,
    unloads: Seq<OrderItemIdView>,
    sh: ShadowView,
)
    requires
        check_unloads(s, dest, unloads, sh).is_ok(),
    ensures
        check_unloads(s, dest, unloads, sh).unwrap().states.dom() =~= sh.states.dom(),
    decreases unloads.len(),
{
    if unloads.len() > 0 {
        let u = unloads.last();
        let next = ShadowView {
            stack: sh.stack.drop_last(),
            states: sh.states.insert(u, unloaded()),
            ..sh
        };
        lemma_unloads_states(s, dest, unloads.drop_last(), next);
        assert(next.states.dom() =~= sh.states.dom());
    }
}

/// Loading that succeeds loads only items that have a state.
pub proof fn lemma_loads_states(
    s: SimulatorView,
    dest: Seq<char>,
    loads: Seq<OrderItemIdView>,
    sh: ShadowView,
)
    requires
        check_loads(s, dest, loads, sh).is_ok(),
    ensures
        check_loads(s, dest, loads, sh).unwrap().states.dom() =~= sh.states.dom(),
        forall|i: int| 0 <= i < loads.len() ==> sh.states.contains_key(#[trigger] loads[i]),
    decreases loads.len(),
{
    if loads.len() > 0 {
        let l = loads[0];
        let next = ShadowView {
            stack: sh.stack.push(l),
            states: sh.states.insert(l, OrderItemState::PickedUp),
            ..sh
        };
        lemma_loads_states(s, dest, loads.drop_first(), next);
        assert(next.states.dom() =~= sh.states.dom());
        assert forall|i: int| 0 <= i < loads.len() implies sh.states.contains_key(
            #[trigger] loads[i],
        ) by {
            if i > 0 {
                assert(loads[i] == loads.drop_first()[i - 1]);
            }
        }
    }
}

/// A stop that passes leaves a stack that takes the room counted for it.
pub proof fn lemma_route_demand(
    s: SimulatorView,
    capacity: int,
    route: VehicleRouteView,
    sh: ShadowView,
)
    requires
        sh.demand == demand_of(sh.stack),
        check_route(s, capacity, route, sh).is_ok(),
    ensures
        check_route(s, capacity, route, sh).unwrap().demand == demand_of(
            check_route(s, capacity, route, sh).unwrap().stack,
        ),
        check_route(s, capacity, route, sh).unwrap().demand <= capacity,
{
    let sh0 = ShadowView { demand: sh.demand + route.work.delta_demand(), ..sh };
    let sh1 = check_unloads(s, route.destination, route.work.unload_items, sh0).unwrap();
    lemma_unloads_stack(s, route.destination, route.work.unload_items, sh0);
    lemma_loads_stack(s, route.destination, route.work.load_items, sh1);
    lemma_demand_concat(sh1.stack, route.work.unload_items);
    lemma_demand_concat(sh1.stack, route.work.load_items);
}

impl Simulator {
    fn play_route(&self, capacity: i64, route: &VehicleRoute, shadow: &mut Shadow) -> (r: Result<
        (),
        PlanError,
    >)
        requires
            old(shadow)@.demand == demand_of(old(shadow)@.stack),
        ensures
            match r {
                Ok(()) => check_route(self@, capacity as int, route@, old(shadow)@) == Ok::<
                    ShadowView,
                    PlanError,
                >(final(shadow)@) && final(shadow)@.demand == demand_of(final(shadow)@.stack),
                Err(e) => check_route(self@, capacity as int, route@, old(shadow)@) == Err::<
                    ShadowView,
                    PlanError,
                >(e),
            },
    {
        proof {
            lemma_demand_bounds(shadow@.stack);
            assert(shadow@.stack.len() == shadow.stack.len());
            assert(shadow@.demand == demand_of(shadow@.stack));
            assert(0 <= shadow.demand <= 4 * shadow.stack.len());
        }
        let delta: i128 = total_demand(&route.work.load_items) - total_demand(
            &route.work.unload_items,
        );
        let demand: i128 = shadow.demand + delta;
        if demand > capacity as i128 {
            return Err(PlanError::CapacityViolation);
        }
        shadow.demand = demand;
        match self.play_unloads(route, shadow) {
            Err(e) => {
                return Err(e);
            },
            Ok(()) => {},
        }
        match self.play_loads(route, shadow) {
            Err(e) => {
                return Err(e);
            },
            Ok(()) => {},
        }
        match self.check_order_split(&route.work.load_items, capacity) {
            Err(e) => {
                return Err(e);
            },
            Ok(()) => {},
        }
        match self.check_order_split(&route.work.unload_items, capacity) {
            Err(e) => {
                return Err(e);
            },
            Ok(()) => {},
        }
        proof {
            lemma_route_demand(self@, capacity as int, route@, old(shadow)@);
        }
        Ok(())
    }

    #[verifier::loop_isolation(false)]
    fn play_routes(&self, capacity: i64, routes: &Vec<VehicleRoute>, shadow: &mut Shadow) -> (r:
        Result<(), PlanError>)
        requires
            old(shadow)@.demand == demand_of(old(shadow)@.stack),
        ensures
            match r {
                Ok(()) => check_routes(self@, capacity as int, routes.deep_view(), old(shadow)@)
                    == Ok::<ShadowView, PlanError>(final(shadow)@),
                Err(e) => check_routes(self@, capacity as int, routes.deep_view(), old(shadow)@)
                    == Err::<ShadowView, PlanError>(e),
            },
    {
        let ghost s = self@;
        let ghost list = routes.deep_view();
        let ghost start = shadow@;
        assert(list.skip(0) =~= list);
        let mut i: usize = 0;
        while i < routes.len()
            invariant
                i <= routes.len(),
                shadow@.demand == demand_of(shadow@.stack),
                check_routes(s, capacity as int, list, start) == check_routes(
                    s,
                    capacity as int,
                    list.skip(i as int),
                    shadow@,
                ),
            decreases routes.len() - i,
        {
            proof {
                assert(list.skip(i as int)[0] == list[i as int]);
                assert(list.skip(i as int).drop_first() =~= list.skip(i + 1));
            }
            match self.play_route(capacity, &routes[i], shadow) {
                Err(e) => {
                    return Err(e);
                },
                Ok(()) => {},
            }
            i += 1;
        }
        Ok(())
    }

    /// Plays the stops planned for one vehicle against the copy `states` of
    /// the item states, and gives the copy back as the stops leave it.
    fn play_vehicle(
        &self,
        vehicle_id: &VehicleId,
        routes: &Vec<VehicleRoute>,
        states: OrderItemStateMap,
    ) -> (r: Result<OrderItemStateMap, PlanError>)
        ensures
            match r {
                Ok(next) => check_vehicle(self@, vehicle_id@, routes.deep_view(), states@) == Ok::<
                    Map<OrderItemIdView, OrderItemState>,
                    PlanError,
                >(next@),
                Err(e) => check_vehicle(self@, vehicle_id@, routes.deep_view(), states@) == Err::<
                    Map<OrderItemIdView, OrderItemState>,
                    PlanError,
                >(e),
            },
    {
        let info = match self.vehicles.get(vehicle_id) {
            Some(info) => info,
            None => {
                return Err(PlanError::UnknownVehicle);
            },
        };
        let state = match self.vehicle_states.get(vehicle_id) {
            Some(state) => state,
            None => {
                return Err(PlanError::UnknownVehicle);
            },
        };
        let stack = duplicate_vec(&state.allocated_item_stack);
        let demand: i128 = total_demand(&stack);
        let mut shadow = Shadow { stack, demand, states };
        match self.play_routes(info.capacity(), routes, &mut shadow) {
            Err(e) => Err(e),
            Ok(()) => Ok(shadow.states),
        }
    }

    /// Validates the stops planned for one vehicle against the item states as they are.
    pub fn check_vehicle_routes(&self, vehicle_id: &VehicleId, routes: &Vec<VehicleRoute>) -> (r: Result<
        (),
        PlanError,
    >)
        ensures
            match r {
                Ok(()) => check_vehicle(
                    self@,
                    vehicle_id@,
                    routes.deep_view(),
                    self@.order_item_states,
                ).is_ok(),
                Err(e) => check_vehicle(
                    self@,
                    vehicle_id@,
                    routes.deep_view(),
                    self@.order_item_states,
                ) == Err::<Map<OrderItemIdView, OrderItemState>, PlanError>(e),
            },
    {
        match self.play_vehicle(vehicle_id, routes, self.order_item_states.duplicate()) {
            Err(e) => Err(e),
            Ok(_) => Ok(()),
        }
    }

    /// Validates a plan: `Ok` where every vehicle's stops keep to the rules,
    /// and otherwise the first rule that is broken. The plan is played
    /// against one copy of the item states, vehicle after vehicle.
    #[verifier::loop_isolation(false)]
    pub fn check_planned_routes(&self, planned_routes: &Plan) -> (r: Result<(), PlanError>)
        ensures
            r == check_plan(
                self@,
                planned_routes.keys(),
                planned_routes.values(),
                self@.order_item_states,
            ),
    {
        let ghost s = self@;
        let ghost keys = planned_routes.keys();
        let ghost values = planned_routes.values();
        let n: usize = planned_routes.len();
        assert(keys.skip(0) =~= keys);
        assert(values.skip(0) =~= values);
        let mut states = self.order_item_states.duplicate();
        let mut i: usize = 0;
        while i < n
            invariant
                i <= n,
                check_plan(s, keys, values, s.order_item_states) == check_plan(
                    s,
                    keys.skip(i as int),
                    values.skip(i as int),
                    states@,
                ),
            decreases n - i,
        {
            proof {
                assert(keys.skip(i as int)[0] == keys[i as int]);
                assert(values.skip(i as int)[0] == values[i as int]);
                assert(keys.skip(i as int).drop_first() =~= keys.skip(i + 1));
                assert(values.skip(i as int).drop_first() =~= values.skip(i + 1));
            }
            match self.play_vehicle(planned_routes.key_at(i), planned_routes.value_at(i), states) {
                Err(e) => {
                    return Err(e);
                },
                Ok(next) => {
                    states = next;
                },
            }
            i += 1;
        }
        Ok(())
    }
}

} // verus!
