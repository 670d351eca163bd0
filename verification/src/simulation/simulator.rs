//! The kernel: its state, and the handler of each kind of event.

use crate::model::factory_info::{FactoryId, FactoryInfoMap};
use crate::model::order::{OrderId, OrderMap};
use crate::model::order_item::{
    demand_of, lemma_demand_concat, total_demand, OrderItemId, OrderItemIdView, OrderItemMap,
};
use crate::model::route_info::RouteMap;
use crate::model::table::{Duplicate, Key};
use crate::model::vehicle_info::{VehicleId, VehicleInfoMap};
use crate::simulation::event_queue::{
    lemma_enqueue_chronological, lemma_slot_bounds, slot, EventQueue,
};
use crate::simulation::rules::{
    all_catalogued, all_tracked, arrival_fault, begin_loading, begin_transporting, depart,
    deliver_time, ends_with, finish_load, fits, mark_all, mark_delivered, order_arrival,
    record_delivery, refines, release_dock, replace_top, unload_allowance, vehicle_arrival,
    vehicle_approached_dock, SimError, SimulatorView,
};
use crate::simulation::sim_event::{
    SimEvent, SimEventView, SimulatorEventData, SimulatorEventDataView, VehicleWork,
};
use crate::simulation::state::{
    FactoryStateMap, FactoryStateView, OrderItemState, OrderItemStateMap, VehiclePosition,
    VehiclePositionView, VehicleRoute, VehicleStateMap, VehicleStateView,
};
use vstd::prelude::*;

verus! {

/// The simulator: the reference data of an instance, the state of its
/// vehicles, factories and items, and the events still to come.
pub struct Simulator {
    pub(crate) routes: RouteMap,
    pub(crate) factories: FactoryInfoMap,
    pub(crate) vehicles: VehicleInfoMap,
    pub(crate) orders: OrderMap,
    pub(crate) order_items: OrderItemMap,
    pub(crate) initial_date: i64,
    pub(crate) time_interval: i64,
    pub(crate) vehicle_states: VehicleStateMap,
    pub(crate) factory_states: FactoryStateMap,
    pub(crate) order_item_states: OrderItemStateMap,
    pub(crate) dock_approaching_time: i64,
    pub(crate) events: EventQueue<SimEvent>,
    pub(crate) clock: i64,
    pub(crate) total_distance: i64,
    pub(crate) total_distance_last_timeslot: i64,
}

impl View for Simulator {
    type V = SimulatorView;

    open(crate) spec fn view(&self) -> SimulatorView {
        SimulatorView {
            routes: self.routes@,
            factories: self.factories@,
            vehicles: self.vehicles@,
            orders: self.orders@,
            order_items: self.order_items@,
            initial_date: self.initial_date as int,
            time_interval: self.time_interval as int,
            dock_approaching_time: self.dock_approaching_time as int,
            vehicle_states: self.vehicle_states@,
            factory_states: self.factory_states@,
            order_item_states: self.order_item_states@,
            events: self.events@,
            clock: self.clock as int,
            total_distance: self.total_distance as int,
            total_distance_last_timeslot: self.total_distance_last_timeslot as int,
        }
    }
}

/// A new event that is not before the clock keeps the pending events in order
/// and none of them before the clock.
pub proof fn lemma_push_events_wf(s: SimulatorView, data: SimulatorEventDataView, time: int)
    requires
        s.events_wf(),
        s.clock <= time,
        fits(time),
    ensures
        s.push(data, time).events_wf(),
{
    let e: SimEventView = (data, time as i64);
    lemma_enqueue_chronological::<SimEvent>(s.events, e);
    lemma_slot_bounds::<SimEvent>(s.events, time);
    let k = slot::<SimEvent>(s.events, time);
    let r = s.push(data, time).events;
    assert forall|i: int| 0 <= i < r.len() implies s.clock <= (#[trigger] r[i]).1 by {
        if i < k {
            assert(r[i] == s.events[i]);
        } else if i > k {
            assert(r[i] == s.events[i - 1]);
        }
    }
}

/// The room that a stack takes after its top has been replaced.
pub proof fn lemma_replace_top_demand(
    stack: Seq<OrderItemIdView>,
    unload: Seq<OrderItemIdView>,
    load: Seq<OrderItemIdView>,
)
    requires
        ends_with(stack, unload),
    ensures
        demand_of(replace_top(stack, unload, load)) == demand_of(stack) - demand_of(unload)
            + demand_of(load),
{
    let base = stack.subrange(0, stack.len() - unload.len());
    assert(stack =~= base + unload);
    lemma_demand_concat(base, unload);
    lemma_demand_concat(base, load);
}

/// One more element of a sequence is in its prefix that is longer by one.
pub proof fn lemma_take_contains<T>(s: Seq<T>, i: int, k: T)
    requires
        0 <= i < s.len(),
    ensures
        s.take(i + 1).contains(k) <==> (s.take(i).contains(k) || k == s[i]),
{
    let a = s.take(i + 1);
    let b = s.take(i);
    if a.contains(k) {
        let j = choose|j: int| 0 <= j < a.len() && a[j] == k;
        if j < i {
            assert(b[j] == k);
        }
    }
    if b.contains(k) {
        let j = choose|j: int| 0 <= j < b.len() && b[j] == k;
        assert(a[j] == k);
    }
    if k == s[i] {
        assert(a[i] == k);
    }
}

/// Whether the stack ends with the items of `top`.
#[verifier::loop_isolation(false)]
pub fn stack_ends_with(stack: &Vec<OrderItemId>, top: &Vec<OrderItemId>) -> (r: bool)
    ensures
        r == ends_with(stack.deep_view(), top.deep_view()),
{
    if top.len() > stack.len() {
        return false;
    }
    let base: usize = stack.len() - top.len();
    let ghost s = stack.deep_view();
    let ghost t = top.deep_view();
    let mut i: usize = 0;
    while i < top.len()
        invariant
            i <= top.len(),
            forall|j: int| 0 <= j < i ==> s[base + j] == t[j],
        decreases top.len() - i,
    {
        if !stack[base + i].same(&top[i]) {
            assert(s.subrange(s.len() - t.len(), s.len() as int)[i as int] == s[base + i]);
            return false;
        }
        i += 1;
    }
    assert(s.subrange(s.len() - t.len(), s.len() as int) =~= t);
    true
}

/// Whether every item of the list has a state.
#[verifier::loop_isolation(false)]
pub fn tracks_all(states: &OrderItemStateMap, ids: &Vec<OrderItemId>) -> (r: bool)
    ensures
        r == all_tracked(states@, ids.deep_view()),
{
    let mut i: usize = 0;
    while i < ids.len()
        invariant
            i <= ids.len(),
            forall|j: int| 0 <= j < i ==> states@.contains_key(#[trigger] ids.deep_view()[j]),
        decreases ids.len() - i,
    {
        if !states.contains_key(&ids[i]) {
            assert(!states@.contains_key(ids.deep_view()[i as int]));
            return false;
        }
        i += 1;
    }
    true
}

/// Gives every item of the list the state `st`.
#[verifier::loop_isolation(false)]
pub fn mark_items(states: &mut OrderItemStateMap, ids: &Vec<OrderItemId>, st: OrderItemState)
    requires
        all_tracked(old(states)@, ids.deep_view()),
    ensures
        final(states)@ == mark_all(old(states)@, ids.deep_view(), st),
{
    let ghost before = states@;
    let ghost list = ids.deep_view();
    assert(states@ =~= mark_all(before, list.take(0), st));
    let mut i: usize = 0;
    while i < ids.len()
        invariant
            i <= ids.len(),
            states@ == mark_all(before, list.take(i as int), st),
        decreases ids.len() - i,
    {
        let ghost now = states@;
        match states.position(&ids[i]) {
            Some(p) => {
                let slot = states.value_mut_at(p);
                *slot = st;
            },
            None => {
                assert(list.take(i as int).contains(list[i as int]) || before.contains_key(
                    list[i as int],
                ));
                assert(false);
            },
        }
        proof {
            assert(states@ == now.insert(list[i as int], st));
            assert forall|k: OrderItemIdView| list.take(i + 1).contains(k) <==> (list.take(
                i as int,
            ).contains(k) || k == list[i as int]) by {
                lemma_take_contains(list, i as int, k);
            }
            assert(states@ =~= mark_all(before, list.take(i + 1), st));
        }
        i += 1;
    }
    assert(list.take(i as int) =~= list);
}

/// Takes `unload` items off the top of the stack and puts copies of `load` on it.
#[verifier::loop_isolation(false)]
pub fn restack(stack: &mut Vec<OrderItemId>, unload: usize, load: &Vec<OrderItemId>)
    requires
        unload <= old(stack).len(),
    ensures
        final(stack).deep_view() == old(stack).deep_view().subrange(0, old(stack).len() - unload)
            + load.deep_view(),
{
    let ghost before = stack.deep_view();
    let keep: usize = stack.len() - unload;
    stack.truncate(keep);
    let ghost base = stack.deep_view();
    assert(base =~= before.subrange(0, keep as int));
    let mut i: usize = 0;
    while i < load.len()
        invariant
            i <= load.len(),
            stack.deep_view() == base + load.deep_view().take(i as int),
        decreases load.len() - i,
    {
        let ghost was = stack.deep_view();
        stack.push(load[i].duplicate());
        assert(stack.deep_view() =~= was.push(load.deep_view()[i as int]));
        assert(stack.deep_view() =~= base + load.deep_view().take(i + 1));
        i += 1;
    }
    assert(load.deep_view().take(i as int) =~= load.deep_view());
}

/// A copy of the list in the opposite order.
#[verifier::loop_isolation(false)]
pub fn reversed(ids: &Vec<OrderItemId>) -> (r: Vec<OrderItemId>)
    ensures
        r.deep_view() == ids.deep_view().reverse(),
{
    let mut r: Vec<OrderItemId> = Vec::new();
    let n: usize = ids.len();
    let mut i: usize = 0;
    while i < n
        invariant
            i <= n,
            r@.len() == i,
            forall|j: int| 0 <= j < i ==> r@[j].deep_view() == ids@[n - 1 - j].deep_view(),
        decreases n - i,
    {
        r.push(ids[n - 1 - i].duplicate());
        i += 1;
    }
    assert(r.deep_view() =~= ids.deep_view().reverse());
    r
}

impl Simulator {
    /// What holds of the kernel between any two events.
    pub open spec fn wf(&self) -> bool {
        self@.wf()
    }

    /// The instant of the event that was dispatched last.
    pub fn now(&self) -> (t: i64)
        ensures
            t == self@.clock,
    {
        self.clock
    }

    /// Adds an event that is not before the clock.
    pub(crate) fn schedule(&mut self, data: SimulatorEventData, time: i64)
        requires
            old(self)@.events_wf(),
            old(self)@.clock <= time,
        ensures
            final(self)@ == old(self)@.push(data@, time as int),
            final(self)@.events_wf(),
    {
        proof {
            lemma_push_events_wf(self@, data@, time as int);
        }
        self.events.push((data, time));
    }

    /// The items of an order become available.
    pub fn handle_order_arrival(
        &mut self,
        order_id: OrderId,
        order_item_ids: Vec<OrderItemId>,
        time: i64,
    ) -> (r: Result<(), SimError>)
        requires
            old(self).wf(),
        ensures
            final(self).wf(),
            match r {
                Ok(()) => order_arrival(old(self)@, order_item_ids.deep_view()) == Ok::<
                    SimulatorView,
                    SimError,
                >(final(self)@),
                Err(e) => order_arrival(old(self)@, order_item_ids.deep_view()) == Err::<
                    SimulatorView,
                    SimError,
                >(e) && final(self)@ == old(self)@,
            },
    {
        match self.find_arrival_fault(&order_item_ids) {
            Some(e) => Err(e),
            None => {
                proof {
                    lemma_no_arrival_fault(self@.order_item_states, order_item_ids.deep_view());
                }
                mark_items(&mut self.order_item_states, &order_item_ids, OrderItemState::Unallocated);
                Ok(())
            },
        }
    }

    #[verifier::loop_isolation(false)]
    fn find_arrival_fault(&self, ids: &Vec<OrderItemId>) -> (r: Option<SimError>)
        ensures
            r == arrival_fault(self@.order_item_states, ids.deep_view()),
    {
        let ghost list = ids.deep_view();
        let ghost states = self@.order_item_states;
        assert(list.skip(0) =~= list);
        let mut i: usize = 0;
        while i < ids.len()
            invariant
                i <= ids.len(),
                arrival_fault(states, list) == arrival_fault(states, list.skip(i as int)),
            decreases ids.len() - i,
        {
            assert(list.skip(i as int)[0] == list[i as int]);
            assert(list.skip(i as int).drop_first() =~= list.skip(i + 1));
            match self.order_item_states.get(&ids[i]) {
                None => {
                    return Some(SimError::UnknownItem);
                },
                Some(st) => {
                    if *st != OrderItemState::Unavailable {
                        return Some(SimError::ItemNotUnavailable);
                    }
                },
            }
            i += 1;
        }
        None
    }

    /// A vehicle reaches the factory it was driving to.
    pub fn handle_vehicle_arrival(
        &mut self,
        vehicle_id: VehicleId,
        factory_id: FactoryId,
        work: VehicleWork,
        time: i64,
    ) -> (r: Result<(), SimError>)
        requires
            old(self).wf(),
            old(self)@.clock <= time,
        ensures
            final(self).wf(),
            match r {
                Ok(()) => vehicle_arrival(
                    old(self)@,
                    vehicle_id@,
                    factory_id@,
                    work@,
                    time as int,
                ) == Ok::<SimulatorView, SimError>(final(self)@),
                Err(e) => vehicle_arrival(
                    old(self)@,
                    vehicle_id@,
                    factory_id@,
                    work@,
                    time as int,
                ) == Err::<SimulatorView, SimError>(e) && final(self)@ == old(self)@,
            },
    {
        let p: usize = match self.vehicle_states.position(&vehicle_id) {
            Some(p) => p,
            None => {
                return Err(SimError::UnknownVehicle);
            },
        };
        proof {
            self.vehicle_states.lemma_wf();
        }
        let heading_here = match &self.vehicle_states.value_at(p).position {
            VehiclePosition::Transporting(_, to) => to.same(&factory_id),
            _ => false,
        };
        if !heading_here {
            return Err(SimError::WrongPosition);
        }
        let at: i64 = match time.checked_add(self.dock_approaching_time) {
            Some(at) => at,
            None => {
                return Err(SimError::Overflow);
            },
        };
        let ghost before = self@;
        let state = self.vehicle_states.value_mut_at(p);
        state.position = VehiclePosition::DoingWork(factory_id.duplicate());
        let ghost mid = self@;
        proof {
            assert(mid.vehicle_states =~= before.vehicle_states.insert(
                vehicle_id@,
                VehicleStateView {
                    position: VehiclePositionView::DoingWork(factory_id@),
                    ..before.vehicle_states[vehicle_id@]
                },
            ));
            assert(mid.vehicle_states.dom() =~= before.vehicle_states.dom());
        }
        self.schedule(
            SimulatorEventData::VehicleApproachedDock { vehicle_id, factory_id, work },
            at,
        );
        Ok(())
    }
}

impl Simulator {
    /// Service of a vehicle at a dock begins.
    pub fn begin_vehicle_loading(
        &mut self,
        vehicle_id: VehicleId,
        factory_id: FactoryId,
        work: VehicleWork,
        time: i64,
    ) -> (r: Result<(), SimError>)
        requires
            old(self).wf(),
            old(self)@.clock <= time,
        ensures
            final(self).wf(),
            refines(
                r,
                begin_loading(old(self)@, vehicle_id@, factory_id@, work@, time as int),
                final(self)@,
            ),
            r.is_err() ==> final(self)@ == old(self)@,
    {
        let p: usize = match self.vehicle_states.position(&vehicle_id) {
            Some(p) => p,
            None => {
                return Err(SimError::UnknownVehicle);
            },
        };
        let state = self.vehicle_states.value_at(p);
        let here = match &state.position {
            VehiclePosition::DoingWork(at) => at.same(&factory_id),
            _ => false,
        };
        if !here {
            return Err(SimError::WrongPosition);
        }
        if !stack_ends_with(&state.item_stack, &work.unload_items) {
            return Err(SimError::LifoViolation);
        }
        if !tracks_all(&self.order_item_states, &work.load_items) {
            return Err(SimError::UnknownItem);
        }
        let ghost before = self@;
        let ghost v = vehicle_id@;
        assert(before.vehicles.dom().contains(v));
        let capacity: i64 = self.vehicles.gets(&vehicle_id).capacity();
        let demand: i128 = total_demand(&state.item_stack) - total_demand(&work.unload_items)
            + total_demand(&work.load_items);
        proof {
            lemma_replace_top_demand(
                before.vehicle_states[v].item_stack,
                work@.unload_items,
                work@.load_items,
            );
        }
        if demand > capacity as i128 {
            return Err(SimError::CapacityViolation);
        }
        let end: i128 = time as i128 + work.load_time() + work.unload_time();
        if end > i64::MAX as i128 {
            return Err(SimError::Overflow);
        }
        let state = self.vehicle_states.value_mut_at(p);
        restack(&mut state.item_stack, work.unload_items.len(), &work.load_items);
        mark_items(&mut self.order_item_states, &work.load_items, OrderItemState::PickedUp);
        let delivered_items = reversed(&work.unload_items);
        proof {
            let mid = self@;
            assert(mid.vehicle_states =~= before.vehicle_states.insert(
                v,
                VehicleStateView {
                    item_stack: replace_top(
                        before.vehicle_states[v].item_stack,
                        work@.unload_items,
                        work@.load_items,
                    ),
                    ..before.vehicle_states[v]
                },
            ));
            assert(mid.vehicle_states.dom() =~= before.vehicle_states.dom());
            assert(mid.within_capacity());
        }
        self.schedule(
            SimulatorEventData::FinishLoading { vehicle_id, factory_id, delivered_items },
            end as i64,
        );
        Ok(())
    }

    /// A vehicle asks for a dock.
    pub fn handle_vehicle_approached_dock(
        &mut self,
        vehicle_id: VehicleId,
        factory_id: FactoryId,
        work: VehicleWork,
        time: i64,
    ) -> (r: Result<(), SimError>)
        requires
            old(self).wf(),
            old(self)@.clock <= time,
        ensures
            final(self).wf(),
            refines(
                r,
                vehicle_approached_dock(old(self)@, vehicle_id@, factory_id@, work@, time as int),
                final(self)@,
            ),
            r.is_err() ==> final(self)@ == old(self)@,
    {
        let ghost before = self@;
        let p: usize = match self.factory_states.position(&factory_id) {
            Some(p) => p,
            None => {
                return Err(SimError::UnknownFactory);
            },
        };
        if self.factory_states.value_at(p).num_avail_docks == 0 {
            let state = self.factory_states.value_mut_at(p);
            let ghost was = state.queue.deep_view();
            state.queue.push_back((vehicle_id, work));
            proof {
                assert(state.queue.deep_view() =~= was.push((vehicle_id@, work@)));
                let mid = self@;
                assert(mid.factory_states.dom() =~= before.factory_states.dom());
            }
            Ok(())
        } else {
            let f = factory_id.duplicate();
            match self.begin_vehicle_loading(vehicle_id, factory_id, work, time) {
                Err(e) => Err(e),
                Ok(()) => {
                    let ghost loaded = self@;
                    match self.factory_states.position(&f) {
                        Some(q) => {
                            let state = self.factory_states.value_mut_at(q);
                            state.num_avail_docks = state.num_avail_docks - 1;
                        },
                        None => {
                            assert(false);
                        },
                    }
                    proof {
                        let mid = self@;
                        assert(mid.factory_states.dom() =~= loaded.factory_states.dom());
                    }
                    Ok(())
                },
            }
        }
    }

    /// A vehicle leaves a factory for the next stop of its plan.
    pub fn begin_vehicle_transporting(
        &mut self,
        vehicle_id: VehicleId,
        factory_id: FactoryId,
        route: VehicleRoute,
        time: i64,
    ) -> (r: Result<(), SimError>)
        requires
            old(self).wf(),
            old(self)@.clock <= time,
        ensures
            final(self).wf(),
            refines(
                r,
                begin_transporting(old(self)@, vehicle_id@, factory_id@, route@, time as int),
                final(self)@,
            ),
            r.is_err() ==> final(self)@ == old(self)@,
    {
        let p: usize = match self.vehicle_states.position(&vehicle_id) {
            Some(p) => p,
            None => {
                return Err(SimError::UnknownVehicle);
            },
        };
        let state = self.vehicle_states.value_at(p);
        let here = match &state.position {
            VehiclePosition::Idle(at) => at.same(&factory_id),
            _ => false,
        };
        if !here {
            return Err(SimError::WrongPosition);
        }
        if !tracks_all(&self.order_item_states, &route.work.load_items) {
            return Err(SimError::UnknownItem);
        }
        let travel: i64 = match self.routes.query_time(
            factory_id.duplicate(),
            route.destination.duplicate(),
        ) {
            Some(t) => t,
            None => {
                return Err(SimError::NoRoute);
            },
        };
        if !stack_ends_with(&state.allocated_item_stack, &route.work.unload_items) {
            return Err(SimError::LifoViolation);
        }
        let ghost before = self@;
        let ghost v = vehicle_id@;
        assert(before.vehicles.dom().contains(v));
        let capacity: i64 = self.vehicles.gets(&vehicle_id).capacity();
        let demand: i128 = total_demand(&state.allocated_item_stack) - total_demand(
            &route.work.unload_items,
        ) + total_demand(&route.work.load_items);
        proof {
            lemma_replace_top_demand(
                before.vehicle_states[v].allocated_item_stack,
                route@.work.unload_items,
                route@.work.load_items,
            );
        }
        if demand > capacity as i128 {
            return Err(SimError::CapacityViolation);
        }
        let length: i64 = match self.routes.query_distance(
            factory_id.duplicate(),
            route.destination.duplicate(),
        ) {
            Some(d) => d,
            None => {
                assert(false);
                0
            },
        };
        let arrival: i64 = match time.checked_add(travel) {
            Some(t) => t,
            None => {
                return Err(SimError::Overflow);
            },
        };
        let total: i64 = match self.total_distance.checked_add(length) {
            Some(t) => t,
            None => {
                return Err(SimError::Overflow);
            },
        };
        let state = self.vehicle_states.value_mut_at(p);
        state.position = VehiclePosition::Transporting(factory_id, route.destination.duplicate());
        restack(
            &mut state.allocated_item_stack,
            route.work.unload_items.len(),
            &route.work.load_items,
        );
        mark_items(&mut self.order_item_states, &route.work.load_items, OrderItemState::Allocated);
        self.total_distance = total;
        proof {
            let mid = self@;
            assert(mid.vehicle_states =~= before.vehicle_states.insert(
                v,
                VehicleStateView {
                    position: VehiclePositionView::Transporting(factory_id@, route@.destination),
                    allocated_item_stack: replace_top(
                        before.vehicle_states[v].allocated_item_stack,
                        route@.work.unload_items,
                        route@.work.load_items,
                    ),
                    ..before.vehicle_states[v]
                },
            ));
            assert(mid.vehicle_states.dom() =~= before.vehicle_states.dom());
            assert(mid.within_capacity());
        }
        self.schedule(
            SimulatorEventData::VehicleArrival {
                vehicle_id,
                factory_id: route.destination,
                work: route.work,
            },
            arrival,
        );
        Ok(())
    }
}

/// The allowance of a list grows with the list.
pub proof fn lemma_allowance_monotone(s: SimulatorView, ids: Seq<OrderItemIdView>, i: int)
    requires
        s.catalogue_wf(),
        all_catalogued(s.order_items, ids),
        0 <= i <= ids.len(),
    ensures
        0 <= unload_allowance(s.order_items, ids.take(i)) <= unload_allowance(s.order_items, ids),
    decreases ids.len() - i,
{
    if i == ids.len() {
        assert(ids.take(i) =~= ids);
        lemma_allowance_nonnegative(s, ids);
    } else {
        lemma_allowance_monotone(s, ids, i + 1);
        assert(ids.take(i + 1).drop_last() =~= ids.take(i));
        assert(ids.take(i + 1).last() == ids[i]);
        assert(s.order_items.contains_key(ids[i]));
        lemma_allowance_nonnegative(s, ids.take(i));
    }
}

pub proof fn lemma_allowance_nonnegative(s: SimulatorView, ids: Seq<OrderItemIdView>)
    requires
        s.catalogue_wf(),
        all_catalogued(s.order_items, ids),
    ensures
        0 <= unload_allowance(s.order_items, ids),
    decreases ids.len(),
{
    if ids.len() > 0 {
        assert(all_catalogued(s.order_items, ids.drop_last())) by {
            assert forall|j: int| 0 <= j < ids.drop_last().len() implies s.order_items.contains_key(
                #[trigger] ids.drop_last()[j],
            ) by {
                assert(ids.drop_last()[j] == ids[j]);
            }
        }
        lemma_allowance_nonnegative(s, ids.drop_last());
        assert(s.order_items.contains_key(ids[ids.len() - 1]));
    }
}

impl Simulator {
    /// The dock that a vehicle leaves goes to the first in line, or becomes free.
    pub fn release_dock(&mut self, factory_id: &FactoryId, time: i64) -> (r: Result<(), SimError>)
        requires
            old(self).wf(),
            old(self)@.clock <= time,
        ensures
            final(self).wf(),
            refines(r, release_dock(old(self)@, factory_id@, time as int), final(self)@),
            r.is_err() ==> final(self)@ == old(self)@,
    {
        let ghost before = self@;
        let ghost f = factory_id@;
        let p: usize = match self.factory_states.position(factory_id) {
            Some(p) => p,
            None => {
                return Err(SimError::UnknownFactory);
            },
        };
        let state = self.factory_states.value_at(p);
        if state.queue.len() > 0 {
            let next = state.queue[0].duplicate();
            let ghost waiting = SimulatorView {
                factory_states: before.factory_states.insert(
                    f,
                    FactoryStateView {
                        queue: before.factory_states[f].queue.drop_first(),
                        ..before.factory_states[f]
                    },
                ),
                ..before
            };
            match self.begin_vehicle_loading(next.0, factory_id.duplicate(), next.1, time) {
                Err(e) => Err(e),
                Ok(()) => {
                    let ghost loaded = self@;
                    match self.factory_states.position(factory_id) {
                        Some(q) => {
                            let state = self.factory_states.value_mut_at(q);
                            let ghost was = state.queue.deep_view();
                            let _ = state.queue.pop_front();
                            assert(state.queue.deep_view() =~= was.drop_first());
                        },
                        None => {
                            assert(false);
                        },
                    }
                    proof {
                        let mid = self@;
                        assert(mid.factory_states.dom() =~= loaded.factory_states.dom());
                        assert(mid.factory_states =~= waiting.factory_states);
                    }
                    Ok(())
                },
            }
        } else {
            assert(before.factories.dom().contains(f));
            let ports: i32 = self.factories.gets(factory_id).port_num;
            if state.num_avail_docks >= ports {
                return Err(SimError::NoBusyDock);
            }
            let state = self.factory_states.value_mut_at(p);
            state.num_avail_docks = state.num_avail_docks + 1;
            proof {
                let mid = self@;
                assert(mid.factory_states.dom() =~= before.factory_states.dom());
            }
            Ok(())
        }
    }

    /// Whether every item of the list is in the catalogue.
    #[verifier::loop_isolation(false)]
    fn catalogues_all(&self, ids: &Vec<OrderItemId>) -> (r: bool)
        ensures
            r == all_catalogued(self@.order_items, ids.deep_view()),
    {
        let mut i: usize = 0;
        while i < ids.len()
            invariant
                i <= ids.len(),
                forall|j: int|
                    0 <= j < i ==> self@.order_items.contains_key(#[trigger] ids.deep_view()[j]),
            decreases ids.len() - i,
        {
            if !self.order_items.contains_key(&ids[i]) {
                assert(!self@.order_items.contains_key(ids.deep_view()[i as int]));
                return false;
            }
            i += 1;
        }
        true
    }

    /// The instant to which the delivery of the listed items is attributed
    /// when their service ends at `time`; `None` where it is no 64-bit integer.
    #[verifier::loop_isolation(false)]
    fn attribute_delivery(&self, ids: &Vec<OrderItemId>, time: i64) -> (r: Option<i64>)
        requires
            self.wf(),
            all_catalogued(self@.order_items, ids.deep_view()),
        ensures
            r.is_some() == fits(deliver_time(self@, ids.deep_view(), time as int)),
            r.is_some() ==> r.unwrap() == deliver_time(self@, ids.deep_view(), time as int),
    {
        let ghost list = ids.deep_view();
        let ghost s = self@;
        let start: i128 = time as i128 - self.dock_approaching_time as i128;
        let floor: i128 = i64::MIN as i128;
        proof {
            lemma_allowance_nonnegative(s, list);
        }
        if start < floor {
            return None;
        }
        let mut allowance: i128 = 0;
        let mut i: usize = 0;
        while i < ids.len()
            invariant
                i <= ids.len(),
                allowance == unload_allowance(s.order_items, list.take(i as int)),
                0 <= allowance,
                start - allowance >= floor,
            decreases ids.len() - i,
        {
            proof {
                assert(list.take(i + 1).drop_last() =~= list.take(i as int));
                assert(list.take(i + 1).last() == list[i as int]);
                assert(s.order_items.contains_key(list[i as int]));
                lemma_allowance_monotone(s, list, i + 1);
            }
            let item = self.order_items.gets(&ids[i]);
            allowance = allowance + item.unload_time as i128;
            if start - allowance < floor {
                return None;
            }
            i += 1;
        }
        assert(list.take(i as int) =~= list);
        let at: i128 = start - allowance;
        if at > i64::MAX as i128 {
            None
        } else {
            Some(at as i64)
        }
    }

    /// The items that a service has put down count as delivered.
    #[verifier::loop_isolation(false)]
    pub fn record_delivery(&mut self, delivered_items: &Vec<OrderItemId>, time: i64) -> (r: Result<
        (),
        SimError,
    >)
        requires
            old(self).wf(),
        ensures
            final(self).wf(),
            refines(
                r,
                record_delivery(old(self)@, delivered_items.deep_view(), time as int),
                final(self)@,
            ),
            r.is_err() ==> final(self)@ == old(self)@,
    {
        if !self.catalogues_all(delivered_items) {
            return Err(SimError::UnknownItem);
        }
        let at: i64 = match self.attribute_delivery(delivered_items, time) {
            Some(at) => at,
            None => {
                return Err(SimError::Overflow);
            },
        };
        let ghost before = self@;
        let ghost list = delivered_items.deep_view();
        assert(self@.order_item_states =~= mark_delivered(before, list.take(0), at as int));
        let mut i: usize = 0;
        while i < delivered_items.len()
            invariant
                i <= delivered_items.len(),
                self@ == (SimulatorView {
                    order_item_states: mark_delivered(before, list.take(i as int), at as int),
                    ..before
                }),
            decreases delivered_items.len() - i,
        {
            let id = &delivered_items[i];
            let ghost k = list[i as int];
            assert(before.order_items.contains_key(k));
            assert(before.order_items.dom().contains(k));
            assert(before.order_item_states.dom().contains(k));
            let order = self.orders.gets(&id.order_id);
            let deadline: i64 = order.committed_completion_time(self.initial_date);
            let ghost now = self@;
            match self.order_item_states.position(id) {
                Some(p) => {
                    let slot = self.order_item_states.value_mut_at(p);
                    *slot = OrderItemState::delivered(deadline, at);
                },
                None => {
                    assert(now.order_item_states.contains_key(k));
                    assert(false);
                },
            }
            proof {
                assert forall|x: OrderItemIdView| list.take(i + 1).contains(x) <==> (list.take(
                    i as int,
                ).contains(x) || x == k) by {
                    lemma_take_contains(list, i as int, x);
                }
                assert(self@.order_item_states =~= mark_delivered(
                    before,
                    list.take(i + 1),
                    at as int,
                ));
            }
            i += 1;
        }
        assert(list.take(i as int) =~= list);
        Ok(())
    }

    /// A vehicle whose service has ended is free again, and leaves at once for
    /// the next stop of its plan if it has one. After a failure the simulator
    /// is well-formed, and nothing more is said of its state.
    pub fn depart(&mut self, vehicle_id: VehicleId, factory_id: FactoryId, time: i64) -> (r: Result<
        (),
        SimError,
    >)
        requires
            old(self).wf(),
            old(self)@.clock <= time,
        ensures
            final(self).wf(),
            final(self)@.clock == old(self)@.clock,
            refines(r, depart(old(self)@, vehicle_id@, factory_id@, time as int), final(self)@),
    {
        let ghost before = self@;
        let ghost v = vehicle_id@;
        let p: usize = match self.vehicle_states.position(&vehicle_id) {
            Some(p) => p,
            None => {
                return Err(SimError::UnknownVehicle);
            },
        };
        let here = match &self.vehicle_states.value_at(p).position {
            VehiclePosition::DoingWork(at) => at.same(&factory_id),
            _ => false,
        };
        if !here {
            return Err(SimError::WrongPosition);
        }
        let state = self.vehicle_states.value_mut_at(p);
        state.position = VehiclePosition::Idle(factory_id.duplicate());
        let ghost was = state.current_route.deep_view();
        let next = state.current_route.pop_front();
        proof {
            if was.len() > 0 {
                assert(state.current_route.deep_view() =~= was.drop_first());
            } else {
                assert(state.current_route.deep_view() =~= was);
            }
            let mid = self@;
            assert(mid.vehicle_states.dom() =~= before.vehicle_states.dom());
            assert(mid.within_capacity());
        }
        match next {
            None => {
                proof {
                    assert(self@.vehicle_states =~= before.vehicle_states.insert(
                        v,
                        VehicleStateView {
                            position: VehiclePositionView::Idle(factory_id@),
                            ..before.vehicle_states[v]
                        },
                    ));
                }
                Ok(())
            },
            Some(route) => {
                proof {
                    assert(self@.vehicle_states =~= before.vehicle_states.insert(
                        v,
                        VehicleStateView {
                            position: VehiclePositionView::Idle(factory_id@),
                            current_route: before.vehicle_states[v].current_route.drop_first(),
                            ..before.vehicle_states[v]
                        },
                    ));
                }
                self.begin_vehicle_transporting(vehicle_id, factory_id, route, time)
            },
        }
    }

    /// The service of a vehicle at a dock ends: the dock is released, what was
    /// put down counts as delivered, and the vehicle goes on. After a failure
    /// the simulator is well-formed, and nothing more is said of its state.
    pub fn handle_finish_load(
        &mut self,
        vehicle_id: VehicleId,
        factory_id: FactoryId,
        delivered_items: Vec<OrderItemId>,
        time: i64,
    ) -> (r: Result<(), SimError>)
        requires
            old(self).wf(),
            old(self)@.clock <= time,
        ensures
            final(self).wf(),
            final(self)@.clock == old(self)@.clock,
            refines(
                r,
                finish_load(
                    old(self)@,
                    vehicle_id@,
                    factory_id@,
                    delivered_items.deep_view(),
                    time as int,
                ),
                final(self)@,
            ),
    {
        match self.release_dock(&factory_id, time) {
            Err(e) => {
                return Err(e);
            },
            Ok(()) => {},
        }
        match self.record_delivery(&delivered_items, time) {
            Err(e) => {
                return Err(e);
            },
            Ok(()) => {},
        }
        self.depart(vehicle_id, factory_id, time)
    }
}

/// Where no item of an arriving order stands in the way, each has a state.
pub proof fn lemma_no_arrival_fault(
    states: Map<OrderItemIdView, OrderItemState>,
    ids: Seq<OrderItemIdView>,
)
    requires
        arrival_fault(states, ids).is_none(),
    ensures
        all_tracked(states, ids),
        forall|i: int| 0 <= i < ids.len() ==> states[#[trigger] ids[i]] == OrderItemState::Unavailable,
    decreases ids.len(),
{
    if ids.len() > 0 {
        lemma_no_arrival_fault(states, ids.drop_first());
        assert forall|i: int| 0 <= i < ids.len() implies states.contains_key(#[trigger] ids[i])
            && states[ids[i]] == OrderItemState::Unavailable by {
            if i > 0 {
                assert(ids[i] == ids.drop_first()[i - 1]);
            }
        }
    }
}

} // verus!
