//! Reading the state of a simulator.

use crate::model::factory_info::{FactoryId, FactoryInfoMap};
use crate::model::order::OrderMap;
use crate::model::order_item::{OrderItemId, OrderItemMap};
use crate::model::route_info::RouteMap;
use crate::model::table::{duplicate_vec, Duplicate};
use crate::model::vehicle_info::{VehicleId, VehicleInfoMap};
use crate::simulation::engagement::lemma_same_parts;
use crate::simulation::fitting::lemma_fitted_frame;
use crate::simulation::rules::SimulatorView;
use crate::simulation::soundness::sound;
use crate::simulation::sim_event::SimEvent;
use crate::simulation::simulator::Simulator;
use crate::simulation::state::{OrderItemState, VehiclePosition};
use crate::simulation::custody::lemma_same_custody;
use vstd::prelude::*;

verus! {

impl Simulator {
    /// The road network.
    pub fn routes(&self) -> (r: &RouteMap)
        ensures
            r@ == self@.routes,
    {
        &self.routes
    }

    /// The factories of the instance.
    pub fn factories(&self) -> (r: &FactoryInfoMap)
        ensures
            r@ == self@.factories,
    {
        &self.factories
    }

    /// The vehicles of the instance.
    pub fn vehicles(&self) -> (r: &VehicleInfoMap)
        ensures
            r@ == self@.vehicles,
    {
        &self.vehicles
    }

    /// The orders that the simulator knows.
    pub fn orders(&self) -> (r: &OrderMap)
        ensures
            r@ == self@.orders,
    {
        &self.orders
    }

    /// The items that the simulator knows.
    pub fn order_items(&self) -> (r: &OrderItemMap)
        ensures
            r@ == self@.order_items,
    {
        &self.order_items
    }

    /// The instant at which the day of the simulation starts.
    pub fn initial_date(&self) -> (t: i64)
        ensures
            t == self@.initial_date,
    {
        self.initial_date
    }

    /// Seconds between two calls of the scheduler.
    pub fn time_interval(&self) -> (t: i64)
        ensures
            t == self@.time_interval,
    {
        self.time_interval
    }

    /// Seconds between a vehicle's arrival and its request for a dock.
    pub fn dock_approaching_time(&self) -> (t: i64)
        ensures
            t == self@.dock_approaching_time,
    {
        self.dock_approaching_time
    }

    /// Sets the seconds between two calls of the scheduler, if they are
    /// more than none and at most 2^48, and tells whether it did.
    pub fn set_time_interval(&mut self, seconds: i64) -> (done: bool)
        requires
            old(self).wf(),
        ensures
            final(self).wf(),
            done == (0 < seconds <= 0x1_0000_0000_0000),
            final(self)@ == if done {
                SimulatorView { time_interval: seconds as int, ..old(self)@ }
            } else {
                old(self)@
            },
            sound(old(self)@) ==> sound(final(self)@),
    {
        if 0 < seconds && seconds <= 0x1_0000_0000_0000 {
            self.time_interval = seconds;
            proof {
                if sound(old(self)@) {
                    lemma_same_parts(old(self)@, self@, Set::empty());
                    lemma_fitted_frame(old(self)@, self@);
                    lemma_same_custody(old(self)@, self@);
                }
            }
            true
        } else {
            false
        }
    }

    /// Sets the seconds between a vehicle's arrival and its request for a
    /// dock, if they are not negative, and tells whether it did.
    pub fn set_dock_approaching_time(&mut self, seconds: i64) -> (done: bool)
        requires
            old(self).wf(),
        ensures
            final(self).wf(),
            done == (0 <= seconds),
            final(self)@ == if done {
                SimulatorView { dock_approaching_time: seconds as int, ..old(self)@ }
            } else {
                old(self)@
            },
            sound(old(self)@) ==> sound(final(self)@),
    {
        if 0 <= seconds {
            self.dock_approaching_time = seconds;
            proof {
                if sound(old(self)@) {
                    lemma_same_parts(old(self)@, self@, Set::empty());
                    lemma_fitted_frame(old(self)@, self@);
                    lemma_same_custody(old(self)@, self@);
                }
            }
            true
        } else {
            false
        }
    }

    /// The distance that all vehicles have driven.
    pub fn total_distance(&self) -> (d: i64)
        ensures
            d == self@.total_distance,
    {
        self.total_distance
    }

    /// Where a vehicle is; `None` for a vehicle that the instance does not have.
    pub fn vehicle_position(&self, vehicle_id: &VehicleId) -> (r: Option<VehiclePosition>)
        ensures
            r.is_some() == self@.vehicle_states.contains_key(vehicle_id@),
            r.is_some() ==> r.unwrap()@ == self@.vehicle_states[vehicle_id@].position,
    {
        match self.vehicle_states.get(vehicle_id) {
            Some(state) => Some(state.position.duplicate()),
            None => None,
        }
    }

    /// The items on board of a vehicle, the last loaded last.
    pub fn item_stack(&self, vehicle_id: &VehicleId) -> (r: Option<Vec<OrderItemId>>)
        ensures
            r.is_some() == self@.vehicle_states.contains_key(vehicle_id@),
            r.is_some() ==> r.unwrap().deep_view() == self@.vehicle_states[vehicle_id@].item_stack,
    {
        match self.vehicle_states.get(vehicle_id) {
            Some(state) => Some(duplicate_vec(&state.item_stack)),
            None => None,
        }
    }

    /// The stack of a vehicle as it will be after the trip that has begun.
    pub fn allocated_item_stack(&self, vehicle_id: &VehicleId) -> (r: Option<Vec<OrderItemId>>)
        ensures
            r.is_some() == self@.vehicle_states.contains_key(vehicle_id@),
            r.is_some() ==> r.unwrap().deep_view()
                == self@.vehicle_states[vehicle_id@].allocated_item_stack,
    {
        match self.vehicle_states.get(vehicle_id) {
            Some(state) => Some(duplicate_vec(&state.allocated_item_stack)),
            None => None,
        }
    }

    /// The number of stops that a vehicle still has before it.
    pub fn pending_stops(&self, vehicle_id: &VehicleId) -> (r: Option<usize>)
        ensures
            r.is_some() == self@.vehicle_states.contains_key(vehicle_id@),
            r.is_some() ==> r.unwrap()
                == self@.vehicle_states[vehicle_id@].current_route.len(),
    {
        match self.vehicle_states.get(vehicle_id) {
            Some(state) => Some(state.current_route.len()),
            None => None,
        }
    }

    /// The state of an item; `None` for an item without a state.
    pub fn item_state(&self, id: &OrderItemId) -> (r: Option<OrderItemState>)
        ensures
            r.is_some() == self@.order_item_states.contains_key(id@),
            r.is_some() ==> r.unwrap() == self@.order_item_states[id@],
    {
        match self.order_item_states.get(id) {
            Some(state) => Some(*state),
            None => None,
        }
    }

    /// The docks of a factory at which no vehicle is served.
    pub fn free_docks(&self, factory_id: &FactoryId) -> (r: Option<i32>)
        ensures
            r.is_some() == self@.factory_states.contains_key(factory_id@),
            r.is_some() ==> r.unwrap() == self@.factory_states[factory_id@].num_avail_docks,
    {
        match self.factory_states.get(factory_id) {
            Some(state) => Some(state.num_avail_docks),
            None => None,
        }
    }

    /// The number of vehicles that wait for a dock of a factory.
    pub fn waiting_vehicles(&self, factory_id: &FactoryId) -> (r: Option<usize>)
        ensures
            r.is_some() == self@.factory_states.contains_key(factory_id@),
            r.is_some() ==> r.unwrap() == self@.factory_states[factory_id@].queue.len(),
    {
        match self.factory_states.get(factory_id) {
            Some(state) => Some(state.queue.len()),
            None => None,
        }
    }

    /// The number of pending events.
    pub fn pending_events(&self) -> (n: usize)
        ensures
            n == self@.events.len(),
    {
        self.events.len()
    }

    /// A copy of the next event; `None` where none is pending.
    pub fn next_event(&self) -> (r: Option<SimEvent>)
        ensures
            r.is_some() == (self@.events.len() > 0),
            r.is_some() ==> r.unwrap().deep_view() == self@.events[0],
    {
        match self.events.peek() {
            Some(event) => Some(event.duplicate()),
            None => None,
        }
    }
}

} // verus!
