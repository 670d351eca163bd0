//! The work a vehicle does at a stop, and the events of the simulation.

use crate::model::factory_info::FactoryId;
use crate::model::order::OrderId;
use crate::model::order_item::{
    demand_of, lemma_demand_concat, total_demand, OrderItemId, OrderItemIdView, OrderItemMap,
    OrderItemView,
};
use crate::model::table::{duplicate_vec, Duplicate};
use crate::model::vehicle_info::VehicleId;
use crate::simulation::event_queue::Event;
use vstd::prelude::*;

verus! {

/// The time it takes to load or unload one box, in seconds.
pub const SECONDS_PER_BOX: i128 = 60;

/// What a vehicle does at one stop: the items it takes on and the items it puts down.
#[derive(Debug)]
pub struct VehicleWork {
    pub load_items: Vec<OrderItemId>,
    pub unload_items: Vec<OrderItemId>,
}

pub struct VehicleWorkView {
    pub load_items: Seq<OrderItemIdView>,
    pub unload_items: Seq<OrderItemIdView>,
}

impl VehicleWorkView {
    /// Seconds that loading takes: a minute for each box.
    pub open spec fn load_time(self) -> int {
        60 * demand_of(self.load_items)
    }

    /// Seconds that unloading takes: a minute for each box.
    pub open spec fn unload_time(self) -> int {
        60 * demand_of(self.unload_items)
    }

    /// By how many boxes the work changes what is on board.
    pub open spec fn delta_demand(self) -> int {
        demand_of(self.load_items) - demand_of(self.unload_items)
    }

    /// The work of two visits to one place done in one visit.
    pub open spec fn merge(self, other: VehicleWorkView) -> VehicleWorkView {
        VehicleWorkView {
            load_items: self.load_items + other.load_items,
            unload_items: self.unload_items + other.unload_items,
        }
    }
}

impl DeepView for VehicleWork {
    type V = VehicleWorkView;

    open spec fn deep_view(&self) -> VehicleWorkView {
        VehicleWorkView {
            load_items: self.load_items.deep_view(),
            unload_items: self.unload_items.deep_view(),
        }
    }
}

impl View for VehicleWork {
    type V = VehicleWorkView;

    open spec fn view(&self) -> VehicleWorkView {
        self.deep_view()
    }
}

impl Duplicate for VehicleWork {
    fn duplicate(&self) -> (r: Self) {
        VehicleWork {
            load_items: duplicate_vec(&self.load_items),
            unload_items: duplicate_vec(&self.unload_items),
        }
    }
}

impl Clone for VehicleWork {
    fn clone(&self) -> (r: Self)
        ensures
            r@ == self@,
    {
        self.duplicate()
    }
}

/// Every identifier of the list names an item of the catalogue.
pub open spec fn all_known(
    catalogue: Map<OrderItemIdView, OrderItemView>,
    ids: Seq<OrderItemIdView>,
) -> bool {
    forall|i: int| 0 <= i < ids.len() ==> catalogue.contains_key(#[trigger] ids[i])
}

impl VehicleWork {
    /// The work of taking on `pickup_items` and putting down `delivery_items`,
    /// all of them items of the catalogue.
    pub fn new(
        order_items: &OrderItemMap,
        pickup_items: Vec<OrderItemId>,
        delivery_items: Vec<OrderItemId>,
    ) -> (w: Self)
        requires
            all_known(order_items@, pickup_items.deep_view()),
            all_known(order_items@, delivery_items.deep_view()),
        ensures
            w@.load_items == pickup_items.deep_view(),
            w@.unload_items == delivery_items.deep_view(),
    {
        VehicleWork { load_items: pickup_items, unload_items: delivery_items }
    }

    /// The work of taking on `pickup_items` only.
    pub fn new_load(order_items: &OrderItemMap, pickup_items: Vec<OrderItemId>) -> (w: Self)
        requires
            all_known(order_items@, pickup_items.deep_view()),
        ensures
            w@.load_items == pickup_items.deep_view(),
            w@.unload_items == Seq::<OrderItemIdView>::empty(),
    {
        let none: Vec<OrderItemId> = Vec::new();
        assert(none.deep_view() =~= Seq::<OrderItemIdView>::empty());
        Self::new(order_items, pickup_items, none)
    }

    /// The work of putting down `pickup_items` only.
    pub fn new_unload(order_items: &OrderItemMap, pickup_items: Vec<OrderItemId>) -> (w: Self)
        requires
            all_known(order_items@, pickup_items.deep_view()),
        ensures
            w@.load_items == Seq::<OrderItemIdView>::empty(),
            w@.unload_items == pickup_items.deep_view(),
    {
        let none: Vec<OrderItemId> = Vec::new();
        assert(none.deep_view() =~= Seq::<OrderItemIdView>::empty());
        Self::new(order_items, none, pickup_items)
    }

    /// Seconds that the loading takes.
    pub fn load_time(&self) -> (t: i128)
        ensures
            t == self@.load_time(),
            0 <= t,
    {
        let d: i128 = total_demand(&self.load_items);
        d * SECONDS_PER_BOX
    }

    /// Seconds that the unloading takes.
    pub fn unload_time(&self) -> (t: i128)
        ensures
            t == self@.unload_time(),
            0 <= t,
    {
        let d: i128 = total_demand(&self.unload_items);
        d * SECONDS_PER_BOX
    }

    /// By how many boxes the work changes what is on board.
    pub fn delta_demand(&self, order_items: &OrderItemMap) -> (d: i128)
        requires
            all_known(order_items@, self@.load_items),
            all_known(order_items@, self@.unload_items),
        ensures
            d == self@.delta_demand(),
    {
        total_demand(&self.load_items) - total_demand(&self.unload_items)
    }

    /// Adds the work of a further visit to the same place.
    pub fn merge(&mut self, work: VehicleWork)
        ensures
            final(self)@ == old(self)@.merge(work@),
            final(self)@.load_time() == old(self)@.load_time() + work@.load_time(),
            final(self)@.unload_time() == old(self)@.unload_time() + work@.unload_time(),
    {
        let mut work = work;
        let ghost a = self@;
        let ghost b = work@;
        self.load_items.append(&mut work.load_items);
        self.unload_items.append(&mut work.unload_items);
        proof {
            assert(self@.load_items =~= a.load_items + b.load_items);
            assert(self@.unload_items =~= a.unload_items + b.unload_items);
            lemma_demand_concat(a.load_items, b.load_items);
            lemma_demand_concat(a.unload_items, b.unload_items);
        }
    }
}

/// What happens at an instant of the simulation.
#[derive(Debug)]
pub enum SimulatorEventData {
    /// The items of an order become available.
    OrderArrival { order_id: OrderId, order_item_ids: Vec<OrderItemId> },
    /// A vehicle reaches the factory it was driving to.
    VehicleArrival { vehicle_id: VehicleId, factory_id: FactoryId, work: VehicleWork },
    /// A vehicle has come up to the docks and asks for one.
    VehicleApproachedDock { vehicle_id: VehicleId, factory_id: FactoryId, work: VehicleWork },
    /// A vehicle has finished its work at a dock.
    FinishLoading { vehicle_id: VehicleId, factory_id: FactoryId, delivered_items: Vec<OrderItemId> },
    /// The scheduler is due.
    UpdateTimestep,
}

pub enum SimulatorEventDataView {
    OrderArrival { order_id: Seq<char>, order_item_ids: Seq<OrderItemIdView> },
    VehicleArrival { vehicle_id: Seq<char>, factory_id: Seq<char>, work: VehicleWorkView },
    VehicleApproachedDock { vehicle_id: Seq<char>, factory_id: Seq<char>, work: VehicleWorkView },
    FinishLoading {
        vehicle_id: Seq<char>,
        factory_id: Seq<char>,
        delivered_items: Seq<OrderItemIdView>,
    },
    UpdateTimestep,
}

impl DeepView for SimulatorEventData {
    type V = SimulatorEventDataView;

    open spec fn deep_view(&self) -> SimulatorEventDataView {
        match self {
            SimulatorEventData::OrderArrival { order_id, order_item_ids } => {
                SimulatorEventDataView::OrderArrival {
                    order_id: order_id@,
                    order_item_ids: order_item_ids.deep_view(),
                }
            },
            SimulatorEventData::VehicleArrival { vehicle_id, factory_id, work } => {
                SimulatorEventDataView::VehicleArrival {
                    vehicle_id: vehicle_id@,
                    factory_id: factory_id@,
                    work: work@,
                }
            },
            SimulatorEventData::VehicleApproachedDock { vehicle_id, factory_id, work } => {
                SimulatorEventDataView::VehicleApproachedDock {
                    vehicle_id: vehicle_id@,
                    factory_id: factory_id@,
                    work: work@,
                }
            },
            SimulatorEventData::FinishLoading { vehicle_id, factory_id, delivered_items } => {
                SimulatorEventDataView::FinishLoading {
                    vehicle_id: vehicle_id@,
                    factory_id: factory_id@,
                    delivered_items: delivered_items.deep_view(),
                }
            },
            SimulatorEventData::UpdateTimestep => SimulatorEventDataView::UpdateTimestep,
        }
    }
}

impl View for SimulatorEventData {
    type V = SimulatorEventDataView;

    open spec fn view(&self) -> SimulatorEventDataView {
        self.deep_view()
    }
}

impl Duplicate for SimulatorEventData {
    fn duplicate(&self) -> (r: Self) {
        match self {
            SimulatorEventData::OrderArrival { order_id, order_item_ids } => {
                SimulatorEventData::OrderArrival {
                    order_id: order_id.duplicate(),
                    order_item_ids: duplicate_vec(order_item_ids),
                }
            },
            SimulatorEventData::VehicleArrival { vehicle_id, factory_id, work } => {
                SimulatorEventData::VehicleArrival {
                    vehicle_id: vehicle_id.duplicate(),
                    factory_id: factory_id.duplicate(),
                    work: work.duplicate(),
                }
            },
            SimulatorEventData::VehicleApproachedDock { vehicle_id, factory_id, work } => {
                SimulatorEventData::VehicleApproachedDock {
                    vehicle_id: vehicle_id.duplicate(),
                    factory_id: factory_id.duplicate(),
                    work: work.duplicate(),
                }
            },
            SimulatorEventData::FinishLoading { vehicle_id, factory_id, delivered_items } => {
                SimulatorEventData::FinishLoading {
                    vehicle_id: vehicle_id.duplicate(),
                    factory_id: factory_id.duplicate(),
                    delivered_items: duplicate_vec(delivered_items),
                }
            },
            SimulatorEventData::UpdateTimestep => SimulatorEventData::UpdateTimestep,
        }
    }
}

impl Clone for SimulatorEventData {
    fn clone(&self) -> (r: Self)
        ensures
            r@ == self@,
    {
        self.duplicate()
    }
}

/// An event of the simulation with the instant at which it happens.
pub type SimEvent = (SimulatorEventData, i64);

pub type SimEventView = (SimulatorEventDataView, i64);

impl Event for (SimulatorEventData, i64) {
    open spec fn instant(model: (SimulatorEventDataView, i64)) -> int {
        model.1 as int
    }

    fn time(&self) -> (t: i64) {
        self.1
    }
}

impl Duplicate for (SimulatorEventData, i64) {
    fn duplicate(&self) -> (r: Self) {
        (self.0.duplicate(), self.1)
    }
}

} // verus!
