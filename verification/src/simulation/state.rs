//! What changes while the simulation runs: where each vehicle is and what it
//! carries, which docks are free, and how far each item has come.

use crate::model::factory_info::FactoryId;
use crate::model::order_item::{OrderItemId, OrderItemIdView, OrderItemMap};
use crate::model::table::{duplicate_vec, Duplicate, Key, MapType};
use crate::model::vehicle_info::VehicleId;
use crate::simulation::sim_event::{all_known, VehicleWork, VehicleWorkView};
use std::collections::VecDeque;
use vstd::prelude::*;

verus! {

/// One stop of a vehicle's plan: where to drive, and what to do there.
#[derive(Debug)]
pub struct VehicleRoute {
    pub destination: FactoryId,
    pub work: VehicleWork,
}

pub struct VehicleRouteView {
    pub destination: Seq<char>,
    pub work: VehicleWorkView,
}

impl DeepView for VehicleRoute {
    type V = VehicleRouteView;

    open spec fn deep_view(&self) -> VehicleRouteView {
        VehicleRouteView { destination: self.destination@, work: self.work@ }
    }
}

impl View for VehicleRoute {
    type V = VehicleRouteView;

    open spec fn view(&self) -> VehicleRouteView {
        self.deep_view()
    }
}

impl Duplicate for VehicleRoute {
    fn duplicate(&self) -> (r: Self) {
        VehicleRoute { destination: self.destination.duplicate(), work: self.work.duplicate() }
    }
}

impl Clone for VehicleRoute {
    fn clone(&self) -> (r: Self)
        ensures
            r@ == self@,
    {
        self.duplicate()
    }
}

impl VehicleRouteView {
    /// The stop that does the work of `self` and then that of `other`, at the same place.
    pub open spec fn merge(self, other: VehicleRouteView) -> VehicleRouteView {
        VehicleRouteView { destination: self.destination, work: self.work.merge(other.work) }
    }
}

impl VehicleRoute {
    pub fn new(destination: FactoryId, work: VehicleWork) -> (r: Self)
        ensures
            r@ == (VehicleRouteView { destination: destination@, work: work@ }),
    {
        VehicleRoute { destination, work }
    }

    /// By how many boxes the stop changes what is on board.
    pub fn delta_demand(&self, order_items: &OrderItemMap) -> (d: i128)
        requires
            all_known(order_items@, self@.work.load_items),
            all_known(order_items@, self@.work.unload_items),
        ensures
            d == self@.work.delta_demand(),
    {
        self.work.delta_demand(order_items)
    }

    /// Takes the work of `route` into this stop if both are at the same place,
    /// and hands `route` back if they are not.
    pub fn try_merge(&mut self, route: VehicleRoute) -> (r: Result<(), VehicleRoute>)
        ensures
            r.is_ok() <==> old(self)@.destination == route@.destination,
            r.is_ok() ==> final(self)@ == old(self)@.merge(route@),
            r.is_ok() ==> final(self)@.work.load_time() == old(self)@.work.load_time()
                + route@.work.load_time(),
            r.is_ok() ==> final(self)@.work.unload_time() == old(self)@.work.unload_time()
                + route@.work.unload_time(),
            r.is_err() ==> final(self)@ == old(self)@ && r.unwrap_err()@ == route@,
    {
        if self.destination.same(&route.destination) {
            self.work.merge(route.work);
            Ok(())
        } else {
            Err(route)
        }
    }
}

/// Where a vehicle is.
#[derive(Debug)]
pub enum VehiclePosition {
    /// Waiting at a factory, free to leave.
    Idle(FactoryId),
    /// At a factory, on the way to a dock or at one.
    DoingWork(FactoryId),
    /// On the road from the first factory to the second.
    Transporting(FactoryId, FactoryId),
}

pub enum VehiclePositionView {
    Idle(Seq<char>),
    DoingWork(Seq<char>),
    Transporting(Seq<char>, Seq<char>),
}

impl DeepView for VehiclePosition {
    type V = VehiclePositionView;

    open spec fn deep_view(&self) -> VehiclePositionView {
        match self {
            VehiclePosition::Idle(f) => VehiclePositionView::Idle(f@),
            VehiclePosition::DoingWork(f) => VehiclePositionView::DoingWork(f@),
            VehiclePosition::Transporting(f, g) => VehiclePositionView::Transporting(f@, g@),
        }
    }
}

impl View for VehiclePosition {
    type V = VehiclePositionView;

    open spec fn view(&self) -> VehiclePositionView {
        self.deep_view()
    }
}

impl Duplicate for VehiclePosition {
    fn duplicate(&self) -> (r: Self) {
        match self {
            VehiclePosition::Idle(f) => VehiclePosition::Idle(f.duplicate()),
            VehiclePosition::DoingWork(f) => VehiclePosition::DoingWork(f.duplicate()),
            VehiclePosition::Transporting(f, g) => VehiclePosition::Transporting(
                f.duplicate(),
                g.duplicate(),
            ),
        }
    }
}

impl Clone for VehiclePosition {
    fn clone(&self) -> (r: Self)
        ensures
            r@ == self@,
    {
        self.duplicate()
    }
}

impl PartialEq for VehiclePosition {
    fn eq(&self, other: &Self) -> (r: bool) {
        match (self, other) {
            (VehiclePosition::Idle(a), VehiclePosition::Idle(b)) => a.0 == b.0,
            (VehiclePosition::DoingWork(a), VehiclePosition::DoingWork(b)) => a.0 == b.0,
            (VehiclePosition::Transporting(a, c), VehiclePosition::Transporting(b, d)) => a.0 == b.0
                && c.0 == d.0,
            _ => false,
        }
    }
}

impl vstd::std_specs::cmp::PartialEqSpecImpl for VehiclePosition {
    open spec fn obeys_eq_spec() -> bool {
        true
    }

    open spec fn eq_spec(&self, other: &Self) -> bool {
        self.deep_view() == other.deep_view()
    }
}

/// How far an item has come. The states follow one another in this order, and
/// a delivered item stays delivered.
#[derive(Debug, Clone, Copy, PartialEq, Eq, Structural)]
pub enum OrderItemState {
    /// Its order has not been placed yet.
    Unavailable,
    /// Available, and in no vehicle's trip.
    Unallocated,
    /// In the trip of a vehicle that has not picked it up yet.
    Allocated,
    /// On board of a vehicle.
    PickedUp,
    /// Put down at its destination at `deliver_time`, due at `deadline`.
    Delivered { deadline: i64, deliver_time: i64 },
}

impl DeepView for OrderItemState {
    type V = OrderItemState;

    open spec fn deep_view(&self) -> OrderItemState {
        *self
    }
}

impl Duplicate for OrderItemState {
    fn duplicate(&self) -> (r: Self) {
        *self
    }
}

impl OrderItemState {
    /// The place of the state in the life of an item.
    pub open spec fn index(self) -> int {
        match self {
            OrderItemState::Unavailable => 0,
            OrderItemState::Unallocated => 1,
            OrderItemState::Allocated => 2,
            OrderItemState::PickedUp => 3,
            OrderItemState::Delivered { .. } => 4,
        }
    }

    /// Seconds by which the delivery came after its deadline: negative for an
    /// early delivery, zero for an item not delivered yet.
    pub open spec fn lateness(self) -> int {
        match self {
            OrderItemState::Delivered { deadline, deliver_time } => deliver_time - deadline,
            _ => 0,
        }
    }

    /// The state of an item due at `from` and delivered at `to`.
    pub fn delivered(from: i64, to: i64) -> (s: Self)
        ensures
            s == (OrderItemState::Delivered { deadline: from, deliver_time: to }),
    {
        OrderItemState::Delivered { deadline: from, deliver_time: to }
    }

    /// A delivered state whose instants carry no meaning.
    pub fn delivered_irrelevant() -> (s: Self)
        ensures
            s == (OrderItemState::Delivered { deadline: i64::MAX, deliver_time: i64::MAX }),
    {
        Self::delivered(i64::MAX, i64::MAX)
    }

    pub fn is_delivered(&self) -> (r: bool)
        ensures
            r == (self.index() == 4),
    {
        match self {
            OrderItemState::Delivered { .. } => true,
            _ => false,
        }
    }

    /// Seconds by which the delivery came after its deadline.
    pub fn timeout(&self) -> (d: i128)
        ensures
            d == self.lateness(),
    {
        match self {
            OrderItemState::Delivered { deadline, deliver_time } => {
                let due: i128 = *deadline as i128;
                let done: i128 = *deliver_time as i128;
                done - due
            },
            _ => 0,
        }
    }
}

/// A vehicle while the simulation runs.
#[derive(Debug)]
pub struct VehicleState {
    pub position: VehiclePosition,
    /// The items on board, the last loaded on top.
    pub item_stack: Vec<OrderItemId>,
    /// The stack as it will be after the trip that has begun.
    pub allocated_item_stack: Vec<OrderItemId>,
    /// The stops still to come.
    pub current_route: VecDeque<VehicleRoute>,
}

pub struct VehicleStateView {
    pub position: VehiclePositionView,
    pub item_stack: Seq<OrderItemIdView>,
    pub allocated_item_stack: Seq<OrderItemIdView>,
    pub current_route: Seq<VehicleRouteView>,
}

impl DeepView for VehicleState {
    type V = VehicleStateView;

    open spec fn deep_view(&self) -> VehicleStateView {
        VehicleStateView {
            position: self.position@,
            item_stack: self.item_stack.deep_view(),
            allocated_item_stack: self.allocated_item_stack.deep_view(),
            current_route: self.current_route.deep_view(),
        }
    }
}

impl View for VehicleState {
    type V = VehicleStateView;

    open spec fn view(&self) -> VehicleStateView {
        self.deep_view()
    }
}

/// Copies a queue element by element.
#[verifier::loop_isolation(false)]
pub fn duplicate_deque<T: Duplicate>(v: &VecDeque<T>) -> (r: VecDeque<T>)
    ensures
        r.deep_view() == v.deep_view(),
{
    let mut r: VecDeque<T> = VecDeque::new();
    let mut i: usize = 0;
    while i < v.len()
        invariant
            i <= v.len(),
            r@.len() == i,
            forall|j: int| 0 <= j < i ==> r@[j].deep_view() == v@[j].deep_view(),
        decreases v.len() - i,
    {
        r.push_back(v[i].duplicate());
        i += 1;
    }
    assert(r.deep_view() =~= v.deep_view());
    r
}

impl Duplicate for VehicleState {
    fn duplicate(&self) -> (r: Self) {
        VehicleState {
            position: self.position.duplicate(),
            item_stack: duplicate_vec(&self.item_stack),
            allocated_item_stack: duplicate_vec(&self.allocated_item_stack),
            current_route: duplicate_deque(&self.current_route),
        }
    }
}

impl Clone for VehicleState {
    fn clone(&self) -> (r: Self)
        ensures
            r@ == self@,
    {
        self.duplicate()
    }
}

impl VehicleState {
    /// An empty vehicle that waits at `factory_id` with nothing planned.
    pub fn new(factory_id: FactoryId) -> (r: Self)
        ensures
            r@ == (VehicleStateView {
                position: VehiclePositionView::Idle(factory_id@),
                item_stack: Seq::empty(),
                allocated_item_stack: Seq::empty(),
                current_route: Seq::empty(),
            }),
    {
        let r = VehicleState {
            position: VehiclePosition::Idle(factory_id),
            item_stack: Vec::new(),
            allocated_item_stack: Vec::new(),
            current_route: VecDeque::new(),
        };
        assert(r@.item_stack =~= Seq::empty());
        assert(r@.allocated_item_stack =~= Seq::empty());
        assert(r@.current_route =~= Seq::empty());
        r
    }
}

impl Duplicate for (VehicleId, VehicleWork) {
    fn duplicate(&self) -> (r: Self) {
        (self.0.duplicate(), self.1.duplicate())
    }
}

/// The docks of a factory while the simulation runs.
#[derive(Debug)]
pub struct FactoryState {
    /// Docks at which no vehicle is served.
    pub num_avail_docks: i32,
    /// The vehicles that wait for a dock, the first to come in front, each with its work.
    pub queue: VecDeque<(VehicleId, VehicleWork)>,
}

pub struct FactoryStateView {
    pub num_avail_docks: int,
    pub queue: Seq<(Seq<char>, VehicleWorkView)>,
}

impl DeepView for FactoryState {
    type V = FactoryStateView;

    open spec fn deep_view(&self) -> FactoryStateView {
        FactoryStateView {
            num_avail_docks: self.num_avail_docks as int,
            queue: self.queue.deep_view(),
        }
    }
}

impl View for FactoryState {
    type V = FactoryStateView;

    open spec fn view(&self) -> FactoryStateView {
        self.deep_view()
    }
}

impl Duplicate for FactoryState {
    fn duplicate(&self) -> (r: Self) {
        FactoryState {
            num_avail_docks: self.num_avail_docks,
            queue: duplicate_deque(&self.queue),
        }
    }
}

impl Clone for FactoryState {
    fn clone(&self) -> (r: Self)
        ensures
            r@ == self@,
    {
        self.duplicate()
    }
}

impl FactoryState {
    /// A factory with `num_avail_docks` free docks and nobody waiting.
    pub fn new(num_avail_docks: i32) -> (r: Self)
        ensures
            r@ == (FactoryStateView { num_avail_docks: num_avail_docks as int, queue: Seq::empty() }),
    {
        let r = FactoryState { num_avail_docks, queue: VecDeque::new() };
        assert(r@.queue =~= Seq::empty());
        r
    }
}

pub type VehicleStateMap = MapType<VehicleId, VehicleState>;

pub type FactoryStateMap = MapType<FactoryId, FactoryState>;

pub type OrderItemStateMap = MapType<OrderItemId, OrderItemState>;

/// A plan: for each vehicle that it names, the stops to make, in order.
pub type Plan = MapType<VehicleId, Vec<VehicleRoute>>;

} // verus!
