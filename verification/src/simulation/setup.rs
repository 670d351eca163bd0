//! How a simulation starts: where the vehicles stand, and the first events.

use crate::model::factory_info::{FactoryId, FactoryInfoMap, FactoryInfoView};
use crate::model::order::{item_ids, lemma_items, OrderMap, OrderView};
use crate::model::order_item::{demand_of, OrderItemIdView, OrderItemMap, OrderItemView};
use crate::model::route_info::{roads_placed, routes_valid, RouteMap, SingleRouteView};
use crate::model::table::{Duplicate, Key, MapType};
use crate::model::vehicle_info::{VehicleId, VehicleInfoMap, VehicleInfoView};
use crate::simulation::accounting::{
    dock_sum, lemma_services_insert, lemma_slot_range, services,
};
use crate::simulation::engagement::{
    engaged, event_engaged, event_vehicle, lemma_pending_zero, vehicle_engaged,
};
use crate::simulation::fitting::fitted;
use crate::simulation::soundness::sound;
use crate::simulation::event_queue::{
    chronological, enqueue, lemma_slot_bounds, slot, EventQueue,
};
use crate::simulation::rules::DATE_LIMIT;
use crate::simulation::sim_event::{
    SimEvent, SimEventView, SimulatorEventData, SimulatorEventDataView,
};
use crate::simulation::simulator::{lemma_take_contains, Simulator};
use crate::simulation::state::{
    FactoryState, FactoryStateMap, FactoryStateView, OrderItemState, OrderItemStateMap,
    VehiclePosition, VehiclePositionView, VehicleState, VehicleStateMap, VehicleStateView,
};
use rand::rngs::SmallRng;
use rand::seq::IndexedRandom;
use crate::simulation::custody::lemma_custody_at_rest;
use vstd::prelude::*;

verus! {

/// `rand::rngs::SmallRng`: a source of chance, carried through as it is.
#[verifier::external_type_specification]
#[verifier::external_body]
pub struct ExSmallRng(SmallRng);

/// Draws one of the factories with `rand::seq::IndexedRandom::choose`: none
/// from an empty list, and otherwise some element of the list. Which one is
/// left to chance.
#[verifier::external_body]
fn choose_factory<'a>(factories: &'a Vec<FactoryId>, rng: &mut SmallRng) -> (r: Option<
    &'a FactoryId,
>)
    ensures
        r.is_some() == (factories.len() > 0),
        r.is_some() ==> factories.deep_view().contains(r.unwrap().deep_view()),
{
    factories.choose(rng)
}

/// Where the vehicles stand when the simulation starts.
pub enum VehicleInitialPosition<'a> {
    /// Each vehicle at the factory that the map gives it.
    Deterministic(MapType<VehicleId, FactoryId>),
    /// Each vehicle at a factory drawn at random.
    Random(&'a mut SmallRng),
}

impl<'a> VehicleInitialPosition<'a> {
    /// The factory at which a vehicle starts; `None` where the map does not
    /// name the vehicle, or where a factory is to be drawn and there is none.
    pub fn get(&mut self, vehicle_id: &VehicleId, factories: &Vec<FactoryId>) -> (r: Option<
        FactoryId,
    >)
        ensures
            *old(self) matches VehicleInitialPosition::Deterministic(map) ==> r.is_some()
                == map@.contains_key(vehicle_id@) && (r.is_some() ==> r.unwrap()@
                == map@[vehicle_id@]),
            *old(self) is Random ==> r.is_some() == (factories.len() > 0) && (r.is_some()
                ==> factories.deep_view().contains(r.unwrap()@)),
            *old(self) matches VehicleInitialPosition::Deterministic(map) ==> *final(self)
                matches VehicleInitialPosition::Deterministic(after) && after@ == map@,
            *old(self) is Random ==> *final(self) is Random,
    {
        match self {
            VehicleInitialPosition::Deterministic(map) => match map.get(vehicle_id) {
                Some(f) => Some(f.duplicate()),
                None => None,
            },
            VehicleInitialPosition::Random(rng) => match choose_factory(factories, rng) {
                Some(f) => Some(f.duplicate()),
                None => None,
            },
        }
    }
}

/// Seconds between two calls of the scheduler, unless a call takes longer.
pub const TIME_INTERVAL: i64 = 6000;

/// Seconds between a vehicle's arrival at a factory and its request for a dock.
pub const DOCK_APPROACHING_TIME: i64 = 1800;

/// Why an instance cannot be simulated.
#[derive(Debug, Clone, Copy, PartialEq, Eq, Structural)]
pub enum ConfigError {
    /// The day of the simulation starts too far from the epoch.
    DateOutOfRange,
    /// A road has a negative time or a negative length.
    InvalidRoute,
    /// An order stands under another name than its own, has a time of day
    /// outside the day, or a negative duration.
    InvalidOrder,
    /// A vehicle stands under another name than its own, or has no capacity.
    InvalidVehicle,
    /// A factory stands under another name than its own, or has no dock.
    InvalidFactory,
    /// An order, a road or a vehicle's first place names a factory that the
    /// instance does not have.
    UnknownFactory,
    /// A vehicle has no place to start from.
    NoInitialPosition,
}

/// Every order stands under its own name and is valid.
pub open spec fn orders_sound(orders: Map<Seq<char>, OrderView>) -> bool {
    forall|k: Seq<char>| #[trigger]
        orders.contains_key(k) ==> orders[k].valid() && orders[k].order_id == k
}

/// Every vehicle stands under its own name and holds at least one pallet.
pub open spec fn vehicles_sound(vehicles: Map<Seq<char>, VehicleInfoView>) -> bool {
    forall|k: Seq<char>| #[trigger]
        vehicles.contains_key(k) ==> vehicles[k].car_num == k && vehicles[k].pallets >= 1
}

/// Every factory stands under its own name and has at least one dock.
pub open spec fn factories_sound(factories: Map<Seq<char>, FactoryInfoView>) -> bool {
    forall|k: Seq<char>| #[trigger]
        factories.contains_key(k) ==> factories[k].factory_id == k && factories[k].port_num >= 1
}

/// Every order is picked up at a factory of `factories` and delivered to one.
pub open spec fn orders_placed(
    orders: Map<Seq<char>, OrderView>,
    factories: Map<Seq<char>, FactoryInfoView>,
) -> bool {
    forall|k: Seq<char>| #[trigger]
        orders.contains_key(k) ==> factories.contains_key(orders[k].pickup_id)
            && factories.contains_key(orders[k].delivery_id)
}

/// The first thing, if any, that is wrong with the reference data.
pub open spec fn config_fault(
    date: int,
    routes: Map<(Seq<char>, Seq<char>), SingleRouteView>,
    orders: Map<Seq<char>, OrderView>,
    vehicles: Map<Seq<char>, VehicleInfoView>,
    factories: Map<Seq<char>, FactoryInfoView>,
) -> Option<ConfigError> {
    if !(-DATE_LIMIT <= date <= DATE_LIMIT) {
        Some(ConfigError::DateOutOfRange)
    } else if !routes_valid(routes) {
        Some(ConfigError::InvalidRoute)
    } else if !orders_sound(orders) {
        Some(ConfigError::InvalidOrder)
    } else if !vehicles_sound(vehicles) {
        Some(ConfigError::InvalidVehicle)
    } else if !factories_sound(factories) {
        Some(ConfigError::InvalidFactory)
    } else if !orders_placed(orders, factories) || !roads_placed(routes, factories) {
        Some(ConfigError::UnknownFactory)
    } else {
        None
    }
}

/// The items of all orders.
pub open spec fn catalogue_items(orders: Map<Seq<char>, OrderView>) -> Map<
    OrderItemIdView,
    OrderItemView,
> {
    Map::new(
        |id: OrderItemIdView| orders.contains_key(id.order_id) && orders[id.order_id].has_item(id),
        |id: OrderItemIdView| orders[id.order_id].item(id.item_type, id.index),
    )
}

/// The events with which the orders named by `keys` arrive, each at its
/// creation time on the day that starts at `date`, in the order of `keys`.
pub open spec fn arrival_events(
    orders: Map<Seq<char>, OrderView>,
    keys: Seq<Seq<char>>,
    date: int,
) -> Seq<SimEventView>
    decreases keys.len(),
{
    if keys.len() == 0 {
        Seq::empty()
    } else {
        let k = keys.last();
        enqueue::<SimEvent>(
            arrival_events(orders, keys.drop_last(), date),
            (
                SimulatorEventDataView::OrderArrival {
                    order_id: k,
                    order_item_ids: item_ids(orders[k]),
                },
                (date + orders[k].creation_time) as i64,
            ),
        )
    }
}

/// The events of a simulation that has not started: the arrival of every
/// order, and the first call of the scheduler at the start of the day.
pub open spec fn initial_events(
    orders: Map<Seq<char>, OrderView>,
    keys: Seq<Seq<char>>,
    date: int,
) -> Seq<SimEventView> {
    enqueue::<SimEvent>(
        arrival_events(orders, keys, date),
        (SimulatorEventDataView::UpdateTimestep, date as i64),
    )
}

/// A vehicle that has not moved: idle at `at`, empty, with nothing planned.
pub open spec fn parked(at: Seq<char>) -> VehicleStateView {
    VehicleStateView {
        position: VehiclePositionView::Idle(at),
        item_stack: Seq::empty(),
        allocated_item_stack: Seq::empty(),
        current_route: Seq::empty(),
    }
}

/// Whether every order of the map stands under its own name and is valid.
#[verifier::loop_isolation(false)]
pub fn check_orders(orders: &OrderMap) -> (r: bool)
    ensures
        r == orders_sound(orders@),
{
    let n: usize = orders.len();
    proof {
        orders.lemma_wf();
    }
    let ghost keys = orders.keys();
    let mut i: usize = 0;
    while i < n
        invariant
            i <= n,
            forall|j: int|
                0 <= j < i ==> orders@[#[trigger] keys[j]].valid() && orders@[keys[j]].order_id
                    == keys[j],
        decreases n - i,
    {
        let order = orders.value_at(i);
        if !order.is_valid() || !order.order_id.same(orders.key_at(i)) {
            assert(orders@.contains_key(keys[i as int]));
            return false;
        }
        i += 1;
    }
    assert forall|k: Seq<char>| #[trigger] orders@.contains_key(k) implies orders@[k].valid()
        && orders@[k].order_id == k by {
        let j = keys.index_of(k);
        assert(keys[j] == k);
    }
    true
}

/// Whether every order of the map is picked up at one of the factories and delivered to one.
#[verifier::loop_isolation(false)]
pub fn check_order_places(orders: &OrderMap, factories: &FactoryInfoMap) -> (r: bool)
    ensures
        r == orders_placed(orders@, factories@),
{
    let n: usize = orders.len();
    proof {
        orders.lemma_wf();
    }
    let ghost keys = orders.keys();
    let mut i: usize = 0;
    while i < n
        invariant
            i <= n,
            forall|j: int|
                0 <= j < i ==> factories@.contains_key(orders@[#[trigger] keys[j]].pickup_id)
                    && factories@.contains_key(orders@[keys[j]].delivery_id),
        decreases n - i,
    {
        let order = orders.value_at(i);
        if !factories.contains_key(&order.pickup_id) || !factories.contains_key(
            &order.delivery_id,
        ) {
            assert(orders@.contains_key(keys[i as int]));
            return false;
        }
        i += 1;
    }
    assert forall|k: Seq<char>| #[trigger] orders@.contains_key(k) implies factories@.contains_key(
        orders@[k].pickup_id,
    ) && factories@.contains_key(orders@[k].delivery_id) by {
        let j = keys.index_of(k);
        assert(keys[j] == k);
    }
    true
}

/// Whether every vehicle of the map stands under its own name and holds at least one pallet.
#[verifier::loop_isolation(false)]
pub fn check_vehicles(vehicles: &VehicleInfoMap) -> (r: bool)
    ensures
        r == vehicles_sound(vehicles@),
{
    let n: usize = vehicles.len();
    proof {
        vehicles.lemma_wf();
    }
    let ghost keys = vehicles.keys();
    let mut i: usize = 0;
    while i < n
        invariant
            i <= n,
            forall|j: int|
                0 <= j < i ==> vehicles@[#[trigger] keys[j]].car_num == keys[j]
                    && vehicles@[keys[j]].pallets >= 1,
        decreases n - i,
    {
        let info = vehicles.value_at(i);
        if info.capacity() < 4 || !info.id().same(vehicles.key_at(i)) {
            assert(vehicles@.contains_key(keys[i as int]));
            return false;
        }
        i += 1;
    }
    assert forall|k: Seq<char>| #[trigger] vehicles@.contains_key(k) implies vehicles@[k].car_num
        == k && vehicles@[k].pallets >= 1 by {
        let j = keys.index_of(k);
        assert(keys[j] == k);
    }
    true
}

/// Whether every factory of the map stands under its own name and has at least one dock.
#[verifier::loop_isolation(false)]
pub fn check_factories(factories: &FactoryInfoMap) -> (r: bool)
    ensures
        r == factories_sound(factories@),
{
    let n: usize = factories.len();
    proof {
        factories.lemma_wf();
    }
    let ghost keys = factories.keys();
    let mut i: usize = 0;
    while i < n
        invariant
            i <= n,
            forall|j: int|
                0 <= j < i ==> factories@[#[trigger] keys[j]].factory_id == keys[j]
                    && factories@[keys[j]].port_num >= 1,
        decreases n - i,
    {
        let info = factories.value_at(i);
        if info.port_num < 1 || !info.factory_id.same(factories.key_at(i)) {
            assert(factories@.contains_key(keys[i as int]));
            return false;
        }
        i += 1;
    }
    assert forall|k: Seq<char>| #[trigger] factories@.contains_key(k) implies factories@[k].factory_id
        == k && factories@[k].port_num >= 1 by {
        let j = keys.index_of(k);
        assert(keys[j] == k);
    }
    true
}

/// One of the first `n` items of the list has the identifier `id`.
pub open spec fn listed(items: Seq<OrderItemView>, n: int, id: OrderItemIdView) -> bool {
    exists|m: int| 0 <= m < n && (#[trigger] items[m]).id == id
}

/// The items of all orders, by identifier.
#[verifier::loop_isolation(false)]
pub fn expand_orders(orders: &OrderMap) -> (items: OrderItemMap)
    requires
        orders_sound(orders@),
    ensures
        items@ == catalogue_items(orders@),
{
    let n: usize = orders.len();
    proof {
        orders.lemma_wf();
    }
    let ghost keys = orders.keys();
    let ghost all = orders@;
    let mut items: OrderItemMap = MapType::new();
    let mut i: usize = 0;
    while i < n
        invariant
            i <= n,
            forall|id: OrderItemIdView|
                #[trigger] items@.contains_key(id) <==> keys.take(i as int).contains(id.order_id)
                    && all[id.order_id].has_item(id),
            forall|id: OrderItemIdView|
                #[trigger] items@.contains_key(id) ==> items@[id] == all[id.order_id].item(
                    id.item_type,
                    id.index,
                ),
        decreases n - i,
    {
        let order = orders.value_at(i);
        let ghost k = keys[i as int];
        let ghost o = order@;
        assert(all.contains_key(k) && all[k] == o);
        let list = order.into_items();
        proof {
            lemma_items(o);
            assert(list.deep_view().len() == list.len());
        }
        let ghost done = items@;
        let mut j: usize = 0;
        while j < list.len()
            invariant
                j <= list.len(),
                forall|id: OrderItemIdView|
                    #[trigger] items@.contains_key(id) <==> done.contains_key(id) || listed(
                        o.items(),
                        j as int,
                        id,
                    ),
                forall|id: OrderItemIdView|
                    #[trigger] items@.contains_key(id) ==> items@[id] == all[id.order_id].item(
                        id.item_type,
                        id.index,
                    ),
            decreases list.len() - j,
        {
            let item = list[j].duplicate();
            let ghost was = items@;
            assert(item@ == o.items()[j as int]);
            assert(o.has_item(item@.id));
            items.insert(item.id.duplicate(), item);
            proof {
                assert forall|id: OrderItemIdView| #[trigger]
                    items@.contains_key(id) <==> done.contains_key(id) || listed(
                        o.items(),
                        j + 1,
                        id,
                    ) by {
                    if listed(o.items(), j as int, id) {
                        let m = choose|m: int| 0 <= m < j && (#[trigger] o.items()[m]).id == id;
                        assert(0 <= m < j + 1 && o.items()[m].id == id);
                    }
                    if listed(o.items(), j + 1, id) {
                        let m = choose|m: int| 0 <= m < j + 1 && (#[trigger] o.items()[m]).id == id;
                        if m < j {
                            assert(listed(o.items(), j as int, id));
                        }
                    }
                    if id == o.items()[j as int].id {
                        assert(listed(o.items(), j + 1, id));
                    }
                }
            }
            j += 1;
        }
        proof {
            assert forall|x: Seq<char>| keys.take(i + 1).contains(x) <==> (keys.take(
                i as int,
            ).contains(x) || x == k) by {
                lemma_take_contains(keys, i as int, x);
            }
            assert forall|id: OrderItemIdView| #[trigger]
                items@.contains_key(id) <==> keys.take(i + 1).contains(id.order_id)
                    && all[id.order_id].has_item(id) by {
                if listed(o.items(), j as int, id) {
                    let m = choose|m: int| 0 <= m < j && (#[trigger] o.items()[m]).id == id;
                    assert(o.has_item(o.items()[m].id));
                }
                if id.order_id == k && o.has_item(id) {
                    let m = choose|m: int|
                        0 <= m < o.items().len() && (#[trigger] o.items()[m]).id == id;
                    assert(listed(o.items(), j as int, id));
                }
                if keys.take(i as int).contains(k) {
                    let a = keys.take(i as int).index_of(k);
                    assert(keys[a] == k);
                    assert(false);
                }
            }
        }
        i += 1;
    }
    proof {
        assert(keys.take(n as int) =~= keys);
        assert(items@ =~= catalogue_items(all));
    }
    items
}

/// The state of every item before its order has arrived.
#[verifier::loop_isolation(false)]
pub fn unavailable_items(items: &OrderItemMap) -> (states: OrderItemStateMap)
    ensures
        states@ == Map::new(
            |id: OrderItemIdView| items@.contains_key(id),
            |id: OrderItemIdView| OrderItemState::Unavailable,
        ),
{
    let n: usize = items.len();
    proof {
        items.lemma_wf();
    }
    let ghost keys = items.keys();
    let mut states: OrderItemStateMap = MapType::new();
    let mut i: usize = 0;
    while i < n
        invariant
            i <= n,
            forall|id: OrderItemIdView| states@.contains_key(id) <==> keys.take(i as int).contains(id),
            forall|id: OrderItemIdView|
                states@.contains_key(id) ==> states@[id] == OrderItemState::Unavailable,
        decreases n - i,
    {
        states.insert(items.key_at(i).duplicate(), OrderItemState::Unavailable);
        assert forall|id: OrderItemIdView| states@.contains_key(id) <==> keys.take(i + 1).contains(
            id,
        ) by {
            lemma_take_contains(keys, i as int, id);
        }
        i += 1;
    }
    assert(keys.take(n as int) =~= keys);
    assert(states@ =~= Map::new(
        |id: OrderItemIdView| items@.contains_key(id),
        |id: OrderItemIdView| OrderItemState::Unavailable,
    ));
    states
}

/// The docks of every factory before any vehicle has come: all free, nobody waiting.
#[verifier::loop_isolation(false)]
pub fn free_factories(factories: &FactoryInfoMap) -> (states: FactoryStateMap)
    ensures
        states@ == Map::new(
            |f: Seq<char>| factories@.contains_key(f),
            |f: Seq<char>|
                FactoryStateView { num_avail_docks: factories@[f].port_num, queue: Seq::empty() },
        ),
{
    let n: usize = factories.len();
    proof {
        factories.lemma_wf();
    }
    let ghost keys = factories.keys();
    let mut states: FactoryStateMap = MapType::new();
    let mut i: usize = 0;
    while i < n
        invariant
            i <= n,
            forall|f: Seq<char>| states@.contains_key(f) <==> keys.take(i as int).contains(f),
            forall|f: Seq<char>|
                states@.contains_key(f) ==> states@[f] == (FactoryStateView {
                    num_avail_docks: factories@[f].port_num,
                    queue: Seq::empty(),
                }),
        decreases n - i,
    {
        let info = factories.value_at(i);
        assert(factories@[keys[i as int]] == info@);
        states.insert(factories.key_at(i).duplicate(), FactoryState::new(info.port_num));
        assert forall|f: Seq<char>| states@.contains_key(f) <==> keys.take(i + 1).contains(f) by {
            lemma_take_contains(keys, i as int, f);
        }
        i += 1;
    }
    assert(keys.take(n as int) =~= keys);
    assert(states@ =~= Map::new(
        |f: Seq<char>| factories@.contains_key(f),
        |f: Seq<char>|
            FactoryStateView { num_avail_docks: factories@[f].port_num, queue: Seq::empty() },
    ));
    states
}

/// The names of the factories, in order.
#[verifier::loop_isolation(false)]
pub fn factory_names(factories: &FactoryInfoMap) -> (names: Vec<FactoryId>)
    ensures
        names.deep_view() == factories.keys(),
{
    let n: usize = factories.len();
    let mut names: Vec<FactoryId> = Vec::new();
    let mut i: usize = 0;
    while i < n
        invariant
            i <= n,
            names@.len() == i,
            forall|j: int| 0 <= j < i ==> names@[j].deep_view() == factories.keys()[j],
        decreases n - i,
    {
        names.push(factories.key_at(i).duplicate());
        i += 1;
    }
    assert(names.deep_view() =~= factories.keys());
    names
}

/// Where `position` puts the vehicle `v`, given the factories of the instance.
pub open spec fn placed(
    position: VehicleInitialPosition<'_>,
    factories: Map<Seq<char>, FactoryInfoView>,
    v: Seq<char>,
    at: Seq<char>,
) -> bool {
    match position {
        VehicleInitialPosition::Deterministic(map) => map@.contains_key(v) && map@[v] == at,
        VehicleInitialPosition::Random(_) => factories.contains_key(at),
    }
}

/// Whether `position` has a place for every vehicle.
pub open spec fn places_all(
    position: VehicleInitialPosition<'_>,
    factories: Map<Seq<char>, FactoryInfoView>,
    vehicles: Map<Seq<char>, VehicleInfoView>,
) -> bool {
    match position {
        VehicleInitialPosition::Deterministic(map) => forall|v: Seq<char>| #[trigger]
            vehicles.contains_key(v) ==> map@.contains_key(v),
        VehicleInitialPosition::Random(_) => (exists|f: Seq<char>| factories.contains_key(f))
            || forall|v: Seq<char>| !vehicles.contains_key(v),
    }
}

/// Whether every place that `position` names for a vehicle is a factory of `factories`.
pub open spec fn places_known(
    position: VehicleInitialPosition<'_>,
    factories: Map<Seq<char>, FactoryInfoView>,
    vehicles: Map<Seq<char>, VehicleInfoView>,
) -> bool {
    match position {
        VehicleInitialPosition::Deterministic(map) => forall|v: Seq<char>| #[trigger]
            vehicles.contains_key(v) && map@.contains_key(v) ==> factories.contains_key(map@[v]),
        VehicleInitialPosition::Random(_) => true,
    }
}

/// Every parked vehicle of `states` stands at a factory of `factories`.
pub open spec fn parked_within(
    states: Map<Seq<char>, VehicleStateView>,
    factories: Map<Seq<char>, FactoryInfoView>,
) -> bool {
    forall|v: Seq<char>| #[trigger]
        states.contains_key(v) ==> (states[v].position matches VehiclePositionView::Idle(at)
            ==> factories.contains_key(at))
}

/// Whether every parked vehicle stands at one of the factories.
#[verifier::loop_isolation(false)]
pub fn check_places(states: &VehicleStateMap, factories: &FactoryInfoMap) -> (r: bool)
    ensures
        r == parked_within(states@, factories@),
{
    let n: usize = states.len();
    proof {
        states.lemma_wf();
    }
    let ghost keys = states.keys();
    let mut i: usize = 0;
    while i < n
        invariant
            i <= n,
            forall|j: int|
                0 <= j < i ==> (states@[#[trigger] keys[j]].position matches VehiclePositionView::Idle(
                    at,
                ) ==> factories@.contains_key(at)),
        decreases n - i,
    {
        if let VehiclePosition::Idle(at) = &states.value_at(i).position {
            if !factories.contains_key(at) {
                assert(states@.contains_key(keys[i as int]));
                return false;
            }
        }
        i += 1;
    }
    assert forall|v: Seq<char>| #[trigger] states@.contains_key(v) implies (
    states@[v].position matches VehiclePositionView::Idle(at) ==> factories@.contains_key(at)) by {
        let j = keys.index_of(v);
        assert(keys[j] == v);
    }
    true
}

/// Every vehicle at its place: idle, empty, with nothing planned. `None`
/// where a vehicle has no place.
#[verifier::loop_isolation(false)]
pub fn park_vehicles(
    initial_position: &mut VehicleInitialPosition<'_>,
    vehicles: &VehicleInfoMap,
    factories: &FactoryInfoMap,
) -> (r: Option<VehicleStateMap>)
    ensures
        r.is_some() == places_all(*old(initial_position), factories@, vehicles@),
        r.is_some() ==> r.unwrap()@.dom() =~= vehicles@.dom() && forall|v: Seq<char>| #[trigger]
            vehicles@.contains_key(v) ==> exists|at: Seq<char>|
                placed(*old(initial_position), factories@, v, at) && r.unwrap()@[v] == parked(at),
{
    let names = factory_names(factories);
    let n: usize = vehicles.len();
    proof {
        use_type_invariant(factories);
        vehicles.lemma_wf();
        factories.lemma_wf();
    }
    let ghost keys = vehicles.keys();
    let ghost start = *initial_position;
    let mut states: VehicleStateMap = MapType::new();
    let mut i: usize = 0;
    while i < n
        invariant
            i <= n,
            start matches VehicleInitialPosition::Deterministic(map) ==> *initial_position
                matches VehicleInitialPosition::Deterministic(now) && now@ == map@,
            start is Random ==> *initial_position is Random,
            forall|v: Seq<char>| states@.contains_key(v) <==> keys.take(i as int).contains(v),
            forall|v: Seq<char>| #[trigger]
                states@.contains_key(v) ==> exists|at: Seq<char>|
                    placed(start, factories@, v, at) && states@[v] == parked(at),
        decreases n - i,
    {
        let key = vehicles.key_at(i);
        let ghost k = keys[i as int];
        assert(vehicles@.contains_key(k));
        match initial_position.get(key, &names) {
            None => {
                proof {
                    if start is Random {
                        assert forall|f: Seq<char>| !factories@.contains_key(f) by {
                            if factories@.contains_key(f) {
                                let j = factories.keys().index_of(f);
                                assert(factories.keys()[j] == f);
                            }
                        }
                    }
                }
                return None;
            },
            Some(at) => {
                let ghost was = states@;
                proof {
                    if start is Random {
                        assert(factories.keys().contains(at@));
                    }
                    assert(placed(start, factories@, k, at@));
                }
                states.insert(key.duplicate(), VehicleState::new(at));
                proof {
                    assert forall|v: Seq<char>| states@.contains_key(v) <==> keys.take(
                        i + 1,
                    ).contains(v) by {
                        lemma_take_contains(keys, i as int, v);
                    }
                    assert forall|v: Seq<char>| #[trigger] states@.contains_key(v) implies exists|
                        at: Seq<char>,
                    |
                        placed(start, factories@, v, at) && states@[v] == parked(at) by {
                        if v == k {
                            assert(placed(start, factories@, v, at@) && states@[v] == parked(at@));
                        } else {
                            assert(was.contains_key(v));
                        }
                    }
                }
            },
        }
        i += 1;
    }
    proof {
        assert(keys.take(n as int) =~= keys);
        assert(states@.dom() =~= vehicles@.dom());
        if start is Random && n > 0 {
            assert(states@.contains_key(keys[0]));
            let at = choose|at: Seq<char>|
                placed(start, factories@, keys[0], at) && states@[keys[0]] == parked(at);
            assert(factories@.contains_key(at));
        }
        if start is Random && n == 0 {
            assert forall|v: Seq<char>| !vehicles@.contains_key(v) by {
                if vehicles@.contains_key(v) {
                    assert(keys.contains(v));
                }
            }
        }
    }
    Some(states)
}

/// The arrival of every order and the first call of the scheduler, in a queue.
#[verifier::loop_isolation(false)]
pub fn first_events(orders: &OrderMap, initial_date: i64) -> (events: EventQueue<SimEvent>)
    requires
        orders_sound(orders@),
        -DATE_LIMIT <= initial_date <= DATE_LIMIT,
    ensures
        events@ == initial_events(orders@, orders.keys(), initial_date as int),
        forall|i: int| 0 <= i < events@.len() ==> initial_date <= (#[trigger] events@[i]).1,
        events.wf(),
{
    let n: usize = orders.len();
    proof {
        orders.lemma_wf();
    }
    let ghost keys = orders.keys();
    let ghost all = orders@;
    let ghost date = initial_date as int;
    let mut events: EventQueue<SimEvent> = EventQueue::new();
    assert(events@ =~= arrival_events(all, keys.take(0), date));
    let mut i: usize = 0;
    while i < n
        invariant
            i <= n,
            events.wf(),
            events@ == arrival_events(all, keys.take(i as int), date),
            forall|j: int| 0 <= j < events@.len() ==> initial_date <= (#[trigger] events@[j]).1,
        decreases n - i,
    {
        let order = orders.value_at(i);
        let ghost k = keys[i as int];
        assert(all.contains_key(k) && all[k] == order@);
        proof {
            assert(keys.take(i + 1).drop_last() =~= keys.take(i as int));
            assert(keys.take(i + 1).last() == k);
        }
        let at: i64 = initial_date + order.creation_time;
        let ghost was = events@;
        proof {
            events.lemma_wf();
        }
        events.push(
            (
                SimulatorEventData::OrderArrival {
                    order_id: orders.key_at(i).duplicate(),
                    order_item_ids: order.item_ids(),
                },
                at,
            ),
        );
        proof {
            lemma_enqueue_members(was, events@, initial_date as int);
        }
        i += 1;
    }
    proof {
        assert(keys.take(n as int) =~= keys);
    }
    let ghost was = events@;
    proof {
        events.lemma_wf();
    }
    events.push((SimulatorEventData::UpdateTimestep, initial_date));
    proof {
        lemma_enqueue_members(was, events@, initial_date as int);
    }
    events
}

/// If no event of a queue is before `floor`, and one that is not before
/// `floor` enters, no event of the new queue is before `floor`.
pub proof fn lemma_enqueue_members(before: Seq<SimEventView>, after: Seq<SimEventView>, floor: int)
    requires
        forall|j: int| 0 <= j < before.len() ==> floor <= (#[trigger] before[j]).1,
        exists|e: SimEventView| after == enqueue::<SimEvent>(before, e) && floor <= e.1,
        chronological::<SimEvent>(before),
    ensures
        forall|j: int| 0 <= j < after.len() ==> floor <= (#[trigger] after[j]).1,
{
    let e = choose|e: SimEventView| after == enqueue::<SimEvent>(before, e) && floor <= e.1;
    lemma_slot_bounds::<SimEvent>(before, e.1 as int);
    let k = slot::<SimEvent>(before, e.1 as int);
    assert forall|j: int| 0 <= j < after.len() implies floor <= (#[trigger] after[j]).1 by {
        if j < k {
            assert(after[j] == before[j]);
        } else if j > k {
            assert(after[j] == before[j - 1]);
        }
    }
}

/// Before the simulation starts no service is in progress.
pub proof fn lemma_no_service_at_start(
    orders: Map<Seq<char>, OrderView>,
    keys: Seq<Seq<char>>,
    date: int,
    f: Seq<char>,
)
    ensures
        services(arrival_events(orders, keys, date), f) == 0,
        services(initial_events(orders, keys, date), f) == 0,
    decreases keys.len(),
{
    if keys.len() > 0 {
        lemma_no_service_at_start(orders, keys.drop_last(), date, f);
        let k = keys.last();
        let rest = arrival_events(orders, keys.drop_last(), date);
        let e: SimEventView = (
            SimulatorEventDataView::OrderArrival { order_id: k, order_item_ids: item_ids(orders[k]) },
            (date + orders[k].creation_time) as i64,
        );
        lemma_slot_range(rest, e.1 as int);
        lemma_services_insert(rest, slot::<SimEvent>(rest, e.1 as int), e, f);
    }
    let all = arrival_events(orders, keys, date);
    let tick: SimEventView = (SimulatorEventDataView::UpdateTimestep, date as i64);
    lemma_slot_range(all, tick.1 as int);
    lemma_services_insert(all, slot::<SimEvent>(all, tick.1 as int), tick, f);
}

/// Before the simulation starts no pending event is about a vehicle.
pub proof fn lemma_no_vehicle_at_start(
    orders: Map<Seq<char>, OrderView>,
    keys: Seq<Seq<char>>,
    date: int,
)
    ensures
        forall|i: int|
            0 <= i < arrival_events(orders, keys, date).len() ==> event_vehicle(
                #[trigger] arrival_events(orders, keys, date)[i],
            ).is_none(),
        forall|i: int|
            0 <= i < initial_events(orders, keys, date).len() ==> event_vehicle(
                #[trigger] initial_events(orders, keys, date)[i],
            ).is_none(),
    decreases keys.len(),
{
    let all = arrival_events(orders, keys, date);
    if keys.len() > 0 {
        lemma_no_vehicle_at_start(orders, keys.drop_last(), date);
        let k = keys.last();
        let rest = arrival_events(orders, keys.drop_last(), date);
        let e: SimEventView = (
            SimulatorEventDataView::OrderArrival { order_id: k, order_item_ids: item_ids(orders[k]) },
            (date + orders[k].creation_time) as i64,
        );
        lemma_slot_range(rest, e.1 as int);
        let at = slot::<SimEvent>(rest, e.1 as int);
        assert forall|i: int| 0 <= i < all.len() implies event_vehicle(#[trigger] all[i]).is_none() by {
            if i < at {
                assert(all[i] == rest[i]);
            } else if i > at {
                assert(all[i] == rest[i - 1]);
            }
        }
    }
    let tick: SimEventView = (SimulatorEventDataView::UpdateTimestep, date as i64);
    lemma_slot_range(all, tick.1 as int);
    let at = slot::<SimEvent>(all, tick.1 as int);
    let first = initial_events(orders, keys, date);
    assert forall|i: int| 0 <= i < first.len() implies event_vehicle(#[trigger] first[i]).is_none() by {
        if i < at {
            assert(first[i] == all[i]);
        } else if i > at {
            assert(first[i] == all[i - 1]);
        }
    }
}

impl Simulator {
    /// A simulator of the given instance, on the day that starts at the
    /// instant `initial_date`: every vehicle idle at its place and empty,
    /// every dock free, every item unavailable, the arrival of every order
    /// pending at its creation time, and the scheduler due at the start of
    /// the day. An instance with a fault is refused with the first fault
    /// that it has: of the day, the roads, the orders, the vehicles and the
    /// factories in this order, then a factory that an order or a road
    /// names and the instance does not have, a vehicle without a place, and
    /// a place that is no factory of the instance.
    pub fn new(
        initial_position: VehicleInitialPosition<'_>,
        orders: OrderMap,
        vehicles: VehicleInfoMap,
        factories: FactoryInfoMap,
        routes: RouteMap,
        initial_date: i64,
    ) -> (r: Result<Simulator, ConfigError>)
        ensures
            match r {
                Ok(sim) => {
                    &&& config_fault(
                        initial_date as int,
                        routes@,
                        orders@,
                        vehicles@,
                        factories@,
                    ).is_none()
                    &&& places_all(initial_position, factories@, vehicles@)
                    &&& places_known(initial_position, factories@, vehicles@)
                    &&& sim.wf()
                    &&& sim@.routes == routes@
                    &&& sim@.orders == orders@
                    &&& sim@.vehicles == vehicles@
                    &&& sim@.factories == factories@
                    &&& sim@.order_items == catalogue_items(orders@)
                    &&& sim@.initial_date == initial_date
                    &&& sim@.time_interval == TIME_INTERVAL
                    &&& sim@.dock_approaching_time == DOCK_APPROACHING_TIME
                    &&& sim@.vehicle_states.dom() =~= vehicles@.dom()
                    &&& forall|v: Seq<char>| #[trigger]
                        vehicles@.contains_key(v) ==> exists|at: Seq<char>|
                            placed(initial_position, factories@, v, at) && sim@.vehicle_states[v]
                                == parked(at)
                    &&& sim@.factory_states == Map::new(
                        |f: Seq<char>| factories@.contains_key(f),
                        |f: Seq<char>|
                            FactoryStateView {
                                num_avail_docks: factories@[f].port_num,
                                queue: Seq::empty(),
                            },
                    )
                    &&& sim@.order_item_states == Map::new(
                        |id: OrderItemIdView| catalogue_items(orders@).contains_key(id),
                        |id: OrderItemIdView| OrderItemState::Unavailable,
                    )
                    &&& sim@.events == initial_events(orders@, orders.keys(), initial_date as int)
                    &&& sound(sim@)
                    &&& sim@.clock == initial_date
                    &&& sim@.total_distance == 0
                    &&& sim@.total_distance_last_timeslot == 0
                },
                Err(e) => match config_fault(
                    initial_date as int,
                    routes@,
                    orders@,
                    vehicles@,
                    factories@,
                ) {
                    Some(fault) => e == fault,
                    None => if places_all(initial_position, factories@, vehicles@) {
                        e == ConfigError::UnknownFactory && !places_known(
                            initial_position,
                            factories@,
                            vehicles@,
                        )
                    } else {
                        e == ConfigError::NoInitialPosition
                    },
                },
            },
    {
        let mut initial_position = initial_position;
        if initial_date < -DATE_LIMIT || initial_date > DATE_LIMIT {
            return Err(ConfigError::DateOutOfRange);
        }
        if !routes.is_valid() {
            return Err(ConfigError::InvalidRoute);
        }
        if !check_orders(&orders) {
            return Err(ConfigError::InvalidOrder);
        }
        if !check_vehicles(&vehicles) {
            return Err(ConfigError::InvalidVehicle);
        }
        if !check_factories(&factories) {
            return Err(ConfigError::InvalidFactory);
        }
        if !check_order_places(&orders, &factories) || !routes.ends_within(&factories) {
            return Err(ConfigError::UnknownFactory);
        }
        let ghost start = initial_position;
        let vehicle_states = match park_vehicles(&mut initial_position, &vehicles, &factories) {
            Some(states) => states,
            None => {
                return Err(ConfigError::NoInitialPosition);
            },
        };
        let known = check_places(&vehicle_states, &factories);
        proof {
            if known {
                assert forall|v: Seq<char>| #[trigger]
                    vehicles@.contains_key(v) implies vehicle_states@.contains_key(v) by {
                    assert(vehicle_states@.dom().contains(v));
                }
                assert(places_known(start, factories@, vehicles@));
            } else {
                let v = choose|v: Seq<char>| #[trigger]
                    vehicle_states@.contains_key(v) && !(
                    vehicle_states@[v].position matches VehiclePositionView::Idle(at)
                        ==> factories@.contains_key(at));
                assert(vehicles@.dom().contains(v));
                assert(vehicles@.contains_key(v));
                assert(!places_known(start, factories@, vehicles@));
            }
        }
        if !known {
            return Err(ConfigError::UnknownFactory);
        }
        let order_items = expand_orders(&orders);
        let factory_states = free_factories(&factories);
        let order_item_states = unavailable_items(&order_items);
        let events = first_events(&orders, initial_date);
        proof {
            events.lemma_wf();
        }
        let sim = Simulator {
            routes,
            factories,
            vehicles,
            orders,
            order_items,
            initial_date,
            time_interval: TIME_INTERVAL,
            vehicle_states,
            factory_states,
            order_item_states,
            dock_approaching_time: DOCK_APPROACHING_TIME,
            events,
            clock: initial_date,
            total_distance: 0,
            total_distance_last_timeslot: 0,
        };
        proof {
            let s = sim@;
            assert(s.catalogue_wf());
            assert(s.factory_states.dom() =~= s.factories.dom());
            assert(s.order_items.dom().subset_of(s.order_item_states.dom()));
            assert(s.within_capacity()) by {
                assert forall|v: Seq<char>| #[trigger] s.vehicle_states.contains_key(v) implies demand_of(
                    s.vehicle_states[v].item_stack,
                ) <= s.vehicles[v].capacity() && demand_of(
                    s.vehicle_states[v].allocated_item_stack,
                ) <= s.vehicles[v].capacity() by {
                    assert(s.vehicles.dom().contains(v));
                    assert(s.vehicles.contains_key(v));
                }
            }
            assert(s.docks_wf());
            assert forall|f: Seq<char>| #[trigger] s.factory_states.contains_key(f) implies dock_sum(
                s,
                f,
            ) == s.factories[f].port_num by {
                lemma_no_service_at_start(s.orders, orders.keys(), initial_date as int, f);
            }
            lemma_no_vehicle_at_start(s.orders, orders.keys(), initial_date as int);
            assert forall|i: int| 0 <= i < s.events.len() implies event_engaged(
                s,
                #[trigger] s.events[i],
            ) by {
                assert(event_vehicle(s.events[i]).is_none());
            }
            assert forall|v: Seq<char>| #[trigger] s.vehicle_states.contains_key(v) implies vehicle_engaged(
                s,
                v,
            ) by {
                lemma_pending_zero(s.events, v);
                assert(s.vehicles.dom().contains(v));
                assert(s.vehicles.contains_key(v));
            }
            assert(engaged(s));
            assert(fitted(s));
            lemma_custody_at_rest(s);
        }
        Ok(sim)
    }
}

} // verus!
