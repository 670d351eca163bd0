//! A simple scheduler: it unloads what the vehicles carry, and hands the
//! waiting orders to the vehicles in turn.

use crate::model::factory_info::FactoryId;
use crate::model::order::OrderId;
use crate::model::order_item::{
    OrderItem, OrderItemId, OrderItemIdView, OrderItemMap, OrderItemView,
};
use crate::model::table::{duplicate_vec, values_in_order, Duplicate, MapType};
use crate::model::vehicle_info::{VehicleId, VehicleInfoMap, VehicleInfoView};
use crate::schedule::{canonical, dedup_routes, deduplicate, Scheduler, SchedulerArgs};
use crate::simulation::laws::law_dedup_canonical;
use crate::simulation::sim_event::{all_known, VehicleWork, VehicleWorkView};
use crate::simulation::simulator::lemma_take_contains;
use crate::simulation::state::{OrderItemState, Plan, VehicleRoute, VehicleRouteView};
use vstd::prelude::*;

verus! {

/// The scheduler that plans, for every vehicle, a stop for each item it
/// carries, and that gives each waiting order to the next vehicle in turn.
pub struct NaiveScheduler {
    vehicles: VehicleInfoMap,
    order_items: OrderItemMap,
}

/// The stop that puts down the one item `id` at `at`.
pub open spec fn unload_stop(at: Seq<char>, id: OrderItemIdView) -> VehicleRouteView {
    VehicleRouteView {
        destination: at,
        work: VehicleWorkView { load_items: Seq::empty(), unload_items: seq![id] },
    }
}

/// For each item of the stack that the catalogue knows, from the bottom up,
/// the stop that puts it down at its destination.
pub open spec fn unload_stops(
    catalogue: Map<OrderItemIdView, OrderItemView>,
    stack: Seq<OrderItemIdView>,
) -> Seq<VehicleRouteView>
    decreases stack.len(),
{
    if stack.len() == 0 {
        Seq::empty()
    } else {
        let rest = unload_stops(catalogue, stack.drop_last());
        let id = stack.last();
        if catalogue.contains_key(id) {
            rest.push(unload_stop(catalogue[id].delivery_id, id))
        } else {
            rest
        }
    }
}

/// A plan as a scheduler builds it: for each vehicle that it names, its stops.
pub type PlanView = Map<Seq<char>, Seq<VehicleRouteView>>;

/// The stops that a plan has for a vehicle: none where it does not name the vehicle.
pub open spec fn stops_of(plan: PlanView, v: Seq<char>) -> Seq<VehicleRouteView> {
    if plan.contains_key(v) {
        plan[v]
    } else {
        Seq::empty()
    }
}

/// The plan with one more stop behind the stops of the vehicle `v`.
pub open spec fn with_stop(plan: PlanView, v: Seq<char>, route: VehicleRouteView) -> PlanView {
    plan.insert(v, stops_of(plan, v).push(route))
}

/// The stop that takes the items `ids` on at `at`.
pub open spec fn load_stop(at: Seq<char>, ids: Seq<OrderItemIdView>) -> VehicleRouteView {
    VehicleRouteView {
        destination: at,
        work: VehicleWorkView { load_items: ids, unload_items: Seq::empty() },
    }
}

/// The stop that puts the items `ids` down at `at`.
pub open spec fn drop_stop(at: Seq<char>, ids: Seq<OrderItemIdView>) -> VehicleRouteView {
    VehicleRouteView {
        destination: at,
        work: VehicleWorkView { load_items: Seq::empty(), unload_items: ids },
    }
}

/// The plan with a trip more for the vehicle `v`: a stop that takes `ids`
/// on at `from`, and a stop that puts them down at `to`. The plan stays as
/// it is where the catalogue does not know one of the items.
pub open spec fn with_trip(
    catalogue: Map<OrderItemIdView, OrderItemView>,
    plan: PlanView,
    v: Seq<char>,
    from: Seq<char>,
    to: Seq<char>,
    ids: Seq<OrderItemIdView>,
) -> PlanView {
    if all_known(catalogue, ids) {
        with_stop(with_stop(plan, v, load_stop(from, ids)), v, drop_stop(to, ids))
    } else {
        plan
    }
}

/// The items of a map that wait to be allocated and that the catalogue
/// knows, by order, each group in the order of the map. `keys` and `items`
/// are the keys of the map and what stands under them.
pub open spec fn waiting_groups(
    catalogue: Map<OrderItemIdView, OrderItemView>,
    states: Map<OrderItemIdView, OrderItemState>,
    keys: Seq<OrderItemIdView>,
    items: Seq<OrderItemView>,
) -> Map<Seq<char>, Seq<OrderItemView>>
    decreases keys.len(),
{
    if keys.len() == 0 || items.len() == 0 {
        Map::empty()
    } else {
        let rest = waiting_groups(catalogue, states, keys.drop_last(), items.drop_last());
        let item = items.last();
        if states.contains_key(keys.last()) && states[keys.last()] == OrderItemState::Unallocated
            && catalogue.contains_key(item.id) {
            rest.insert(
                item.id.order_id,
                if rest.contains_key(item.id.order_id) {
                    rest[item.id.order_id].push(item)
                } else {
                    seq![item]
                },
            )
        } else {
            rest
        }
    }
}

/// The names of the vehicles of a fleet, in the order of the fleet.
pub open spec fn names_of(fleet: Seq<VehicleInfoView>) -> Seq<Seq<char>> {
    Seq::new(fleet.len(), |i: int| fleet[i].car_num)
}

/// The identifiers of the items of a list.
pub open spec fn ids_of(items: Seq<OrderItemView>) -> Seq<OrderItemIdView> {
    Seq::new(items.len(), |i: int| items[i].id)
}

/// The room that the items of a list are recorded to take, in boxes.
pub open spec fn recorded_demand(items: Seq<OrderItemView>) -> int
    decreases items.len(),
{
    if items.len() == 0 {
        0
    } else {
        recorded_demand(items.drop_last()) + items.last().demand
    }
}

/// Where the scheduler stands while it cuts an order into pieces: the plan
/// so far, the vehicle whose turn it is, and the piece that is being filled
/// with the room it takes.
pub struct Cutting {
    pub plan: PlanView,
    pub turn: int,
    pub carried: int,
    pub piece: Seq<OrderItemIdView>,
}

/// One item more of an order that is cut into pieces. Where the item does
/// not fit into the piece, the piece becomes a trip of the vehicle whose
/// turn it is, between the factories of the item, and a new piece begins.
/// The turn passes on with every item.
pub open spec fn cut_step(
    catalogue: Map<OrderItemIdView, OrderItemView>,
    names: Seq<Seq<char>>,
    capacity: int,
    c: Cutting,
    item: OrderItemView,
) -> Cutting {
    let full = c.carried + item.demand > capacity;
    Cutting {
        plan: if full {
            with_trip(
                catalogue,
                c.plan,
                names[c.turn],
                item.pickup_id,
                item.delivery_id,
                c.piece,
            )
        } else {
            c.plan
        },
        turn: (c.turn + 1) % (names.len() as int),
        carried: if full {
            item.demand
        } else {
            c.carried + item.demand
        },
        piece: if full {
            seq![item.id]
        } else {
            c.piece.push(item.id)
        },
    }
}

/// The items of an order cut into pieces, one after the other.
pub open spec fn cut_all(
    catalogue: Map<OrderItemIdView, OrderItemView>,
    names: Seq<Seq<char>>,
    capacity: int,
    c: Cutting,
    items: Seq<OrderItemView>,
) -> Cutting
    decreases items.len(),
{
    if items.len() == 0 {
        c
    } else {
        cut_step(
            catalogue,
            names,
            capacity,
            cut_all(catalogue, names, capacity, c, items.drop_last()),
            items.last(),
        )
    }
}

/// One order is given out, and the turn passes on. An order that fits into
/// a vehicle becomes one trip of the vehicle whose turn it is, between the
/// factories of its first item. An order that does not fit is cut into
/// pieces, and the piece that is left at the end becomes a trip between
/// the factories of the first item.
pub open spec fn give_order(
    catalogue: Map<OrderItemIdView, OrderItemView>,
    names: Seq<Seq<char>>,
    capacity: int,
    plan: PlanView,
    turn: int,
    items: Seq<OrderItemView>,
) -> (PlanView, int) {
    if items.len() == 0 {
        (plan, (turn + 1) % (names.len() as int))
    } else if recorded_demand(items) > capacity {
        let c = cut_all(
            catalogue,
            names,
            capacity,
            Cutting { plan, turn, carried: 0, piece: Seq::empty() },
            items,
        );
        (
            if c.piece.len() > 0 {
                with_trip(
                    catalogue,
                    c.plan,
                    names[c.turn],
                    items[0].pickup_id,
                    items[0].delivery_id,
                    c.piece,
                )
            } else {
                c.plan
            },
            (c.turn + 1) % (names.len() as int),
        )
    } else {
        (
            with_trip(
                catalogue,
                plan,
                names[turn],
                items[0].pickup_id,
                items[0].delivery_id,
                ids_of(items),
            ),
            (turn + 1) % (names.len() as int),
        )
    }
}

/// The orders are given out one after the other, the first to the first vehicle.
pub open spec fn give_all(
    catalogue: Map<OrderItemIdView, OrderItemView>,
    names: Seq<Seq<char>>,
    capacity: int,
    plan: PlanView,
    groups: Seq<Seq<OrderItemView>>,
) -> (PlanView, int)
    decreases groups.len(),
{
    if groups.len() == 0 {
        (plan, 0int)
    } else {
        let before = give_all(catalogue, names, capacity, plan, groups.drop_last());
        give_order(catalogue, names, capacity, before.0, before.1, groups.last())
    }
}

/// The plan after the waiting orders have been given out to a fleet: as it
/// was where the fleet has no vehicle, and otherwise with the trips of
/// every order, the orders taken in the increasing order of their names.
/// The first vehicle of the fleet gives the capacity.
pub open spec fn given_out(
    catalogue: Map<OrderItemIdView, OrderItemView>,
    fleet: Seq<VehicleInfoView>,
    plan: PlanView,
    waiting: Map<Seq<char>, Seq<OrderItemView>>,
) -> PlanView {
    if fleet.len() == 0 {
        plan
    } else {
        give_all(
            catalogue,
            names_of(fleet),
            fleet[0].capacity(),
            plan,
            values_in_order::<OrderId, Seq<OrderItemView>>(waiting),
        ).0
    }
}

/// For every vehicle with a planned stack, the stops that put down what
/// is on the stack.
pub open spec fn unloading(
    catalogue: Map<OrderItemIdView, OrderItemView>,
    stacks: Map<Seq<char>, Seq<OrderItemIdView>>,
) -> PlanView {
    Map::new(|v: Seq<char>| stacks.contains_key(v), |v: Seq<char>| unload_stops(catalogue, stacks[v]))
}

/// The plan with the stops of every vehicle in canonical form.
pub open spec fn canonical_plan(plan: PlanView) -> PlanView {
    Map::new(|v: Seq<char>| plan.contains_key(v), |v: Seq<char>| dedup_routes(plan[v]))
}

/// Whether the catalogue knows every item of the list.
#[verifier::loop_isolation(false)]
fn knows_all(catalogue: &OrderItemMap, ids: &Vec<OrderItemId>) -> (r: bool)
    ensures
        r == all_known(catalogue@, ids.deep_view()),
{
    let mut i: usize = 0;
    while i < ids.len()
        invariant
            i <= ids.len(),
            forall|j: int| 0 <= j < i ==> catalogue@.contains_key(#[trigger] ids.deep_view()[j]),
        decreases ids.len() - i,
    {
        if !catalogue.contains_key(&ids[i]) {
            assert(!catalogue@.contains_key(ids.deep_view()[i as int]));
            return false;
        }
        i += 1;
    }
    true
}

/// Adds a stop to the stops planned for a vehicle, which need not have any yet.
fn add_stop(schedule: &mut Plan, vehicle: &VehicleId, route: VehicleRoute)
    ensures
        final(schedule)@ == with_stop(old(schedule)@, vehicle@, route@),
{
    let ghost stop = route@;
    match schedule.position(vehicle) {
        Some(p) => {
            let stops = schedule.value_mut_at(p);
            let ghost was = stops.deep_view();
            stops.push(route);
            assert(stops.deep_view() =~= was.push(stop));
        },
        None => {
            let mut stops: Vec<VehicleRoute> = Vec::new();
            stops.push(route);
            assert(stops.deep_view() =~= Seq::<VehicleRouteView>::empty().push(stop));
            schedule.insert(vehicle.duplicate(), stops);
        },
    }
}

impl NaiveScheduler {
    /// The vehicles that the scheduler plans for.
    pub closed spec fn fleet(&self) -> Map<Seq<char>, VehicleInfoView> {
        self.vehicles@
    }

    /// The items that the scheduler knows.
    pub closed spec fn catalogue(&self) -> Map<OrderItemIdView, OrderItemView> {
        self.order_items@
    }

    /// The vehicles that the scheduler plans for, in the increasing order of their names.
    pub closed spec fn fleet_in_order(&self) -> Seq<VehicleInfoView> {
        self.vehicles.values()
    }

    /// A scheduler for the given vehicles and items.
    pub fn new(vehicles: VehicleInfoMap, order_items: OrderItemMap) -> (r: Self)
        ensures
            r.fleet() == vehicles@,
            r.fleet_in_order() == vehicles.values(),
            r.catalogue() == order_items@,
    {
        NaiveScheduler { vehicles, order_items }
    }

    /// The stops that put down what a vehicle carries.
    #[verifier::loop_isolation(false)]
    fn unload_plan(&self, stack: &Vec<OrderItemId>) -> (stops: Vec<VehicleRoute>)
        ensures
            stops.deep_view() == unload_stops(self.catalogue(), stack.deep_view()),
    {
        let ghost list = stack.deep_view();
        let ghost catalogue = self.catalogue();
        let mut stops: Vec<VehicleRoute> = Vec::new();
        assert(stops.deep_view() =~= unload_stops(catalogue, list.take(0)));
        let mut i: usize = 0;
        while i < stack.len()
            invariant
                i <= stack.len(),
                stops.deep_view() == unload_stops(catalogue, list.take(i as int)),
            decreases stack.len() - i,
        {
            proof {
                assert(list.take(i + 1).drop_last() =~= list.take(i as int));
                assert(list.take(i + 1).last() == list[i as int]);
            }
            match self.order_items.get(&stack[i]) {
                Some(item) => {
                    let mut one: Vec<OrderItemId> = Vec::new();
                    one.push(stack[i].duplicate());
                    assert(one.deep_view() =~= seq![list[i as int]]);
                    let ghost was = stops.deep_view();
                    stops.push(
                        VehicleRoute::new(
                            item.delivery_id.duplicate(),
                            VehicleWork::new_unload(&self.order_items, one),
                        ),
                    );
                    assert(stops.deep_view() =~= was.push(
                        unload_stop(catalogue[list[i as int]].delivery_id, list[i as int]),
                    ));
                },
                None => {},
            }
            i += 1;
        }
        assert(list.take(i as int) =~= list);
        stops
    }

    /// The waiting items that both the kernel and the scheduler know, by order.
    #[verifier::loop_isolation(false)]
    fn waiting_orders(&self, args: &SchedulerArgs) -> (orders: MapType<OrderId, Vec<OrderItem>>)
        ensures
            orders@ == waiting_groups(
                self.catalogue(),
                args.item_states@,
                args.items.keys(),
                args.items.values(),
            ),
    {
        let ghost catalogue = self.catalogue();
        let ghost states = args.item_states@;
        let ghost keys = args.items.keys();
        let ghost values = args.items.values();
        let mut orders: MapType<OrderId, Vec<OrderItem>> = MapType::new();
        let n: usize = args.items.len();
        let mut i: usize = 0;
        while i < n
            invariant
                i <= n,
                orders@ == waiting_groups(
                    catalogue,
                    states,
                    keys.take(i as int),
                    values.take(i as int),
                ),
            decreases n - i,
        {
            let id = args.items.key_at(i);
            let item = args.items.value_at(i);
            proof {
                assert(keys.take(i + 1).drop_last() =~= keys.take(i as int));
                assert(values.take(i + 1).drop_last() =~= values.take(i as int));
                assert(keys.take(i + 1).last() == keys[i as int]);
                assert(values.take(i + 1).last() == values[i as int]);
            }
            let waiting = match args.item_states.get(id) {
                Some(state) => *state == OrderItemState::Unallocated,
                None => false,
            };
            if waiting && self.order_items.contains_key(&item.id) {
                let copy = item.duplicate();
                let ghost rest = orders@;
                match orders.position(&item.id.order_id) {
                    Some(p) => {
                        let list = orders.value_mut_at(p);
                        let ghost was = list.deep_view();
                        list.push(copy);
                        assert(list.deep_view() =~= was.push(values[i as int]));
                    },
                    None => {
                        let mut list: Vec<OrderItem> = Vec::new();
                        list.push(copy);
                        assert(list.deep_view() =~= seq![values[i as int]]);
                        orders.insert(item.id.order_id.duplicate(), list);
                    },
                }
            }
            i += 1;
        }
        proof {
            assert(keys.take(n as int) =~= keys);
            assert(values.take(n as int) =~= values);
        }
        orders
    }

    /// Plans a trip that takes `ids` on at `from` and puts them down at `to`,
    /// for the vehicle at the place `turn` of the fleet. Nothing is planned
    /// where the scheduler does not know one of the items.
    fn plan_trip(
        &self,
        schedule: &mut Plan,
        turn: usize,
        from: &FactoryId,
        to: &FactoryId,
        ids: &Vec<OrderItemId>,
    )
        requires
            turn < self.vehicles.keys().len(),
        ensures
            final(schedule)@ == with_trip(
                self.catalogue(),
                old(schedule)@,
                names_of(self.fleet_in_order())[turn as int],
                from@,
                to@,
                ids.deep_view(),
            ),
    {
        if !knows_all(&self.order_items, ids) {
            return ;
        }
        proof {
            use_type_invariant(&self.vehicles);
            self.vehicles.lemma_wf();
        }
        let vehicle = self.vehicles.value_at(turn).id();
        add_stop(
            schedule,
            vehicle,
            VehicleRoute::new(
                from.duplicate(),
                VehicleWork::new_load(&self.order_items, duplicate_vec(ids)),
            ),
        );
        add_stop(
            schedule,
            vehicle,
            VehicleRoute::new(
                to.duplicate(),
                VehicleWork::new_unload(&self.order_items, duplicate_vec(ids)),
            ),
        );
    }

    /// Plans stops for the vehicles. Every vehicle gets, for each item of its
    /// planned stack that the scheduler knows, a stop that puts the item down
    /// at its destination. With `allocate`, every order of which items wait
    /// is then given to the next vehicle in turn, in pieces where it does
    /// not fit into a vehicle. The plan comes back in canonical form.
    #[verifier::loop_isolation(false)]
    pub fn schedule_opt(&mut self, args: SchedulerArgs, allocate: bool) -> (plan: Plan)
        ensures
            forall|v: Seq<char>| #[trigger] plan@.contains_key(v) ==> canonical(plan@[v]),
            !allocate ==> plan@.dom() =~= args.vehicle_stacks@.dom(),
            !allocate ==> forall|v: Seq<char>| #[trigger]
                plan@.contains_key(v) ==> plan@[v] == dedup_routes(
                    unload_stops(old(self).catalogue(), args.vehicle_stacks@[v]),
                ),
            plan@ == canonical_plan(
                if allocate {
                    given_out(
                        old(self).catalogue(),
                        old(self).fleet_in_order(),
                        unloading(old(self).catalogue(), args.vehicle_stacks@),
                        waiting_groups(
                            old(self).catalogue(),
                            args.item_states@,
                            args.items.keys(),
                            args.items.values(),
                        ),
                    )
                } else {
                    unloading(old(self).catalogue(), args.vehicle_stacks@)
                },
            ),
            final(self).fleet() == old(self).fleet(),
            final(self).fleet_in_order() == old(self).fleet_in_order(),
            final(self).catalogue() == old(self).catalogue(),
    {
        let ghost catalogue = self.catalogue();
        let ghost stacks = args.vehicle_stacks@;
        let ghost names = args.vehicle_stacks.keys();
        let mut schedule: Plan = MapType::new();
        let n: usize = args.vehicle_stacks.len();
        proof {
            args.vehicle_stacks.lemma_wf();
        }
        let mut i: usize = 0;
        while i < n
            invariant
                i <= n,
                forall|v: Seq<char>| schedule@.contains_key(v) <==> names.take(i as int).contains(v),
                forall|v: Seq<char>| #[trigger]
                    schedule@.contains_key(v) ==> schedule@[v] == unload_stops(
                        catalogue,
                        stacks[v],
                    ),
            decreases n - i,
        {
            let stops = self.unload_plan(args.vehicle_stacks.value_at(i));
            schedule.insert(args.vehicle_stacks.key_at(i).duplicate(), stops);
            assert forall|v: Seq<char>| schedule@.contains_key(v) <==> names.take(i + 1).contains(
                v,
            ) by {
                lemma_take_contains(names, i as int, v);
            }
            i += 1;
        }
        proof {
            assert(names.take(n as int) =~= names);
            assert(schedule@.dom() =~= stacks.dom());
            assert(schedule@ =~= unloading(catalogue, stacks));
        }
        if allocate {
            self.allocate(&mut schedule, &args);
        }
        let ghost raw = schedule@;
        let ghost raw_keys = schedule.keys();
        let ghost raw_values = schedule.values();
        proof {
            use_type_invariant(&schedule);
            schedule.lemma_wf();
        }
        deduplicate(&mut schedule);
        proof {
            use_type_invariant(&schedule);
            schedule.lemma_wf();
            assert forall|v: Seq<char>| #[trigger] schedule@.contains_key(v) implies canonical(
                schedule@[v],
            ) && raw.contains_key(v) && schedule@[v] == dedup_routes(raw[v]) by {
                let j = schedule.keys().index_of(v);
                assert(schedule.keys()[j] == v);
                assert(raw_keys[j] == v);
                assert(schedule@[v] == schedule.values()[j]);
                assert(raw[v] == raw_values[j]);
                law_dedup_canonical(raw_values[j]);
            }
            assert forall|v: Seq<char>| raw.contains_key(v) implies schedule@.contains_key(v) by {
                let j = raw_keys.index_of(v);
                assert(raw_keys[j] == v);
                assert(schedule.keys()[j] == v);
            }
            assert(schedule@.dom() =~= raw.dom());
            assert(schedule@ =~= canonical_plan(raw));
        }
        schedule
    }

    /// Gives every order of which items wait to the next vehicle in turn.
    #[verifier::loop_isolation(false)]
    fn allocate(&self, schedule: &mut Plan, args: &SchedulerArgs)
        ensures
            final(schedule)@ == given_out(
                self.catalogue(),
                self.fleet_in_order(),
                old(schedule)@,
                waiting_groups(
                    self.catalogue(),
                    args.item_states@,
                    args.items.keys(),
                    args.items.values(),
                ),
            ),
    {
        let fleet: usize = self.vehicles.len();
        if fleet == 0 {
            return ;
        }
        proof {
            self.vehicles.lemma_wf();
        }
        let orders = self.waiting_orders(args);
        let capacity: i128 = self.vehicles.value_at(0).capacity() as i128;
        let ghost catalogue = self.catalogue();
        let ghost names = names_of(self.fleet_in_order());
        let ghost room = self.fleet_in_order()[0].capacity();
        let ghost start = schedule@;
        let ghost groups = orders.values();
        let mut turn: usize = 0;
        let n: usize = orders.len();
        proof {
            orders.lemma_in_order();
            assert(groups.take(0) =~= Seq::<Seq<OrderItemView>>::empty());
        }
        let mut i: usize = 0;
        while i < n
            invariant
                i <= n,
                turn < fleet,
                schedule@ == give_all(catalogue, names, room, start, groups.take(i as int)).0,
                turn == give_all(catalogue, names, room, start, groups.take(i as int)).1,
            decreases n - i,
        {
            let items = orders.value_at(i);
            let ghost group = items.deep_view();
            let ghost plan = schedule@;
            let ghost first = turn as int;
            proof {
                assert(groups.take(i + 1).drop_last() =~= groups.take(i as int));
                assert(groups.take(i + 1).last() == group);
                assert(group.len() == items.len());
            }
            if items.len() > 0 {
                let mut demand: i128 = 0;
                let mut j: usize = 0;
                assert(group.take(0) =~= Seq::<OrderItemView>::empty());
                while j < items.len()
                    invariant
                        j <= items.len(),
                        -0x8000_0000 * j <= demand <= 0x8000_0000 * j,
                        demand == recorded_demand(group.take(j as int)),
                    decreases items.len() - j,
                {
                    proof {
                        assert(group.take(j + 1).drop_last() =~= group.take(j as int));
                        assert(group.take(j + 1).last() == group[j as int]);
                    }
                    demand = demand + items[j].demand as i128;
                    j += 1;
                }
                assert(group.take(items.len() as int) =~= group);
                let from = &items[0].pickup_id;
                let to = &items[0].delivery_id;
                if demand > capacity {
                    let ghost begun = Cutting {
                        plan,
                        turn: first,
                        carried: 0,
                        piece: Seq::empty(),
                    };
                    let mut carried: i128 = 0;
                    let mut piece: Vec<OrderItemId> = Vec::new();
                    assert(piece.deep_view() =~= Seq::<OrderItemIdView>::empty());
                    let mut k: usize = 0;
                    while k < items.len()
                        invariant
                            k <= items.len(),
                            turn < fleet,
                            -0x8000_0000 * k <= carried <= 0x8000_0000 * k,
                            schedule@ == cut_all(
                                catalogue,
                                names,
                                room,
                                begun,
                                group.take(k as int),
                            ).plan,
                            turn == cut_all(
                                catalogue,
                                names,
                                room,
                                begun,
                                group.take(k as int),
                            ).turn,
                            carried == cut_all(
                                catalogue,
                                names,
                                room,
                                begun,
                                group.take(k as int),
                            ).carried,
                            piece.deep_view() == cut_all(
                                catalogue,
                                names,
                                room,
                                begun,
                                group.take(k as int),
                            ).piece,
                        decreases items.len() - k,
                    {
                        let item = &items[k];
                        proof {
                            assert(group.take(k + 1).drop_last() =~= group.take(k as int));
                            assert(group.take(k + 1).last() == group[k as int]);
                            assert(item@ == group[k as int]);
                        }
                        if carried + item.demand as i128 > capacity {
                            self.plan_trip(
                                schedule,
                                turn,
                                &item.pickup_id,
                                &item.delivery_id,
                                &piece,
                            );
                            carried = 0;
                            piece.clear();
                            assert(piece.deep_view() =~= Seq::<OrderItemIdView>::empty());
                        }
                        turn = (turn + 1) % fleet;
                        let ghost was = piece.deep_view();
                        piece.push(item.id.duplicate());
                        assert(piece.deep_view() =~= was.push(group[k as int].id));
                        assert(Seq::<OrderItemIdView>::empty().push(group[k as int].id)
                            =~= seq![group[k as int].id]);
                        carried = carried + item.demand as i128;
                        k += 1;
                    }
                    if piece.len() > 0 {
                        self.plan_trip(schedule, turn, from, to, &piece);
                    }
                } else {
                    let mut all: Vec<OrderItemId> = Vec::new();
                    let mut k: usize = 0;
                    while k < items.len()
                        invariant
                            k <= items.len(),
                            all@.len() == k,
                            forall|m: int| 0 <= m < k ==> all@[m].deep_view() == group[m].id,
                        decreases items.len() - k,
                    {
                        all.push(items[k].id.duplicate());
                        k += 1;
                    }
                    assert(all.deep_view() =~= ids_of(group));
                    self.plan_trip(schedule, turn, from, to, &all);
                }
            }
            turn = (turn + 1) % fleet;
            i += 1;
        }
        proof {
            assert(groups.take(n as int) =~= groups);
        }
    }
}

impl Scheduler for NaiveScheduler {
    fn schedule(&mut self, args: SchedulerArgs) -> (plan: Plan)
        ensures
            forall|v: Seq<char>| #[trigger] plan@.contains_key(v) ==> canonical(plan@[v]),
    {
        self.schedule_opt(args, true)
    }
}

} // verus!
