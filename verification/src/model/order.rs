//! Orders: requests to carry items from one factory to another within a day.

use crate::model::factory_info::FactoryId;
use crate::model::order_item::{OrderItem, OrderItemId, OrderItemIdView, OrderItemType, OrderItemView};
use crate::model::record::InvalidRecord;
use crate::model::table::{Duplicate, Key, MapType};
use crate::model::text::{
    lemma_text_irreflexive, lemma_text_total, lemma_text_transitive, text_before, text_precedes,
};
use vstd::prelude::*;
use vstd::std_specs::cmp::PartialEqSpecImpl;

verus! {

/// The name of an order.
#[derive(Debug, Eq, PartialOrd, Ord, Hash)]
pub struct OrderId(pub String);

impl DeepView for OrderId {
    type V = Seq<char>;

    open spec fn deep_view(&self) -> Seq<char> {
        self.0@
    }
}

impl View for OrderId {
    type V = Seq<char>;

    open spec fn view(&self) -> Seq<char> {
        self.0@
    }
}

impl PartialEq for OrderId {
    fn eq(&self, other: &Self) -> (r: bool) {
        self.0 == other.0
    }
}

impl PartialEqSpecImpl for OrderId {
    open spec fn obeys_eq_spec() -> bool {
        true
    }

    open spec fn eq_spec(&self, other: &Self) -> bool {
        self.0@ == other.0@
    }
}

impl Clone for OrderId {
    fn clone(&self) -> (r: Self)
        ensures
            r@ == self@,
    {
        OrderId(self.0.clone())
    }
}

impl Duplicate for OrderId {
    fn duplicate(&self) -> (r: Self) {
        OrderId(self.0.clone())
    }
}

impl Key for OrderId {
    open spec fn precedes(a: Seq<char>, b: Seq<char>) -> bool {
        text_precedes(a, b)
    }

    proof fn order_laws(a: Seq<char>, b: Seq<char>, c: Seq<char>) {
        lemma_text_irreflexive(a);
        lemma_text_total(a, b);
        if text_precedes(a, b) && text_precedes(b, c) {
            lemma_text_transitive(a, b, c);
        }
    }

    fn same(&self, other: &Self) -> (r: bool) {
        self.0 == other.0
    }

    fn before(&self, other: &Self) -> (r: bool) {
        text_before(self.0.as_str(), other.0.as_str())
    }
}

/// The length of a day, in seconds.
pub const SECONDS_PER_DAY: i64 = 86400;

/// An order as it is placed: how many items of each class, when, and between
/// which factories. Times of day are seconds after midnight.
#[derive(Debug)]
pub struct Order {
    pub order_id: OrderId,
    pub q_standard: i32,
    pub q_small: i32,
    pub q_box: i32,
    pub creation_time: i64,
    pub committed_completion_time: i64,
    /// Seconds.
    pub load_time: i64,
    /// Seconds.
    pub unload_time: i64,
    pub pickup_id: FactoryId,
    pub delivery_id: FactoryId,
}

pub struct OrderView {
    pub order_id: Seq<char>,
    pub q_standard: int,
    pub q_small: int,
    pub q_box: int,
    pub creation_time: int,
    pub committed_completion_time: int,
    pub load_time: int,
    pub unload_time: int,
    pub pickup_id: Seq<char>,
    pub delivery_id: Seq<char>,
}

/// A count of items: a negative quantity stands for none.
pub open spec fn count(q: int) -> nat {
    if q > 0 {
        q as nat
    } else {
        0
    }
}

impl OrderView {
    /// Times of day lie within a day, and no duration is negative.
    pub open spec fn valid(self) -> bool {
        &&& 0 <= self.creation_time < 86400
        &&& 0 <= self.committed_completion_time < 86400
        &&& 0 <= self.load_time
        &&& 0 <= self.unload_time
    }

    /// The quantity ordered of one class.
    pub open spec fn quantity(self, class: OrderItemType) -> int {
        match class {
            OrderItemType::Standard => self.q_standard,
            OrderItemType::Small => self.q_small,
            OrderItemType::Box => self.q_box,
        }
    }

    /// The item of this order with the given class and number.
    pub open spec fn item(self, class: OrderItemType, index: int) -> OrderItemView {
        OrderItemView {
            id: OrderItemIdView { order_id: self.order_id, item_type: class, index },
            demand: class.spec_demand(),
            creation_time: self.creation_time,
            committed_completion_time: self.committed_completion_time,
            load_time: self.load_time,
            unload_time: self.unload_time,
            pickup_id: self.pickup_id,
            delivery_id: self.delivery_id,
        }
    }

    /// The items of this order: the standard ones, the small ones, the boxes,
    /// each class numbered from zero.
    pub open spec fn items(self) -> Seq<OrderItemView> {
        self.class_items(OrderItemType::Standard, count(self.q_standard)) + self.class_items(
            OrderItemType::Small,
            count(self.q_small),
        ) + self.class_items(OrderItemType::Box, count(self.q_box))
    }

    /// The first `n` items of one class.
    pub open spec fn class_items(self, class: OrderItemType, n: nat) -> Seq<OrderItemView> {
        Seq::new(n, |i: int| self.item(class, i))
    }

    /// Whether `id` names an item of this order.
    pub open spec fn has_item(self, id: OrderItemIdView) -> bool {
        id.order_id == self.order_id && 0 <= id.index < self.quantity(id.item_type)
    }

    /// The room that the whole order takes, in boxes.
    pub open spec fn demand(self) -> int {
        4 * self.q_standard + 2 * self.q_small + self.q_box
    }

    /// The instant by which the order is due, when its day starts at `date`:
    /// a completion time of day before the creation time means the next day.
    pub open spec fn deadline(self, date: int) -> int {
        date + self.committed_completion_time + if self.creation_time
            > self.committed_completion_time {
            86400int
        } else {
            0int
        }
    }
}

impl DeepView for Order {
    type V = OrderView;

    open spec fn deep_view(&self) -> OrderView {
        OrderView {
            order_id: self.order_id@,
            q_standard: self.q_standard as int,
            q_small: self.q_small as int,
            q_box: self.q_box as int,
            creation_time: self.creation_time as int,
            committed_completion_time: self.committed_completion_time as int,
            load_time: self.load_time as int,
            unload_time: self.unload_time as int,
            pickup_id: self.pickup_id@,
            delivery_id: self.delivery_id@,
        }
    }
}

impl View for Order {
    type V = OrderView;

    open spec fn view(&self) -> OrderView {
        self.deep_view()
    }
}

impl Duplicate for Order {
    fn duplicate(&self) -> (r: Self) {
        Order {
            order_id: self.order_id.duplicate(),
            q_standard: self.q_standard,
            q_small: self.q_small,
            q_box: self.q_box,
            creation_time: self.creation_time,
            committed_completion_time: self.committed_completion_time,
            load_time: self.load_time,
            unload_time: self.unload_time,
            pickup_id: self.pickup_id.duplicate(),
            delivery_id: self.delivery_id.duplicate(),
        }
    }
}

impl Clone for Order {
    fn clone(&self) -> (r: Self)
        ensures
            r@ == self@,
    {
        self.duplicate()
    }
}

/// The items of an order are those that it has, each as the order makes it.
pub proof fn lemma_items(o: OrderView)
    ensures
        forall|j: int|
            0 <= j < o.items().len() ==> o.has_item((#[trigger] o.items()[j]).id) && o.items()[j]
                == o.item(o.items()[j].id.item_type, o.items()[j].id.index),
        forall|id: OrderItemIdView|
            o.has_item(id) ==> exists|j: int|
                0 <= j < o.items().len() && (#[trigger] o.items()[j]).id == id,
{
    let a = count(o.q_standard);
    let b = count(o.q_small);
    let c = count(o.q_box);
    let items = o.items();
    assert forall|j: int| 0 <= j < items.len() implies o.has_item((#[trigger] items[j]).id)
        && items[j] == o.item(items[j].id.item_type, items[j].id.index) by {
        if j < a {
            assert(items[j] == o.item(OrderItemType::Standard, j));
        } else if j < a + b {
            assert(items[j] == o.item(OrderItemType::Small, j - a));
        } else {
            assert(items[j] == o.item(OrderItemType::Box, j - a - b));
        }
    }
    assert forall|id: OrderItemIdView| o.has_item(id) implies exists|j: int|
        0 <= j < items.len() && (#[trigger] items[j]).id == id by {
        let j = match id.item_type {
            OrderItemType::Standard => id.index,
            OrderItemType::Small => a + id.index,
            OrderItemType::Box => a + b + id.index,
        };
        assert(items[j] == o.item(id.item_type, id.index));
        assert(items[j].id == id);
    }
}

/// The identifiers of the items of an order, in the order of the items.
pub open spec fn item_ids(o: OrderView) -> Seq<OrderItemIdView> {
    Seq::new(o.items().len(), |i: int| o.items()[i].id)
}

pub type OrderMap = MapType<OrderId, Order>;

/// The map that the records give when each is put under its order's name, in
/// the order of the sequence: of two records of one order the later one stays.
pub open spec fn orders_by_id(records: Seq<OrderView>) -> Map<Seq<char>, OrderView>
    decreases records.len(),
{
    if records.len() == 0 {
        Map::empty()
    } else {
        orders_by_id(records.drop_last()).insert(records.last().order_id, records.last())
    }
}

impl Order {
    /// Whether the order's times of day lie within a day and its durations are not negative.
    pub fn is_valid(&self) -> (r: bool)
        ensures
            r == self@.valid(),
    {
        0 <= self.creation_time && self.creation_time < SECONDS_PER_DAY && 0
            <= self.committed_completion_time && self.committed_completion_time < SECONDS_PER_DAY
            && 0 <= self.load_time && 0 <= self.unload_time
    }

    /// The instant by which the order is due, when its day starts at the instant `date`.
    pub fn committed_completion_time(&self, date: i64) -> (t: i64)
        requires
            self@.valid(),
            date + 2 * 86400 <= i64::MAX,
        ensures
            t == self@.deadline(date as int),
    {
        let due: i64 = date + self.committed_completion_time;
        if self.creation_time > self.committed_completion_time {
            due + SECONDS_PER_DAY
        } else {
            due
        }
    }

    /// Indexes order records by name. A record is valid if its times of day lie
    /// within a day and its durations are not negative.
    #[verifier::loop_isolation(false)]
    pub fn load(records: Vec<Order>) -> (r: Result<OrderMap, InvalidRecord>)
        ensures
            match r {
                Ok(m) => m@ == orders_by_id(records.deep_view()) && forall|j: int|
                    0 <= j < records.len() ==> (#[trigger] records.deep_view()[j]).valid(),
                Err(e) => e.index < records.len() && !records.deep_view()[e.index as int].valid()
                    && forall|j: int|
                    0 <= j < e.index ==> (#[trigger] records.deep_view()[j]).valid(),
            },
    {
        let mut m: OrderMap = MapType::new();
        let mut i: usize = 0;
        while i < records.len()
            invariant
                i <= records.len(),
                m@ == orders_by_id(records.deep_view().take(i as int)),
                forall|j: int| 0 <= j < i ==> (#[trigger] records.deep_view()[j]).valid(),
            decreases records.len() - i,
        {
            if !records[i].is_valid() {
                return Err(InvalidRecord { index: i });
            }
            let r = records[i].duplicate();
            m.insert(r.order_id.duplicate(), r);
            proof {
                let s = records.deep_view();
                assert(s.take(i + 1).drop_last() =~= s.take(i as int));
                assert(s.take(i + 1).last() == s[i as int]);
            }
            i += 1;
        }
        assert(records.deep_view().take(i as int) =~= records.deep_view());
        Ok(m)
    }

    fn create_item(&self, typ: OrderItemType, index: i32) -> (item: OrderItem)
        ensures
            item@ == self@.item(typ, index as int),
    {
        OrderItem {
            id: OrderItemId { order_id: self.order_id.duplicate(), item_type: typ, index },
            demand: typ.demand(),
            creation_time: self.creation_time,
            committed_completion_time: self.committed_completion_time,
            load_time: self.load_time,
            unload_time: self.unload_time,
            pickup_id: self.pickup_id.duplicate(),
            delivery_id: self.delivery_id.duplicate(),
        }
    }

    #[verifier::loop_isolation(false)]
    fn push_items(&self, items: &mut Vec<OrderItem>, typ: OrderItemType, quantity: i32)
        ensures
            final(items).deep_view() == old(items).deep_view() + self@.class_items(
                typ,
                count(quantity as int),
            ),
    {
        let ghost before = items.deep_view();
        assert(before =~= before + self@.class_items(typ, 0));
        let mut i: i32 = 0;
        while i < quantity
            invariant
                0 <= i,
                i <= quantity || i == 0,
                items.deep_view() == before + self@.class_items(typ, i as nat),
            decreases quantity - i,
        {
            let item = self.create_item(typ, i);
            let ghost was = items.deep_view();
            items.push(item);
            proof {
                assert(items.deep_view() =~= was.push(self@.item(typ, i as int)));
                assert(self@.class_items(typ, (i + 1) as nat) =~= self@.class_items(
                    typ,
                    i as nat,
                ).push(self@.item(typ, i as int)));
                assert(items.deep_view() =~= before + self@.class_items(typ, (i + 1) as nat));
            }
            i += 1;
        }
        assert(i as nat == count(quantity as int));
    }

    /// The items of the order, class by class.
    pub fn into_items(&self) -> (items: Vec<OrderItem>)
        ensures
            items.deep_view() == self@.items(),
    {
        let mut items: Vec<OrderItem> = Vec::new();
        assert(items.deep_view() =~= Seq::<OrderItemView>::empty());
        self.push_items(&mut items, OrderItemType::Standard, self.q_standard);
        self.push_items(&mut items, OrderItemType::Small, self.q_small);
        self.push_items(&mut items, OrderItemType::Box, self.q_box);
        assert(items.deep_view() =~= self@.items());
        items
    }

    /// The identifiers of the items of the order.
    #[verifier::loop_isolation(false)]
    pub fn item_ids(&self) -> (ids: Vec<OrderItemId>)
        ensures
            ids.deep_view() == item_ids(self@),
    {
        let items = self.into_items();
        let mut ids: Vec<OrderItemId> = Vec::new();
        let mut i: usize = 0;
        while i < items.len()
            invariant
                i <= items.len(),
                ids@.len() == i,
                forall|j: int| 0 <= j < i ==> ids@[j].deep_view() == items@[j].deep_view().id,
            decreases items.len() - i,
        {
            ids.push(items[i].id.duplicate());
            i += 1;
        }
        assert(ids.deep_view() =~= item_ids(self@));
        ids
    }

    /// The room that the whole order takes, in boxes.
    pub fn calc_demand(&self) -> (d: i64)
        ensures
            d == self@.demand(),
    {
        let s: i64 = self.q_standard as i64;
        let m: i64 = self.q_small as i64;
        let b: i64 = self.q_box as i64;
        s * 4 + m * 2 + b
    }
}

} // verus!
