//! Items: the atomic units of delivery, and their identifiers.

use crate::model::factory_info::FactoryId;
use crate::model::order::OrderId;
use crate::model::table::{Duplicate, Key, MapType};
use crate::model::text::{
    lemma_text_irreflexive, lemma_text_total, lemma_text_transitive, text_precedes,
};
use vstd::prelude::*;
use vstd::std_specs::cmp::PartialEqSpecImpl;

verus! {

/// The class of an item, which fixes how much room it takes.
#[derive(Debug, Clone, Copy, Hash, PartialEq, Eq, Structural, PartialOrd, Ord)]
pub enum OrderItemType {
    Standard,
    Small,
    Box,
}

impl OrderItemType {
    /// The room that an item of this class takes, in boxes.
    pub open spec fn spec_demand(self) -> int {
        match self {
            OrderItemType::Standard => 4,
            OrderItemType::Small => 2,
            OrderItemType::Box => 1,
        }
    }

    /// The place of the class in the order of identifiers.
    pub open spec fn rank(self) -> int {
        match self {
            OrderItemType::Standard => 0,
            OrderItemType::Small => 1,
            OrderItemType::Box => 2,
        }
    }

    /// The word for the class in a written identifier.
    pub open spec fn word(self) -> Seq<char> {
        match self {
            OrderItemType::Standard => "standard"@,
            OrderItemType::Small => "small"@,
            OrderItemType::Box => "box"@,
        }
    }

    #[verifier::when_used_as_spec(spec_demand_i32)]
    pub fn demand(&self) -> (d: i32)
        ensures
            d == self.spec_demand(),
    {
        match self {
            OrderItemType::Standard => 4,
            OrderItemType::Small => 2,
            OrderItemType::Box => 1,
        }
    }

    pub open spec fn spec_demand_i32(&self) -> i32 {
        self.spec_demand() as i32
    }

    fn position(&self) -> (r: u8)
        ensures
            r == self.rank(),
    {
        match self {
            OrderItemType::Standard => 0,
            OrderItemType::Small => 1,
            OrderItemType::Box => 2,
        }
    }
}

impl DeepView for OrderItemType {
    type V = OrderItemType;

    open spec fn deep_view(&self) -> OrderItemType {
        *self
    }
}

/// The identifier of an item: its order, its class, and its number within the class.
#[derive(Debug, Eq, PartialOrd, Ord, Hash)]
pub struct OrderItemId {
    pub order_id: OrderId,
    pub item_type: OrderItemType,
    pub index: i32,
}

pub struct OrderItemIdView {
    pub order_id: Seq<char>,
    pub item_type: OrderItemType,
    pub index: int,
}

impl OrderItemIdView {
    pub open spec fn demand(self) -> int {
        self.item_type.spec_demand()
    }
}

impl DeepView for OrderItemId {
    type V = OrderItemIdView;

    open spec fn deep_view(&self) -> OrderItemIdView {
        OrderItemIdView {
            order_id: self.order_id@,
            item_type: self.item_type,
            index: self.index as int,
        }
    }
}

impl View for OrderItemId {
    type V = OrderItemIdView;

    open spec fn view(&self) -> OrderItemIdView {
        self.deep_view()
    }
}

impl PartialEq for OrderItemId {
    fn eq(&self, other: &Self) -> (r: bool) {
        self.order_id == other.order_id && self.item_type == other.item_type && self.index
            == other.index
    }
}

impl PartialEqSpecImpl for OrderItemId {
    open spec fn obeys_eq_spec() -> bool {
        true
    }

    open spec fn eq_spec(&self, other: &Self) -> bool {
        self.order_id.0@ == other.order_id.0@ && self.item_type == other.item_type && self.index
            == other.index
    }
}

impl Duplicate for OrderItemId {
    fn duplicate(&self) -> (r: Self) {
        OrderItemId {
            order_id: self.order_id.duplicate(),
            item_type: self.item_type,
            index: self.index,
        }
    }
}

impl Clone for OrderItemId {
    fn clone(&self) -> (r: Self)
        ensures
            r@ == self@,
    {
        self.duplicate()
    }
}

impl Key for OrderItemId {
    /// By order, then by class, then by number.
    open spec fn precedes(a: OrderItemIdView, b: OrderItemIdView) -> bool {
        text_precedes(a.order_id, b.order_id) || (a.order_id == b.order_id && (a.item_type.rank()
            < b.item_type.rank() || (a.item_type == b.item_type && a.index < b.index)))
    }

    proof fn order_laws(a: OrderItemIdView, b: OrderItemIdView, c: OrderItemIdView) {
        lemma_text_irreflexive(a.order_id);
        lemma_text_irreflexive(b.order_id);
        lemma_text_total(a.order_id, b.order_id);
        if text_precedes(a.order_id, b.order_id) && text_precedes(b.order_id, c.order_id) {
            lemma_text_transitive(a.order_id, b.order_id, c.order_id);
        }
    }

    fn same(&self, other: &Self) -> (r: bool) {
        self.order_id.same(&other.order_id) && self.item_type == other.item_type && self.index
            == other.index
    }

    fn before(&self, other: &Self) -> (r: bool) {
        if self.order_id.before(&other.order_id) {
            true
        } else if self.order_id.same(&other.order_id) {
            let a: u8 = self.item_type.position();
            let b: u8 = other.item_type.position();
            a < b || (a == b && self.index < other.index)
        } else {
            false
        }
    }
}

/// The decimal digits of a natural number.
pub open spec fn digits(n: nat) -> Seq<char>
    decreases n,
{
    if n < 10 {
        seq![digit(n)]
    } else {
        digits(n / 10).push(digit(n % 10))
    }
}

/// The character of one decimal digit.
pub open spec fn digit(d: nat) -> char {
    if d == 0 {
        '0'
    } else if d == 1 {
        '1'
    } else if d == 2 {
        '2'
    } else if d == 3 {
        '3'
    } else if d == 4 {
        '4'
    } else if d == 5 {
        '5'
    } else if d == 6 {
        '6'
    } else if d == 7 {
        '7'
    } else if d == 8 {
        '8'
    } else {
        '9'
    }
}

/// A whole number in decimal, with a minus sign before a negative one.
pub open spec fn decimal(n: int) -> Seq<char> {
    if n < 0 {
        seq!['-'] + digits((-n) as nat)
    } else {
        digits(n as nat)
    }
}

fn digit_str(d: u64) -> (s: &'static str)
    requires
        d < 10,
    ensures
        s@ == seq![digit(d as nat)],
{
    proof {
        reveal_strlit("0");
        reveal_strlit("1");
        reveal_strlit("2");
        reveal_strlit("3");
        reveal_strlit("4");
        reveal_strlit("5");
        reveal_strlit("6");
        reveal_strlit("7");
        reveal_strlit("8");
        reveal_strlit("9");
    }
    let s = if d == 0 {
        "0"
    } else if d == 1 {
        "1"
    } else if d == 2 {
        "2"
    } else if d == 3 {
        "3"
    } else if d == 4 {
        "4"
    } else if d == 5 {
        "5"
    } else if d == 6 {
        "6"
    } else if d == 7 {
        "7"
    } else if d == 8 {
        "8"
    } else {
        "9"
    };
    assert(s@ =~= seq![digit(d as nat)]);
    s
}

/// Writes a natural number in decimal behind what `out` holds.
pub fn append_digits(out: &mut String, n: u64)
    ensures
        final(out)@ == old(out)@ + digits(n as nat),
    decreases n,
{
    if n >= 10 {
        append_digits(out, n / 10);
    }
    let d: u64 = n % 10;
    out.append(digit_str(d));
    proof {
        if n >= 10 {
            assert(final(out)@ =~= old(out)@ + digits((n / 10) as nat).push(digit((n % 10) as nat)));
        } else {
            assert(final(out)@ =~= old(out)@ + seq![digit(n as nat)]);
        }
    }
}

impl OrderItemIdView {
    /// The written form of an identifier: order, class word and number, joined by `_`.
    pub open spec fn written(self) -> Seq<char> {
        self.order_id + seq!['_'] + self.item_type.word() + seq!['_'] + decimal(self.index)
    }
}

impl OrderItemId {
    /// The room that the item takes, in boxes.
    pub fn demand(&self) -> (d: i32)
        ensures
            d == self@.demand(),
    {
        self.item_type.demand()
    }

    /// The written form of the identifier, as it stands in dispatch records.
    pub fn to_string(&self) -> (s: String)
        ensures
            s@ == self@.written(),
    {
        proof {
            reveal_strlit("_");
            reveal_strlit("-");
        }
        let mut s = self.order_id.0.clone();
        s.append("_");
        let word = match self.item_type {
            OrderItemType::Standard => "standard",
            OrderItemType::Small => "small",
            OrderItemType::Box => "box",
        };
        s.append(word);
        s.append("_");
        assert("_"@ =~= seq!['_']);
        assert("-"@ =~= seq!['-']);
        let ghost prefix = s@;
        assert(prefix =~= self@.order_id + seq!['_'] + self.item_type.word() + seq!['_']);
        if self.index < 0 {
            s.append("-");
            let m: u64 = (-(self.index as i64)) as u64;
            append_digits(&mut s, m);
            assert(s@ =~= prefix + decimal(self.index as int));
        } else {
            append_digits(&mut s, self.index as u64);
            assert(s@ =~= prefix + decimal(self.index as int));
        }
        s
    }
}

/// An item with what it inherits from its order.
#[derive(Debug)]
pub struct OrderItem {
    pub id: OrderItemId,
    pub demand: i32,
    /// Seconds after midnight at which the item becomes available.
    pub creation_time: i64,
    /// Seconds after midnight by which delivery is due.
    pub committed_completion_time: i64,
    /// Seconds.
    pub load_time: i64,
    /// Seconds.
    pub unload_time: i64,
    pub pickup_id: FactoryId,
    pub delivery_id: FactoryId,
}

pub struct OrderItemView {
    pub id: OrderItemIdView,
    pub demand: int,
    pub creation_time: int,
    pub committed_completion_time: int,
    pub load_time: int,
    pub unload_time: int,
    pub pickup_id: Seq<char>,
    pub delivery_id: Seq<char>,
}

impl DeepView for OrderItem {
    type V = OrderItemView;

    open spec fn deep_view(&self) -> OrderItemView {
        OrderItemView {
            id: self.id@,
            demand: self.demand as int,
            creation_time: self.creation_time as int,
            committed_completion_time: self.committed_completion_time as int,
            load_time: self.load_time as int,
            unload_time: self.unload_time as int,
            pickup_id: self.pickup_id@,
            delivery_id: self.delivery_id@,
        }
    }
}

impl View for OrderItem {
    type V = OrderItemView;

    open spec fn view(&self) -> OrderItemView {
        self.deep_view()
    }
}

impl Duplicate for OrderItem {
    fn duplicate(&self) -> (r: Self) {
        OrderItem {
            id: self.id.duplicate(),
            demand: self.demand,
            creation_time: self.creation_time,
            committed_completion_time: self.committed_completion_time,
            load_time: self.load_time,
            unload_time: self.unload_time,
            pickup_id: self.pickup_id.duplicate(),
            delivery_id: self.delivery_id.duplicate(),
        }
    }
}

impl Clone for OrderItem {
    fn clone(&self) -> (r: Self)
        ensures
            r@ == self@,
    {
        self.duplicate()
    }
}

pub type OrderItemMap = MapType<OrderItemId, OrderItem>;

/// The room that a list of items takes, in boxes.
pub open spec fn demand_of(ids: Seq<OrderItemIdView>) -> int
    decreases ids.len(),
{
    if ids.len() == 0 {
        0
    } else {
        demand_of(ids.drop_last()) + ids.last().demand()
    }
}

pub proof fn lemma_demand_bounds(ids: Seq<OrderItemIdView>)
    ensures
        ids.len() <= demand_of(ids) <= 4 * ids.len(),
    decreases ids.len(),
{
    if ids.len() > 0 {
        lemma_demand_bounds(ids.drop_last());
    }
}

pub proof fn lemma_demand_concat(a: Seq<OrderItemIdView>, b: Seq<OrderItemIdView>)
    ensures
        demand_of(a + b) == demand_of(a) + demand_of(b),
    decreases b.len(),
{
    if b.len() == 0 {
        assert(a + b =~= a);
    } else {
        lemma_demand_concat(a, b.drop_last());
        assert((a + b).drop_last() =~= a + b.drop_last());
    }
}

/// The room that a list of items takes, in boxes.
#[verifier::loop_isolation(false)]
pub fn total_demand(items: &Vec<OrderItemId>) -> (d: i128)
    ensures
        d == demand_of(items.deep_view()),
        0 <= d <= 4 * items.len(),
{
    let mut d: i128 = 0;
    let mut i: usize = 0;
    while i < items.len()
        invariant
            i <= items.len(),
            d == demand_of(items.deep_view().take(i as int)),
            0 <= d <= 4 * i,
        decreases items.len() - i,
    {
        proof {
            let s = items.deep_view();
            assert(s.take(i + 1).drop_last() =~= s.take(i as int));
            assert(s.take(i + 1).last() == s[i as int]);
        }
        d = d + items[i].demand() as i128;
        i += 1;
    }
    assert(items.deep_view().take(i as int) =~= items.deep_view());
    d
}

} // verus!
