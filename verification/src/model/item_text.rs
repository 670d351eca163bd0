//! Reading an item identifier from its written form.

use crate::model::order::OrderId;
use crate::model::order_item::{
    decimal, digit, digits, OrderItemId, OrderItemIdView, OrderItemType,
};
use vstd::prelude::*;

verus! {

/// The place of the first `_` of the text at or behind `from`; the length
/// of the text where there is none.
pub open spec fn first_break(text: Seq<char>, from: int) -> int
    decreases text.len() - from,
{
    if from >= text.len() {
        text.len() as int
    } else if text[from] == '_' {
        from
    } else {
        first_break(text, from + 1)
    }
}

/// The class that a word stands for.
pub open spec fn class_of(word: Seq<char>) -> Option<OrderItemType> {
    if word == OrderItemType::Standard.word() {
        Some(OrderItemType::Standard)
    } else if word == OrderItemType::Small.word() {
        Some(OrderItemType::Small)
    } else if word == OrderItemType::Box.word() {
        Some(OrderItemType::Box)
    } else {
        None
    }
}

/// The value of a decimal digit; `None` for any other character.
pub open spec fn digit_value(c: char) -> Option<nat> {
    if c == '0' {
        Some(0nat)
    } else if c == '1' {
        Some(1nat)
    } else if c == '2' {
        Some(2nat)
    } else if c == '3' {
        Some(3nat)
    } else if c == '4' {
        Some(4nat)
    } else if c == '5' {
        Some(5nat)
    } else if c == '6' {
        Some(6nat)
    } else if c == '7' {
        Some(7nat)
    } else if c == '8' {
        Some(8nat)
    } else if c == '9' {
        Some(9nat)
    } else {
        None
    }
}

/// Every character of the text is a decimal digit.
pub open spec fn all_digits(text: Seq<char>) -> bool {
    forall|i: int| 0 <= i < text.len() ==> digit_value(#[trigger] text[i]).is_some()
}

/// The number that a text of digits writes; an empty text writes zero.
pub open spec fn value_of(text: Seq<char>) -> nat
    decreases text.len(),
{
    if text.len() == 0 {
        0
    } else {
        value_of(text.drop_last()) * 10 + match digit_value(text.last()) {
            Some(d) => d,
            None => 0,
        }
    }
}

/// The whole number that a text writes: digits, at least one, behind an
/// optional sign, and no more than 32 bits hold.
pub open spec fn number_of(text: Seq<char>) -> Option<int> {
    if text.len() > 0 && (text[0] == '-' || text[0] == '+') {
        let rest = text.drop_first();
        let n = if text[0] == '-' {
            -(value_of(rest) as int)
        } else {
            value_of(rest) as int
        };
        if rest.len() > 0 && all_digits(rest) && i32::MIN <= n <= i32::MAX {
            Some(n)
        } else {
            None
        }
    } else if text.len() > 0 && all_digits(text) && value_of(text) <= i32::MAX {
        Some(value_of(text) as int)
    } else {
        None
    }
}

/// The identifier that a text writes: the order up to the first `_`, the
/// word of the class up to the second, and the number up to the third or to
/// the end. `None` where a part is missing or does not read.
pub open spec fn parsed(text: Seq<char>) -> Option<OrderItemIdView> {
    let a = first_break(text, 0);
    let b = first_break(text, a + 1);
    let c = first_break(text, b + 1);
    if a >= text.len() || b >= text.len() {
        None
    } else {
        match (class_of(text.subrange(a + 1, b)), number_of(text.subrange(b + 1, c))) {
            (Some(class), Some(index)) => Some(
                OrderItemIdView { order_id: text.subrange(0, a), item_type: class, index },
            ),
            _ => None,
        }
    }
}

/// The place of the first `_` is the first place, at or behind `from`, at
/// which a `_` stands.
pub proof fn lemma_first_break_is(text: Seq<char>, from: int, at: int)
    requires
        0 <= from <= at <= text.len(),
        forall|i: int| from <= i < at ==> text[i] != '_',
        at < text.len() ==> text[at] == '_',
    ensures
        first_break(text, from) == at,
    decreases at - from,
{
    if from < at {
        lemma_first_break_is(text, from + 1, at);
    }
}

pub proof fn lemma_value_grows(text: Seq<char>, i: int)
    requires
        0 <= i <= text.len(),
    ensures
        value_of(text.take(i)) <= value_of(text),
    decreases text.len() - i,
{
    if i == text.len() {
        assert(text.take(i) =~= text);
    } else {
        lemma_value_grows(text, i + 1);
        assert(text.take(i + 1).drop_last() =~= text.take(i));
    }
}

/// The place of the first `_` of the text at or behind `from`.
#[verifier::loop_isolation(false)]
fn find_break(text: &str, length: usize, from: usize) -> (at: usize)
    requires
        length == text@.len(),
    ensures
        at == first_break(text@, from as int),
        from <= at <= length || (length <= from && at == length),
{
    if from >= length {
        return length;
    }
    let mut i: usize = from;
    while i < length && text.get_char(i) != '_'
        invariant
            from <= i <= length,
            forall|j: int| from <= j < i ==> text@[j] != '_',
        decreases length - i,
    {
        i += 1;
    }
    proof {
        lemma_first_break_is(text@, from as int, i as int);
    }
    i
}

fn read_digit(c: char) -> (r: Option<i64>)
    ensures
        r.is_some() == digit_value(c).is_some(),
        r.is_some() ==> r.unwrap() == digit_value(c).unwrap(),
{
    if c == '0' {
        Some(0)
    } else if c == '1' {
        Some(1)
    } else if c == '2' {
        Some(2)
    } else if c == '3' {
        Some(3)
    } else if c == '4' {
        Some(4)
    } else if c == '5' {
        Some(5)
    } else if c == '6' {
        Some(6)
    } else if c == '7' {
        Some(7)
    } else if c == '8' {
        Some(8)
    } else if c == '9' {
        Some(9)
    } else {
        None
    }
}

/// The number that the digits of the text from `from` to `to` write, if
/// they are digits and the number is at most `limit`.
#[verifier::loop_isolation(false)]
fn read_digits(text: &str, from: usize, to: usize, limit: i64) -> (r: Option<i64>)
    requires
        from <= to <= text@.len(),
        0 <= limit <= 0x8000_0000,
    ensures
        r.is_some() == (all_digits(text@.subrange(from as int, to as int)) && value_of(
            text@.subrange(from as int, to as int),
        ) <= limit),
        r.is_some() ==> r.unwrap() == value_of(text@.subrange(from as int, to as int)),
{
    let ghost part = text@.subrange(from as int, to as int);
    let mut value: i64 = 0;
    let mut i: usize = from;
    assert(part.take(0) =~= Seq::<char>::empty());
    while i < to
        invariant
            from <= i <= to,
            0 <= value <= limit,
            value == value_of(part.take(i - from)),
            forall|j: int| 0 <= j < i - from ==> digit_value(#[trigger] part[j]).is_some(),
        decreases to - i,
    {
        let c = text.get_char(i);
        assert(c == part[i - from]);
        proof {
            assert(part.take(i - from + 1).drop_last() =~= part.take(i - from));
            assert(part.take(i - from + 1).last() == c);
        }
        match read_digit(c) {
            None => {
                return None;
            },
            Some(d) => {
                value = value * 10 + d;
                if value > limit {
                    proof {
                        lemma_value_grows(part, i - from + 1);
                    }
                    return None;
                }
            },
        }
        i += 1;
    }
    assert(part.take(to - from) =~= part);
    Some(value)
}

/// The whole number that the text writes from `from` to `to`.
fn read_number(text: &str, from: usize, to: usize) -> (r: Option<i32>)
    requires
        from <= to <= text@.len(),
    ensures
        r.is_some() == number_of(text@.subrange(from as int, to as int)).is_some(),
        r.is_some() ==> r.unwrap() == number_of(text@.subrange(from as int, to as int)).unwrap(),
{
    let ghost part = text@.subrange(from as int, to as int);
    if from == to {
        return None;
    }
    let sign = text.get_char(from);
    assert(sign == part[0]);
    if sign == '-' || sign == '+' {
        assert(part.drop_first() =~= text@.subrange(from + 1, to as int));
        if from + 1 == to {
            return None;
        }
        if sign == '-' {
            match read_digits(text, from + 1, to, 0x8000_0000) {
                Some(n) => Some((-n) as i32),
                None => None,
            }
        } else {
            match read_digits(text, from + 1, to, 0x7fff_ffff) {
                Some(n) => Some(n as i32),
                None => None,
            }
        }
    } else {
        match read_digits(text, from, to, 0x7fff_ffff) {
            Some(n) => Some(n as i32),
            None => None,
        }
    }
}

/// The class that the word from `from` to `to` of the text stands for.
fn read_class(text: &str, from: usize, to: usize) -> (r: Option<OrderItemType>)
    requires
        from <= to <= text@.len(),
    ensures
        r == class_of(text@.subrange(from as int, to as int)),
{
    let word = text.substring_char(from, to);
    proof {
        reveal_strlit("standard");
        reveal_strlit("small");
        reveal_strlit("box");
    }
    if same_text(word, "standard") {
        Some(OrderItemType::Standard)
    } else if same_text(word, "small") {
        Some(OrderItemType::Small)
    } else if same_text(word, "box") {
        Some(OrderItemType::Box)
    } else {
        None
    }
}

/// Whether two texts are the same.
#[verifier::loop_isolation(false)]
fn same_text(a: &str, b: &str) -> (r: bool)
    ensures
        r == (a@ == b@),
{
    let n: usize = a.unicode_len();
    if n != b.unicode_len() {
        return false;
    }
    let mut i: usize = 0;
    while i < n
        invariant
            i <= n,
            forall|j: int| 0 <= j < i ==> a@[j] == b@[j],
        decreases n - i,
    {
        if a.get_char(i) != b.get_char(i) {
            return false;
        }
        i += 1;
    }
    assert(a@ =~= b@);
    true
}

impl OrderItemId {
    /// Reads an identifier from its written form.
    pub fn parse(text: &str) -> (r: Option<OrderItemId>)
        ensures
            r.is_some() == parsed(text@).is_some(),
            r.is_some() ==> r.unwrap()@ == parsed(text@).unwrap(),
    {
        let n: usize = text.unicode_len();
        let a: usize = find_break(text, n, 0);
        if a >= n {
            return None;
        }
        let b: usize = find_break(text, n, a + 1);
        if b >= n {
            return None;
        }
        let c: usize = find_break(text, n, b + 1);
        let class = match read_class(text, a + 1, b) {
            Some(class) => class,
            None => {
                return None;
            },
        };
        let index = match read_number(text, b + 1, c) {
            Some(index) => index,
            None => {
                return None;
            },
        };
        let order = text.substring_char(0, a);
        Some(OrderItemId { order_id: OrderId(String::from_str(order)), item_type: class, index })
    }
}

/// The digits of a number write that number.
pub proof fn lemma_digits_read(n: nat)
    ensures
        digits(n).len() > 0,
        all_digits(digits(n)),
        value_of(digits(n)) == n,
        forall|i: int| 0 <= i < digits(n).len() ==> (#[trigger] digits(n)[i]) != '_',
    decreases n,
{
    if n < 10 {
        let s = digits(n);
        assert(s =~= seq![digit(n)]);
        assert(s.drop_last() =~= Seq::<char>::empty());
        assert(value_of(s.drop_last()) == 0);
    } else {
        lemma_digits_read(n / 10);
        let s = digits(n);
        let head = digits(n / 10);
        assert(s.drop_last() =~= head);
        assert(s.last() == digit(n % 10));
        assert forall|i: int| 0 <= i < s.len() implies digit_value(#[trigger] s[i]).is_some()
            && s[i] != '_' by {
            if i < head.len() {
                assert(s[i] == head[i]);
            }
        }
    }
}

/// What is written of a number of 32 bits reads as that number.
pub proof fn lemma_decimal_read(n: int)
    requires
        i32::MIN <= n <= i32::MAX,
    ensures
        number_of(decimal(n)) == Some(n),
        forall|i: int| 0 <= i < decimal(n).len() ==> (#[trigger] decimal(n)[i]) != '_',
{
    if n < 0 {
        lemma_digits_read((-n) as nat);
        let s = decimal(n);
        assert(s[0] == '-');
        assert(s.drop_first() =~= digits((-n) as nat));
        assert forall|i: int| 0 <= i < s.len() implies (#[trigger] s[i]) != '_' by {
            if i > 0 {
                assert(s[i] == digits((-n) as nat)[i - 1]);
            }
        }
    } else {
        lemma_digits_read(n as nat);
        let s = decimal(n);
        assert(digit_value(s[0]).is_some());
    }
}

/// An identifier whose order has no `_` in its name is read back from its
/// written form.
pub proof fn law_written_is_read(id: OrderItemIdView)
    requires
        !id.order_id.contains('_'),
        i32::MIN <= id.index <= i32::MAX,
    ensures
        parsed(id.written()) == Some(id),
{
    reveal_strlit("standard");
    reveal_strlit("small");
    reveal_strlit("box");
    let text = id.written();
    let word = id.item_type.word();
    let number = decimal(id.index);
    lemma_decimal_read(id.index);
    let a = id.order_id.len() as int;
    let b = a + 1 + word.len();
    let c = text.len() as int;
    assert(text.len() == b + 1 + number.len());
    assert forall|i: int| 0 <= i < a implies text[i] != '_' by {
        assert(text[i] == id.order_id[i]);
        assert(id.order_id.contains(id.order_id[i]));
    }
    assert(text[a] == '_');
    lemma_first_break_is(text, 0, a);
    assert forall|i: int| a + 1 <= i < b implies text[i] != '_' by {
        assert(text[i] == word[i - a - 1]);
    }
    assert(text[b] == '_');
    lemma_first_break_is(text, a + 1, b);
    assert forall|i: int| b + 1 <= i < c implies text[i] != '_' by {
        assert(text[i] == number[i - b - 1]);
    }
    lemma_first_break_is(text, b + 1, c);
    assert(text.subrange(0, a) =~= id.order_id);
    assert(text.subrange(a + 1, b) =~= word);
    assert(text.subrange(b + 1, c) =~= number);
    assert(class_of(word) == Some(id.item_type));
}

} // verus!
