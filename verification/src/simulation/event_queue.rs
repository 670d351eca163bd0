//! A queue of events in the order of their times; events of one time leave in
//! the order in which they came.

use crate::model::table::Duplicate;
use std::collections::VecDeque;
use vstd::prelude::*;

verus! {

/// Something that happens at an instant, given in seconds.
pub trait Event: DeepView + Sized {
    spec fn instant(model: Self::V) -> int;

    fn time(&self) -> (t: i64)
        ensures
            t == Self::instant(self.deep_view()),
    ;
}

/// No event of the sequence is earlier than one before it.
pub open spec fn chronological<E: Event>(s: Seq<E::V>) -> bool {
    forall|i: int, j: int|
        0 <= i < j < s.len() ==> E::instant(#[trigger] s[i]) <= E::instant(#[trigger] s[j])
}

/// The place at which an event of time `t` enters the sequence: behind every
/// event that is not later than `t`.
pub open spec fn slot<E: Event>(s: Seq<E::V>, t: int) -> int
    decreases s.len(),
{
    if s.len() == 0 || E::instant(s[0]) > t {
        0
    } else {
        1 + slot::<E>(s.drop_first(), t)
    }
}

/// The sequence after an event has entered it.
pub open spec fn enqueue<E: Event>(s: Seq<E::V>, e: E::V) -> Seq<E::V> {
    s.insert(slot::<E>(s, E::instant(e)), e)
}

pub proof fn lemma_slot<E: Event>(s: Seq<E::V>, t: int, i: int)
    requires
        0 <= i <= s.len(),
        forall|j: int| 0 <= j < i ==> E::instant(#[trigger] s[j]) <= t,
        i < s.len() ==> E::instant(s[i]) > t,
    ensures
        slot::<E>(s, t) == i,
    decreases i,
{
    if i > 0 {
        assert(E::instant(s[0]) <= t);
        let r = s.drop_first();
        assert forall|j: int| 0 <= j < i - 1 implies E::instant(#[trigger] r[j]) <= t by {
            assert(r[j] == s[j + 1]);
        }
        lemma_slot::<E>(r, t, i - 1);
    }
}

/// The place of a new event lies within the sequence, behind the events that
/// are not later and before those that are.
pub proof fn lemma_slot_bounds<E: Event>(s: Seq<E::V>, t: int)
    requires
        chronological::<E>(s),
    ensures
        0 <= slot::<E>(s, t) <= s.len(),
        forall|j: int| 0 <= j < slot::<E>(s, t) ==> E::instant(#[trigger] s[j]) <= t,
        forall|j: int| slot::<E>(s, t) <= j < s.len() ==> E::instant(#[trigger] s[j]) > t,
    decreases s.len(),
{
    if s.len() == 0 || E::instant(s[0]) > t {
        assert forall|j: int| 0 <= j < s.len() implies E::instant(#[trigger] s[j]) > t by {
            if j > 0 {
                assert(E::instant(s[0]) <= E::instant(s[j]));
            }
        }
    } else {
        let r = s.drop_first();
        assert(chronological::<E>(r)) by {
            assert forall|i: int, j: int| 0 <= i < j < r.len() implies E::instant(#[trigger] r[i])
                <= E::instant(#[trigger] r[j]) by {
                assert(r[i] == s[i + 1] && r[j] == s[j + 1]);
            }
        }
        lemma_slot_bounds::<E>(r, t);
        let k = slot::<E>(r, t);
        assert forall|j: int| 0 <= j < k + 1 implies E::instant(#[trigger] s[j]) <= t by {
            if j > 0 {
                assert(s[j] == r[j - 1]);
            }
        }
        assert forall|j: int| k + 1 <= j < s.len() implies E::instant(#[trigger] s[j]) > t by {
            assert(s[j] == r[j - 1]);
        }
    }
}

/// Entering keeps the sequence in the order of time.
pub proof fn lemma_enqueue_chronological<E: Event>(s: Seq<E::V>, e: E::V)
    requires
        chronological::<E>(s),
    ensures
        chronological::<E>(enqueue::<E>(s, e)),
        enqueue::<E>(s, e).len() == s.len() + 1,
{
    let t = E::instant(e);
    lemma_slot_bounds::<E>(s, t);
    let k = slot::<E>(s, t);
    let r = enqueue::<E>(s, e);
    assert forall|i: int, j: int| 0 <= i < j < r.len() implies E::instant(#[trigger] r[i])
        <= E::instant(#[trigger] r[j]) by {
        if i == k {
            assert(r[j] == s[j - 1]);
        } else if j == k {
            assert(r[i] == s[i]);
        } else {
            let i0 = if i < k { i } else { i - 1 };
            let j0 = if j < k { j } else { j - 1 };
            assert(r[i] == s[i0] && r[j] == s[j0]);
        }
    }
}

/// The queue of pending events.
pub struct EventQueue<E: Event> {
    events: VecDeque<E>,
}

impl<E: Event> View for EventQueue<E> {
    type V = Seq<E::V>;

    /// The pending events, the next one first.
    closed spec fn view(&self) -> Seq<E::V> {
        self.events.deep_view()
    }
}

impl<E: Event> DeepView for EventQueue<E> {
    type V = Seq<E::V>;

    open spec fn deep_view(&self) -> Seq<E::V> {
        self@
    }
}

impl<E: Event> EventQueue<E> {
    #[verifier::type_invariant]
    pub closed spec fn wf(&self) -> bool {
        chronological::<E>(self.events.deep_view())
    }

    pub proof fn lemma_wf(&self)
        requires
            self.wf(),
        ensures
            chronological::<E>(self@),
    {
    }

    pub fn new() -> (q: EventQueue<E>)
        ensures
            q@ == Seq::<E::V>::empty(),
            q.wf(),
    {
        let events: VecDeque<E> = VecDeque::new();
        assert(events.deep_view() =~= Seq::<E::V>::empty());
        EventQueue { events }
    }

    /// The number of pending events.
    pub fn len(&self) -> (n: usize)
        ensures
            n == self@.len(),
            self.wf(),
    {
        proof {
            use_type_invariant(self);
        }
        self.events.len()
    }

    /// Adds an event behind the pending events that are not later than it.
    #[verifier::loop_isolation(false)]
    pub fn push(&mut self, event: E)
        ensures
            final(self)@ == enqueue::<E>(old(self)@, event.deep_view()),
            final(self).wf(),
    {
        proof {
            use_type_invariant(&*self);
        }
        let ghost s = self@;
        let t: i64 = event.time();
        let mut taken = EventQueue { events: VecDeque::new() };
        assert(taken.events.deep_view() =~= Seq::<E::V>::empty());
        core::mem::swap(self, &mut taken);
        let EventQueue { events } = taken;
        let mut events = events;
        let mut i: usize = events.len();
        while i > 0 && events[i - 1].time() > t
            invariant
                i <= events.len(),
                events.deep_view() == s,
                forall|j: int| i <= j < s.len() ==> E::instant(#[trigger] s[j]) > t,
            decreases i,
        {
            i -= 1;
        }
        proof {
            assert forall|j: int| 0 <= j < i implies E::instant(#[trigger] s[j]) <= t by {
                if j < i - 1 {
                    assert(E::instant(s[j]) <= E::instant(s[i - 1]));
                }
            }
            lemma_slot::<E>(s, t as int, i as int);
            lemma_enqueue_chronological::<E>(s, event.deep_view());
        }
        events.insert(i, event);
        assert(events.deep_view() =~= enqueue::<E>(s, event.deep_view()));
        *self = EventQueue { events };
    }

    /// Takes the next event: the earliest, and of the earliest the one that came first.
    pub fn pop(&mut self) -> (r: Option<E>)
        ensures
            final(self).wf(),
            old(self)@.len() == 0 ==> r.is_none() && final(self)@ == old(self)@,
            old(self)@.len() > 0 ==> r.is_some() && r.unwrap().deep_view() == old(self)@[0]
                && final(self)@ == old(self)@.drop_first(),
            r.is_some() ==> forall|j: int|
                0 <= j < final(self)@.len() ==> E::instant(r.unwrap().deep_view()) <= E::instant(
                    #[trigger] final(self)@[j],
                ),
    {
        proof {
            use_type_invariant(&*self);
        }
        let ghost s = self@;
        let mut taken = EventQueue { events: VecDeque::new() };
        assert(taken.events.deep_view() =~= Seq::<E::V>::empty());
        core::mem::swap(self, &mut taken);
        let EventQueue { events } = taken;
        let mut events = events;
        let r = events.pop_front();
        proof {
            if s.len() > 0 {
                assert(events.deep_view() =~= s.drop_first());
                assert forall|j: int| 0 <= j < s.len() - 1 implies E::instant(s[0]) <= E::instant(
                    #[trigger] s.drop_first()[j],
                ) by {
                    assert(s.drop_first()[j] == s[j + 1]);
                }
                assert(chronological::<E>(s.drop_first())) by {
                    assert forall|i: int, j: int| 0 <= i < j < s.len() - 1 implies E::instant(
                        #[trigger] s.drop_first()[i],
                    ) <= E::instant(#[trigger] s.drop_first()[j]) by {
                        assert(s.drop_first()[i] == s[i + 1] && s.drop_first()[j] == s[j + 1]);
                    }
                }
            } else {
                assert(events.deep_view() =~= s);
            }
        }
        *self = EventQueue { events };
        r
    }

    /// The next event, left in the queue.
    pub fn peek(&self) -> (r: Option<&E>)
        ensures
            self@.len() == 0 ==> r.is_none(),
            self@.len() > 0 ==> r.is_some() && r.unwrap().deep_view() == self@[0],
    {
        if self.events.len() == 0 {
            None
        } else {
            Some(&self.events[0])
        }
    }
}

impl<E: Event + Duplicate> Duplicate for EventQueue<E> {
    #[verifier::loop_isolation(false)]
    fn duplicate(&self) -> (r: Self) {
        proof {
            use_type_invariant(self);
        }
        let mut events: VecDeque<E> = VecDeque::new();
        let mut i: usize = 0;
        while i < self.events.len()
            invariant
                i <= self.events.len(),
                events@.len() == i,
                forall|j: int| 0 <= j < i ==> events@[j].deep_view() == self.events@[j].deep_view(),
            decreases self.events.len() - i,
        {
            events.push_back(self.events[i].duplicate());
            i += 1;
        }
        assert(events.deep_view() =~= self.events.deep_view());
        EventQueue { events }
    }
}

} // verus!
