//! What a finished run amounts to: how late each order was, and how far the
//! vehicles drove.

use crate::model::order::OrderId;
use crate::model::order_item::OrderItemIdView;
use crate::model::table::{Duplicate, MapType};
use crate::simulation::simulator::Simulator;
use crate::simulation::state::OrderItemState;
use vstd::prelude::*;

verus! {

/// The account of a run.
pub struct Summary {
    /// For every order, the seconds by which its last item came after the
    /// deadline; negative where the whole order was early.
    pub order_timeouts: MapType<OrderId, i128>,
    /// The seconds of lateness of all orders together; an early order counts for nothing.
    pub total_timeout: u128,
    /// The distance that all vehicles drove.
    pub total_distance: i64,
}

/// Some item with a state belongs to the order `o`.
pub open spec fn has_items(states: Map<OrderItemIdView, OrderItemState>, o: Seq<char>) -> bool {
    exists|k: OrderItemIdView| #[trigger] states.contains_key(k) && k.order_id == o
}

/// `value` is the lateness of the order `o`: that of the latest of its items.
pub open spec fn is_order_timeout(
    states: Map<OrderItemIdView, OrderItemState>,
    o: Seq<char>,
    value: int,
) -> bool {
    &&& forall|k: OrderItemIdView| #[trigger]
        states.contains_key(k) && k.order_id == o ==> states[k].lateness() <= value
    &&& exists|k: OrderItemIdView| #[trigger]
        states.contains_key(k) && k.order_id == o && states[k].lateness() == value
}

/// The sum of the numbers of the list that are above zero.
pub open spec fn positive_sum(values: Seq<i128>) -> int
    decreases values.len(),
{
    if values.len() == 0 {
        0
    } else {
        positive_sum(values.drop_last()) + if values.last() > 0 {
            values.last() as int
        } else {
            0
        }
    }
}

/// One of the first `n` items belongs to the order `o`.
pub open spec fn counted(keys: Seq<OrderItemIdView>, n: int, o: Seq<char>) -> bool {
    exists|j: int| 0 <= j < n && (#[trigger] keys[j]).order_id == o
}

/// `value` is the largest lateness among the first `n` items that belong to `o`.
pub open spec fn latest(
    keys: Seq<OrderItemIdView>,
    states: Seq<OrderItemState>,
    n: int,
    o: Seq<char>,
    value: int,
) -> bool {
    &&& forall|j: int|
        0 <= j < n && (#[trigger] keys[j]).order_id == o ==> states[j].lateness() <= value
    &&& exists|j: int|
        0 <= j < n && (#[trigger] keys[j]).order_id == o && states[j].lateness() == value
}

impl Simulator {
    /// For every order of which an item has a state, the lateness of the
    /// latest of its items.
    #[verifier::loop_isolation(false)]
    pub fn order_timeouts(&self) -> (timeouts: MapType<OrderId, i128>)
        ensures
            forall|o: Seq<char>|
                #[trigger] timeouts@.contains_key(o) <==> has_items(self@.order_item_states, o),
            forall|o: Seq<char>| #[trigger]
                timeouts@.contains_key(o) ==> is_order_timeout(
                    self@.order_item_states,
                    o,
                    timeouts@[o] as int,
                ),
            forall|o: Seq<char>| #[trigger]
                timeouts@.contains_key(o) ==> i64::MIN - i64::MAX <= timeouts@[o] <= i64::MAX
                    - i64::MIN,
    {
        let n: usize = self.order_item_states.len();
        proof {
            self.order_item_states.lemma_wf();
        }
        let ghost keys = self.order_item_states.keys();
        let ghost values = self.order_item_states.values();
        let ghost states = self@.order_item_states;
        let mut timeouts: MapType<OrderId, i128> = MapType::new();
        let mut i: usize = 0;
        while i < n
            invariant
                i <= n,
                forall|o: Seq<char>| #[trigger] timeouts@.contains_key(o) <==> counted(keys, i as int, o),
                forall|o: Seq<char>| #[trigger]
                    timeouts@.contains_key(o) ==> latest(keys, values, i as int, o, timeouts@[o] as int),
            decreases n - i,
        {
            let id = self.order_item_states.key_at(i);
            let late: i128 = self.order_item_states.value_at(i).timeout();
            let ghost here = keys[i as int].order_id;
            let ghost was = timeouts@;
            match timeouts.position(&id.order_id) {
                Some(p) => {
                    let slot = timeouts.value_mut_at(p);
                    if late > *slot {
                        *slot = late;
                    }
                },
                None => {
                    timeouts.insert(id.order_id.duplicate(), late);
                },
            }
            proof {
                assert forall|o: Seq<char>| #[trigger] timeouts@.contains_key(o) <==> counted(
                    keys,
                    i + 1,
                    o,
                ) by {
                    if counted(keys, i as int, o) {
                        let j = choose|j: int| 0 <= j < i && (#[trigger] keys[j]).order_id == o;
                        assert(0 <= j < i + 1 && keys[j].order_id == o);
                    }
                    if counted(keys, i + 1, o) && o != here {
                        let j = choose|j: int| 0 <= j < i + 1 && (#[trigger] keys[j]).order_id == o;
                        assert(counted(keys, i as int, o));
                    }
                    if o == here {
                        assert(keys[i as int].order_id == o);
                    }
                }
                assert forall|o: Seq<char>| #[trigger] timeouts@.contains_key(o) implies latest(
                    keys,
                    values,
                    i + 1,
                    o,
                    timeouts@[o] as int,
                ) by {
                    if o != here {
                        assert(was.contains_key(o) && was[o] == timeouts@[o]);
                        let j = choose|j: int|
                            0 <= j < i && (#[trigger] keys[j]).order_id == o
                                && values[j].lateness() == was[o];
                        assert(0 <= j < i + 1 && keys[j].order_id == o && values[j].lateness()
                            == timeouts@[o]);
                    } else if was.contains_key(o) {
                        if late > was[o] {
                            assert(keys[i as int].order_id == o && values[i as int].lateness()
                                == timeouts@[o]);
                        } else {
                            let j = choose|j: int|
                                0 <= j < i && (#[trigger] keys[j]).order_id == o
                                    && values[j].lateness() == was[o];
                            assert(0 <= j < i + 1 && keys[j].order_id == o
                                && values[j].lateness() == timeouts@[o]);
                        }
                    } else {
                        assert(!counted(keys, i as int, o));
                        assert(keys[i as int].order_id == o && values[i as int].lateness()
                            == timeouts@[o]);
                    }
                }
            }
            i += 1;
        }
        proof {
            assert forall|o: Seq<char>| #[trigger] timeouts@.contains_key(o) <==> has_items(
                states,
                o,
            ) by {
                if counted(keys, n as int, o) {
                    let j = choose|j: int| 0 <= j < n && (#[trigger] keys[j]).order_id == o;
                    assert(states.contains_key(keys[j]));
                }
                if has_items(states, o) {
                    let k = choose|k: OrderItemIdView| #[trigger]
                        states.contains_key(k) && k.order_id == o;
                    let j = keys.index_of(k);
                    assert(keys[j] == k);
                    assert(counted(keys, n as int, o));
                }
            }
            assert forall|o: Seq<char>| #[trigger] timeouts@.contains_key(o) implies is_order_timeout(
                states,
                o,
                timeouts@[o] as int,
            ) && i64::MIN - i64::MAX <= timeouts@[o] <= i64::MAX - i64::MIN by {
                let value = timeouts@[o] as int;
                assert(latest(keys, values, n as int, o, value));
                assert forall|k: OrderItemIdView| #[trigger]
                    states.contains_key(k) && k.order_id == o implies states[k].lateness()
                    <= value by {
                    let j = keys.index_of(k);
                    assert(keys[j] == k);
                    assert(states[k] == values[j]);
                }
                let j = choose|j: int|
                    0 <= j < n && (#[trigger] keys[j]).order_id == o && values[j].lateness()
                        == value;
                assert(states.contains_key(keys[j]) && states[keys[j]] == values[j]);
            }
        }
        timeouts
    }

    /// The account of the run so far.
    #[verifier::loop_isolation(false)]
    pub fn summary(&self) -> (r: Summary)
        ensures
            forall|o: Seq<char>|
                #[trigger] r.order_timeouts@.contains_key(o) <==> has_items(
                    self@.order_item_states,
                    o,
                ),
            forall|o: Seq<char>| #[trigger]
                r.order_timeouts@.contains_key(o) ==> is_order_timeout(
                    self@.order_item_states,
                    o,
                    r.order_timeouts@[o] as int,
                ),
            r.total_timeout == positive_sum(r.order_timeouts.values()),
            r.total_distance == self@.total_distance,
    {
        let order_timeouts = self.order_timeouts();
        let n: usize = order_timeouts.len();
        proof {
            order_timeouts.lemma_wf();
        }
        let ghost values = order_timeouts.values();
        let mut total: u128 = 0;
        let mut i: usize = 0;
        while i < n
            invariant
                i <= n,
                total == positive_sum(values.take(i as int)),
                total <= 0xFFFF_FFFF_FFFF_FFFF * i,
            decreases n - i,
        {
            proof {
                assert(values.take(i + 1).drop_last() =~= values.take(i as int));
                assert(values.take(i + 1).last() == values[i as int]);
                assert(order_timeouts@.contains_key(order_timeouts.keys()[i as int]));
                assert(0xFFFF_FFFF_FFFF_FFFF * (i + 1) <= 0xFFFF_FFFF_FFFF_FFFF
                    * 0xFFFF_FFFF_FFFF_FFFF) by (nonlinear_arith)
                    requires
                        i + 1 <= 0xFFFF_FFFF_FFFF_FFFF,
                ;
            }
            let late: i128 = *order_timeouts.value_at(i);
            if late > 0 {
                total = total + late as u128;
            }
            i += 1;
        }
        assert(values.take(n as int) =~= values);
        Summary { order_timeouts, total_timeout: total, total_distance: self.total_distance }
    }
}

} // verus!
