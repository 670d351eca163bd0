//! An ordered map: keys are kept in strictly increasing order, each key once.

use vstd::prelude::*;

verus! {

/// A value that can be copied so that the copy has the same model.
pub trait Duplicate: DeepView + Sized {
    fn duplicate(&self) -> (r: Self)
        ensures
            r.deep_view() == self.deep_view(),
    ;
}

/// A key of an ordered map: a strict total order on its model, and the
/// executable tests that decide it.
pub trait Key: Duplicate {
    spec fn precedes(a: Self::V, b: Self::V) -> bool;

    proof fn order_laws(a: Self::V, b: Self::V, c: Self::V)
        ensures
            !Self::precedes(a, a),
            Self::precedes(a, b) && Self::precedes(b, c) ==> Self::precedes(a, c),
            a == b || Self::precedes(a, b) || Self::precedes(b, a),
    ;

    fn same(&self, other: &Self) -> (r: bool)
        ensures
            r == (self.deep_view() == other.deep_view()),
    ;

    fn before(&self, other: &Self) -> (r: bool)
        ensures
            r == Self::precedes(self.deep_view(), other.deep_view()),
    ;
}

/// The keys of `s` are strictly increasing.
pub open spec fn increasing<K: Key>(s: Seq<K::V>) -> bool {
    forall|i: int, j: int| 0 <= i < j < s.len() ==> K::precedes(#[trigger] s[i], #[trigger] s[j])
}

/// The map that pairs `keys[i]` with `values[i]`.
pub open spec fn assoc<A, B>(keys: Seq<A>, values: Seq<B>) -> Map<A, B> {
    Map::new(|k: A| keys.contains(k), |k: A| values[keys.index_of(k)])
}

pub proof fn lemma_increasing_distinct<K: Key>(s: Seq<K::V>)
    requires
        increasing::<K>(s),
    ensures
        s.no_duplicates(),
{
    assert forall|i: int, j: int| 0 <= i < s.len() && 0 <= j < s.len() && i != j implies s[i]
        != s[j] by {
        K::order_laws(s[i], s[j], s[i]);
        if i < j {
            assert(K::precedes(s[i], s[j]));
        } else {
            assert(K::precedes(s[j], s[i]));
        }
    }
}

/// Two increasing sequences that hold the same keys are the same sequence.
pub proof fn lemma_increasing_unique<K: Key>(a: Seq<K::V>, b: Seq<K::V>)
    requires
        increasing::<K>(a),
        increasing::<K>(b),
        forall|x: K::V| a.contains(x) <==> b.contains(x),
    ensures
        a == b,
    decreases a.len(),
{
    if a.len() == 0 {
        if b.len() > 0 {
            assert(b.contains(b[0]));
        }
        assert(a =~= b);
    } else {
        let la = a.last();
        assert(a.contains(la));
        assert(b.contains(la));
        let lb = b.last();
        assert(b.contains(lb));
        assert(a.contains(lb));
        let i = choose|i: int| 0 <= i < b.len() && b[i] == la;
        let j = choose|j: int| 0 <= j < a.len() && a[j] == lb;
        K::order_laws(la, lb, la);
        if i < b.len() - 1 {
            assert(K::precedes(b[i], b[b.len() - 1]));
        }
        if j < a.len() - 1 {
            assert(K::precedes(a[j], a[a.len() - 1]));
        }
        assert(la == lb);
        let a0 = a.drop_last();
        let b0 = b.drop_last();
        assert forall|x: K::V| a0.contains(x) <==> b0.contains(x) by {
            if a0.contains(x) {
                let m = choose|m: int| 0 <= m < a0.len() && a0[m] == x;
                assert(a[m] == x);
                assert(K::precedes(a[m], a[a.len() - 1]));
                K::order_laws(x, la, la);
                assert(a.contains(x));
                let q = choose|q: int| 0 <= q < b.len() && b[q] == x;
                assert(b0[q] == x);
            }
            if b0.contains(x) {
                let m = choose|m: int| 0 <= m < b0.len() && b0[m] == x;
                assert(b[m] == x);
                assert(K::precedes(b[m], b[b.len() - 1]));
                K::order_laws(x, lb, lb);
                assert(b.contains(x));
                let q = choose|q: int| 0 <= q < a.len() && a[q] == x;
                assert(a0[q] == x);
            }
        }
        assert(increasing::<K>(a0)) by {
            assert forall|p: int, q: int| 0 <= p < q < a0.len() implies K::precedes(
                #[trigger] a0[p],
                #[trigger] a0[q],
            ) by {
                assert(a0[p] == a[p] && a0[q] == a[q]);
            }
        }
        assert(increasing::<K>(b0)) by {
            assert forall|p: int, q: int| 0 <= p < q < b0.len() implies K::precedes(
                #[trigger] b0[p],
                #[trigger] b0[q],
            ) by {
                assert(b0[p] == b[p] && b0[q] == b[q]);
            }
        }
        lemma_increasing_unique::<K>(a0, b0);
        assert(a =~= a0.push(la));
        assert(b =~= b0.push(lb));
    }
}

/// The keys of a map in increasing order.
pub open spec fn keys_in_order<K: Key, B>(m: Map<K::V, B>) -> Seq<K::V> {
    choose|keys: Seq<K::V>|
        increasing::<K>(keys) && forall|x: K::V| keys.contains(x) <==> m.contains_key(x)
}

/// What stands in a map, in the increasing order of the keys.
pub open spec fn values_in_order<K: Key, B>(m: Map<K::V, B>) -> Seq<B> {
    Seq::new(keys_in_order::<K, B>(m).len(), |i: int| m[keys_in_order::<K, B>(m)[i]])
}

pub proof fn lemma_assoc<A, B>(keys: Seq<A>, values: Seq<B>)
    requires
        keys.no_duplicates(),
        keys.len() == values.len(),
    ensures
        forall|i: int|
            0 <= i < keys.len() ==> assoc(keys, values).contains_key(#[trigger] keys[i]) && assoc(
                keys,
                values,
            )[keys[i]] == values[i],
        forall|k: A| assoc(keys, values).contains_key(k) <==> keys.contains(k),
{
    assert forall|i: int| 0 <= i < keys.len() implies assoc(keys, values).contains_key(
        #[trigger] keys[i],
    ) && assoc(keys, values)[keys[i]] == values[i] by {
        assert(keys.contains(keys[i]));
        let j = keys.index_of(keys[i]);
        assert(keys[j] == keys[i]);
    }
}

/// Replacing the value at one position of the sequences replaces it under that key.
pub proof fn lemma_assoc_update<A, B>(keys: Seq<A>, values: Seq<B>, i: int, w: B)
    requires
        keys.no_duplicates(),
        keys.len() == values.len(),
        0 <= i < keys.len(),
    ensures
        assoc(keys, values.update(i, w)) == assoc(keys, values).insert(keys[i], w),
{
    lemma_assoc(keys, values);
    lemma_assoc(keys, values.update(i, w));
    assert forall|k: A| keys.contains(k) implies #[trigger] assoc(keys, values.update(i, w))[k] == assoc(
        keys,
        values,
    ).insert(keys[i], w)[k] by {
        let j = keys.index_of(k);
        assert(keys[j] == k);
    }
    assert(assoc(keys, values.update(i, w)) =~= assoc(keys, values).insert(keys[i], w));
}

/// Copies a vector element by element.
pub fn duplicate_vec<T: Duplicate>(v: &Vec<T>) -> (r: Vec<T>)
    ensures
        r.deep_view() == v.deep_view(),
{
    let mut r: Vec<T> = Vec::new();
    let mut i: usize = 0;
    while i < v.len()
        invariant
            i <= v.len(),
            r@.len() == i,
            forall|j: int| 0 <= j < i ==> r@[j].deep_view() == v@[j].deep_view(),
        decreases v.len() - i,
    {
        r.push(v[i].duplicate());
        i += 1;
    }
    assert(r.deep_view() =~= v.deep_view());
    r
}

impl<T: Duplicate> Duplicate for Vec<T> {
    fn duplicate(&self) -> (r: Self) {
        duplicate_vec(self)
    }
}

/// An ordered map from `K` to `V`.
pub struct MapType<K: Key, V: DeepView> {
    keys: Vec<K>,
    values: Vec<V>,
}

impl<K: Key, V: DeepView> View for MapType<K, V> {
    type V = Map<K::V, V::V>;

    open spec fn view(&self) -> Map<K::V, V::V> {
        assoc(self.keys(), self.values())
    }
}

impl<K: Key, V: DeepView> DeepView for MapType<K, V> {
    type V = Map<K::V, V::V>;

    open spec fn deep_view(&self) -> Map<K::V, V::V> {
        self@
    }
}

impl<K: Key, V: DeepView> MapType<K, V> {
    /// The keys in increasing order.
    pub closed spec fn keys(&self) -> Seq<K::V> {
        self.keys.deep_view()
    }

    /// The values, in the order of their keys.
    pub closed spec fn values(&self) -> Seq<V::V> {
        self.values.deep_view()
    }

    #[verifier::type_invariant]
    pub closed spec fn wf(&self) -> bool {
        &&& self.keys@.len() == self.values@.len()
        &&& increasing::<K>(self.keys.deep_view())
    }

    /// What well-formedness means for the two sequences and the map they stand for.
    pub proof fn lemma_wf(&self)
        requires
            self.wf(),
        ensures
            self.keys().len() == self.values().len(),
            increasing::<K>(self.keys()),
            self.keys().no_duplicates(),
            forall|i: int|
                0 <= i < self.keys().len() ==> self@.contains_key(#[trigger] self.keys()[i])
                    && self@[self.keys()[i]] == self.values()[i],
            forall|k: K::V| self@.contains_key(k) <==> self.keys().contains(k),
    {
        lemma_increasing_distinct::<K>(self.keys());
        lemma_assoc(self.keys(), self.values());
    }

    /// The two sequences of a map are its keys and what stands under them,
    /// in the increasing order of the keys.
    pub proof fn lemma_in_order(&self)
        requires
            self.wf(),
        ensures
            keys_in_order::<K, V::V>(self@) == self.keys(),
            values_in_order::<K, V::V>(self@) == self.values(),
    {
        self.lemma_wf();
        let keys = self.keys();
        assert(increasing::<K>(keys) && forall|x: K::V| keys.contains(x) <==> self@.contains_key(x));
        let chosen = keys_in_order::<K, V::V>(self@);
        lemma_increasing_unique::<K>(chosen, keys);
        assert(values_in_order::<K, V::V>(self@) =~= self.values());
    }

    pub fn new() -> (r: Self)
        ensures
            r.wf(),
            r.keys() == Seq::<K::V>::empty(),
            r.values() == Seq::<V::V>::empty(),
            r@ == Map::<K::V, V::V>::empty(),
    {
        let r = MapType { keys: Vec::new(), values: Vec::new() };
        assert(r.keys() =~= Seq::<K::V>::empty());
        assert(r.values() =~= Seq::<V::V>::empty());
        assert(r@ =~= Map::<K::V, V::V>::empty());
        r
    }

    pub fn len(&self) -> (n: usize)
        ensures
            self.wf(),
            n == self.keys().len(),
            n == self.values().len(),
    {
        proof {
            use_type_invariant(self);
        }
        self.keys.len()
    }

    /// The number of keys that precede `k`, found by halving.
    #[verifier::loop_isolation(false)]
    fn lower_bound(&self, k: &K) -> (i: usize)
        ensures
            self.wf(),
            i <= self.keys().len(),
            forall|j: int| 0 <= j < i ==> K::precedes(#[trigger] self.keys()[j], k.deep_view()),
            forall|j: int|
                i <= j < self.keys().len() ==> !K::precedes(
                    #[trigger] self.keys()[j],
                    k.deep_view(),
                ),
    {
        proof {
            use_type_invariant(self);
            self.lemma_wf();
        }
        let ghost ks = self.keys();
        let ghost kv = k.deep_view();
        let mut lo: usize = 0;
        let mut hi: usize = self.keys.len();
        while lo < hi
            invariant
                lo <= hi <= self.keys.len(),
                forall|j: int| 0 <= j < lo ==> K::precedes(#[trigger] ks[j], kv),
                forall|j: int| hi <= j < ks.len() ==> !K::precedes(#[trigger] ks[j], kv),
            decreases hi - lo,
        {
            let mid: usize = lo + (hi - lo) / 2;
            if self.keys[mid].before(k) {
                proof {
                    assert forall|j: int| 0 <= j < mid + 1 implies K::precedes(
                        #[trigger] ks[j],
                        kv,
                    ) by {
                        if j < mid {
                            assert(K::precedes(ks[j], ks[mid as int]));
                            K::order_laws(ks[j], ks[mid as int], kv);
                        }
                    }
                }
                lo = mid + 1;
            } else {
                proof {
                    assert forall|j: int| mid <= j < ks.len() implies !K::precedes(
                        #[trigger] ks[j],
                        kv,
                    ) by {
                        if j > mid {
                            assert(K::precedes(ks[mid as int], ks[j]));
                            K::order_laws(ks[mid as int], ks[j], kv);
                        }
                    }
                }
                hi = mid;
            }
        }
        lo
    }

    /// The index of `k` among the keys.
    pub fn position(&self, k: &K) -> (r: Option<usize>)
        ensures
            self.wf(),
            match r {
                Some(i) => i < self.keys().len() && i < self.values().len() && self.keys()[i as int]
                    == k.deep_view() && self@.contains_key(k.deep_view()) && self@[k.deep_view()]
                    == self.values()[i as int],
                None => !self@.contains_key(k.deep_view()),
            },
    {
        let i: usize = self.lower_bound(k);
        proof {
            self.lemma_wf();
        }
        if i < self.keys.len() && self.keys[i].same(k) {
            assert(self.keys()[i as int] == k.deep_view());
            Some(i)
        } else {
            proof {
                let ks = self.keys();
                let kv = k.deep_view();
                assert forall|j: int| 0 <= j < ks.len() implies ks[j] != kv by {
                    K::order_laws(ks[j], kv, kv);
                    if j >= i {
                        // the key at `i` is neither before `k` nor `k` itself, so it is
                        // behind `k`, and so is every later key
                        K::order_laws(ks[i as int], kv, kv);
                        if j > i {
                            assert(K::precedes(ks[i as int], ks[j]));
                            K::order_laws(kv, ks[i as int], ks[j]);
                            K::order_laws(kv, ks[j], kv);
                        }
                    }
                }
            }
            None
        }
    }

    pub fn key_at(&self, i: usize) -> (r: &K)
        requires
            i < self.keys().len(),
        ensures
            r.deep_view() == self.keys()[i as int],
    {
        &self.keys[i]
    }

    pub fn value_at(&self, i: usize) -> (r: &V)
        requires
            i < self.values().len(),
        ensures
            r.deep_view() == self.values()[i as int],
    {
        &self.values[i]
    }

    pub fn value_mut_at(&mut self, i: usize) -> (r: &mut V)
        requires
            i < old(self).values().len(),
        ensures
            r.deep_view() == old(self).values()[i as int],
            final(self).keys() == old(self).keys(),
            final(self).values() == old(self).values().update(i as int, final(r).deep_view()),
            final(self)@ == old(self)@.insert(old(self).keys()[i as int], final(r).deep_view()),
    {
        proof {
            use_type_invariant(&*self);
            self.lemma_wf();
            let ks = self.keys();
            let vs = self.values();
            assert forall|w: V::V| #[trigger]
                assoc(ks, vs.update(i as int, w)) == assoc(ks, vs).insert(ks[i as int], w) by {
                lemma_assoc_update(ks, vs, i as int, w);
            }
        }
        &mut self.values[i]
    }

    pub fn contains_key(&self, k: &K) -> (r: bool)
        ensures
            r == self@.contains_key(k.deep_view()),
    {
        self.position(k).is_some()
    }

    pub fn get(&self, k: &K) -> (r: Option<&V>)
        ensures
            match r {
                Some(v) => self@.contains_key(k.deep_view()) && v.deep_view() == self@[k.deep_view()],
                None => !self@.contains_key(k.deep_view()),
            },
    {
        match self.position(k) {
            Some(i) => {
                proof {
                    self.lemma_wf();
                }
                Some(&self.values[i])
            },
            None => None,
        }
    }

    /// The value under a key that is known to be present.
    pub fn gets(&self, k: &K) -> (v: &V)
        requires
            self@.contains_key(k.deep_view()),
        ensures
            v.deep_view() == self@[k.deep_view()],
    {
        match self.position(k) {
            Some(i) => {
                proof {
                    self.lemma_wf();
                }
                &self.values[i]
            },
            None => {
                proof {
                    assert(false);
                }
                &self.values[0]
            },
        }
    }

    /// The value under a key that is known to be present, to be changed in place.
    pub fn gets_mut(&mut self, k: &K) -> (v: &mut V)
        requires
            old(self)@.contains_key(k.deep_view()),
        ensures
            v.deep_view() == old(self)@[k.deep_view()],
            final(self)@ == old(self)@.insert(k.deep_view(), final(v).deep_view()),
            final(self).keys() == old(self).keys(),
    {
        let p: usize = match self.position(k) {
            Some(p) => p,
            None => {
                proof {
                    assert(false);
                }
                0
            },
        };
        self.value_mut_at(p)
    }

    /// Puts `v` under `k`, in place of what was there.
    pub fn insert(&mut self, k: K, v: V)
        ensures
            final(self).wf(),
            final(self)@ == old(self)@.insert(k.deep_view(), v.deep_view()),
    {
        proof {
            use_type_invariant(&*self);
            self.lemma_wf();
        }
        let ghost ks = self.keys();
        let ghost vs = self.values();
        let ghost kv = k.deep_view();
        let ghost vv = v.deep_view();
        let i: usize = self.lower_bound(&k);
        if i < self.keys.len() && self.keys[i].same(&k) {
            self.values[i] = v;
            proof {
                assert(self.values.deep_view() =~= vs.update(i as int, vv));
                lemma_assoc_update(ks, vs, i as int, vv);
            }
        } else {
            let mut taken = MapType { keys: Vec::new(), values: Vec::new() };
            core::mem::swap(self, &mut taken);
            let MapType { keys, values } = taken;
            let mut keys = keys;
            let mut values = values;
            keys.insert(i, k);
            values.insert(i, v);
            proof {
                let ks2 = ks.insert(i as int, kv);
                let vs2 = vs.insert(i as int, vv);
                assert(keys.deep_view() =~= ks2);
                assert(values.deep_view() =~= vs2);
                assert forall|a: int, b: int| 0 <= a < b < ks2.len() implies K::precedes(
                    #[trigger] ks2[a],
                    #[trigger] ks2[b],
                ) by {
                    if a == i {
                        // ks2[b] is ks[b - 1], at or after the first key that does not precede `k`
                        K::order_laws(kv, ks[i as int], ks[b - 1]);
                        K::order_laws(ks[i as int], kv, kv);
                        if b - 1 > i {
                            assert(K::precedes(ks[i as int], ks[b - 1]));
                        }
                    } else if b == i {
                        assert(ks2[a] == ks[a]);
                    } else {
                        let a0 = if a < i { a } else { a - 1 };
                        let b0 = if b < i { b } else { b - 1 };
                        assert(ks2[a] == ks[a0] && ks2[b] == ks[b0]);
                        assert(K::precedes(ks[a0], ks[b0]));
                    }
                }
                lemma_increasing_distinct::<K>(ks2);
                lemma_assoc(ks2, vs2);
                assert forall|x: K::V| #[trigger] ks2.contains(x) <==> (x == kv || ks.contains(
                    x,
                )) by {
                    if ks2.contains(x) {
                        let a = choose|a: int| 0 <= a < ks2.len() && ks2[a] == x;
                        if a != i {
                            let a0 = if a < i { a } else { a - 1 };
                            assert(ks[a0] == x);
                        }
                    }
                    if ks.contains(x) {
                        let a = choose|a: int| 0 <= a < ks.len() && ks[a] == x;
                        let a2 = if a < i { a } else { a + 1 };
                        assert(ks2[a2] == x);
                    }
                    if x == kv {
                        assert(ks2[i as int] == x);
                    }
                }
                assert forall|x: K::V| ks.contains(x) && x != kv implies assoc(ks2, vs2)[x]
                    == assoc(ks, vs)[x] by {
                    let a = choose|a: int| 0 <= a < ks.len() && ks[a] == x;
                    let a2 = if a < i { a } else { a + 1 };
                    assert(ks2[a2] == x && vs2[a2] == vs[a]);
                }
                assert(ks2[i as int] == kv && vs2[i as int] == vv);
                assert(assoc(ks2, vs2) =~= assoc(ks, vs).insert(kv, vv));
            }
            *self = MapType { keys, values };
        }
    }
}

impl<K: Key, V: Duplicate> Duplicate for MapType<K, V> {
    fn duplicate(&self) -> (r: Self)
        ensures
            r.wf(),
            r.keys() == self.keys(),
            r.values() == self.values(),
    {
        proof {
            use_type_invariant(self);
        }
        let keys = duplicate_vec(&self.keys);
        let values = duplicate_vec(&self.values);
        assert(keys@.len() == keys.deep_view().len());
        assert(values@.len() == values.deep_view().len());
        assert(self.keys@.len() == self.keys.deep_view().len());
        assert(self.values@.len() == self.values.deep_view().len());
        MapType { keys, values }
    }
}

} // verus!
