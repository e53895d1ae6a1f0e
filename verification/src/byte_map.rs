//! An ordered map from byte strings to values, kept as a sorted vector.
//!
//! The keys stand in strictly ascending lexicographic order, so nothing
//! occurs twice and a walk by position is a walk in key order.

use vstd::prelude::*;

use crate::lex::{
    compare, lemma_lex_irreflexive, lemma_lex_le_transitive, lemma_lex_total,
    lemma_lex_transitive, lex_le, lex_lt, Order,
};

verus! {

/// A value that can be copied with its view kept.
pub trait Duplicate: View + Sized {
    /// Returns a copy with the same view.
    fn duplicate(&self) -> (r: Self)
        ensures
            r@ == self@,
    ;
}

impl Duplicate for Vec<u8> {
    fn duplicate(&self) -> (r: Vec<u8>) {
        let mut out: Vec<u8> = Vec::new();
        let n: usize = self.len();
        let mut i: usize = 0;
        while i < n
            invariant
                n == self@.len(),
                i <= n,
                out@ == self@.subrange(0, i as int),
            decreases n - i,
        {
            out.push(self[i]);
            assert(self@.subrange(0, i + 1) =~= self@.subrange(0, i as int).push(self@[i as int]));
            i += 1;
        }
        assert(self@.subrange(0, n as int) =~= self@);
        out
    }
}

/// Each key comes strictly before every later one.
pub open spec fn strictly_sorted(keys: Seq<Seq<u8>>) -> bool {
    forall|i: int, j: int| 0 <= i < j < keys.len() ==> lex_lt(#[trigger] keys[i], #[trigger] keys[j])
}

/// The map that holds `values[i]` under `keys[i]`.
pub open spec fn entries_map<T>(keys: Seq<Seq<u8>>, values: Seq<T>) -> Map<Seq<u8>, T> {
    Map::new(|k: Seq<u8>| keys.contains(k), |k: Seq<u8>| values[keys.index_of(k)])
}

/// In a sorted sequence a key stands at one position only.
pub proof fn lemma_sorted_index(keys: Seq<Seq<u8>>, i: int)
    requires
        strictly_sorted(keys),
        0 <= i < keys.len(),
    ensures
        keys.contains(keys[i]),
        keys.index_of(keys[i]) == i,
{
    let j = keys.index_of(keys[i]);
    assert(keys.contains(keys[i]));
    lemma_lex_irreflexive(keys[i]);
    if j < i {
        assert(lex_lt(keys[j], keys[i]));
    } else if i < j {
        assert(lex_lt(keys[i], keys[j]));
    }
}

/// Putting a new key at its place in order keeps the order, and adds one
/// entry to the map.
pub proof fn lemma_insert_at<T>(keys: Seq<Seq<u8>>, values: Seq<T>, p: int, k: Seq<u8>, v: T)
    requires
        strictly_sorted(keys),
        keys.len() == values.len(),
        0 <= p <= keys.len(),
        forall|i: int| 0 <= i < p ==> lex_lt(#[trigger] keys[i], k),
        forall|i: int| p <= i < keys.len() ==> lex_lt(k, #[trigger] keys[i]),
    ensures
        strictly_sorted(keys.insert(p, k)),
        entries_map(keys.insert(p, k), values.insert(p, v)) == entries_map(keys, values).insert(
            k,
            v,
        ),
{
    let keys2 = keys.insert(p, k);
    let values2 = values.insert(p, v);
    assert forall|i: int, j: int| 0 <= i < j < keys2.len() implies lex_lt(
        #[trigger] keys2[i],
        #[trigger] keys2[j],
    ) by {
        let a = if i < p {
            i
        } else {
            i - 1
        };
        let b = if j < p {
            j
        } else {
            j - 1
        };
        if i != p && j != p {
            assert(keys2[i] == keys[a]);
            assert(keys2[j] == keys[b]);
        } else if i == p {
            assert(keys2[j] == keys[b]);
        } else {
            assert(keys2[i] == keys[a]);
        }
    }
    let m1 = entries_map(keys2, values2);
    let m2 = entries_map(keys, values).insert(k, v);
    assert forall|x: Seq<u8>| m1.contains_key(x) == m2.contains_key(x) by {
        if keys2.contains(x) {
            let i = keys2.index_of(x);
            if i < p {
                assert(keys[i] == x);
            } else if i > p {
                assert(keys[i - 1] == x);
            }
        }
        if keys.contains(x) {
            let i = keys.index_of(x);
            if i < p {
                assert(keys2[i] == x);
            } else {
                assert(keys2[i + 1] == x);
            }
        }
        if x == k {
            assert(keys2[p] == x);
        }
    }
    assert forall|x: Seq<u8>| m1.contains_key(x) implies m1[x] == m2[x] by {
        let i = keys2.index_of(x);
        lemma_sorted_index(keys2, i);
        if i < p {
            lemma_sorted_index(keys, i);
        } else if i > p {
            lemma_sorted_index(keys, i - 1);
            lemma_lex_irreflexive(k);
        }
    }
    assert(m1 =~= m2);
}

/// Replacing the value at a position replaces the entry of the key there.
pub proof fn lemma_update_at<T>(keys: Seq<Seq<u8>>, values: Seq<T>, p: int, v: T)
    requires
        strictly_sorted(keys),
        keys.len() == values.len(),
        0 <= p < keys.len(),
    ensures
        entries_map(keys, values.update(p, v)) == entries_map(keys, values).insert(keys[p], v),
{
    let m1 = entries_map(keys, values.update(p, v));
    let m2 = entries_map(keys, values).insert(keys[p], v);
    lemma_sorted_index(keys, p);
    assert forall|x: Seq<u8>| m1.contains_key(x) implies m1[x] == m2[x] by {
        let i = keys.index_of(x);
        lemma_sorted_index(keys, i);
    }
    assert(m1 =~= m2);
}

/// Taking out a position takes the entry of the key there out of the map.
pub proof fn lemma_remove_at<T>(keys: Seq<Seq<u8>>, values: Seq<T>, p: int)
    requires
        strictly_sorted(keys),
        keys.len() == values.len(),
        0 <= p < keys.len(),
    ensures
        strictly_sorted(keys.remove(p)),
        entries_map(keys.remove(p), values.remove(p)) == entries_map(keys, values).remove(keys[p]),
{
    let keys2 = keys.remove(p);
    let values2 = values.remove(p);
    assert forall|i: int, j: int| 0 <= i < j < keys2.len() implies lex_lt(
        #[trigger] keys2[i],
        #[trigger] keys2[j],
    ) by {
        let a = if i < p {
            i
        } else {
            i + 1
        };
        let b = if j < p {
            j
        } else {
            j + 1
        };
        assert(keys2[i] == keys[a]);
        assert(keys2[j] == keys[b]);
    }
    let m1 = entries_map(keys2, values2);
    let m2 = entries_map(keys, values).remove(keys[p]);
    lemma_sorted_index(keys, p);
    assert forall|x: Seq<u8>| m1.contains_key(x) == m2.contains_key(x) by {
        if keys2.contains(x) {
            let i = keys2.index_of(x);
            let a = if i < p {
                i
            } else {
                i + 1
            };
            assert(keys[a] == x);
            lemma_sorted_index(keys, a);
        }
        if keys.contains(x) && x != keys[p] {
            let i = keys.index_of(x);
            if i < p {
                assert(keys2[i] == x);
            } else {
                assert(keys2[i - 1] == x);
            }
        }
    }
    assert forall|x: Seq<u8>| m1.contains_key(x) implies m1[x] == m2[x] by {
        let i = keys2.index_of(x);
        lemma_sorted_index(keys2, i);
        let a = if i < p {
            i
        } else {
            i + 1
        };
        assert(keys[a] == x);
        lemma_sorted_index(keys, a);
    }
    assert(m1 =~= m2);
}

/// An ordered map from byte strings to values.
pub struct ByteMap<V: View> {
    keys: Vec<Vec<u8>>,
    values: Vec<V>,
}

impl<V: View> View for ByteMap<V> {
    type V = Map<Seq<u8>, V::V>;

    open spec fn view(&self) -> Map<Seq<u8>, V::V> {
        entries_map(self.key_seq(), self.value_seq())
    }
}

impl<V: View> ByteMap<V> {
    /// The keys, in the order in which they are held.
    pub closed spec fn key_seq(&self) -> Seq<Seq<u8>> {
        Seq::new(self.keys@.len(), |i: int| self.keys@[i]@)
    }

    /// The views of the values, each at the position of its key.
    pub closed spec fn value_seq(&self) -> Seq<V::V> {
        Seq::new(self.values@.len(), |i: int| self.values@[i]@)
    }

    /// What every map satisfies: one value for each key, and the keys in
    /// strictly ascending order.
    pub open spec fn wf(&self) -> bool {
        &&& self.key_seq().len() == self.value_seq().len()
        &&& strictly_sorted(self.key_seq())
    }

    #[verifier::type_invariant]
    pub open spec fn inv(self) -> bool {
        self.wf()
    }

    /// The keys of the map are those of `key_seq`, and each has the value at
    /// its position.
    pub proof fn lemma_view(&self)
        requires
            self.wf(),
        ensures
            forall|i: int|
                0 <= i < self.key_seq().len() ==> self@.contains_key(#[trigger] self.key_seq()[i])
                    && self@[self.key_seq()[i]] == self.value_seq()[i],
            forall|k: Seq<u8>| self@.contains_key(k) ==> self.key_seq().contains(k),
            self.key_seq().len() == 0 ==> self@ == Map::<Seq<u8>, V::V>::empty(),
    {
        assert forall|i: int| 0 <= i < self.key_seq().len() implies self@.contains_key(
            #[trigger] self.key_seq()[i],
        ) && self@[self.key_seq()[i]] == self.value_seq()[i] by {
            lemma_sorted_index(self.key_seq(), i);
        }
        if self.key_seq().len() == 0 {
            assert(self@ =~= Map::<Seq<u8>, V::V>::empty());
        }
    }

    /// Creates an empty map.
    pub fn new() -> (m: ByteMap<V>)
        ensures
            m.wf(),
            m@ == Map::<Seq<u8>, V::V>::empty(),
            m.key_seq().len() == 0,
    {
        let m = ByteMap { keys: Vec::new(), values: Vec::new() };
        assert(m@ =~= Map::<Seq<u8>, V::V>::empty());
        m
    }

    /// Returns the number of entries.
    pub fn len(&self) -> (n: usize)
        ensures
            n == self.key_seq().len(),
    {
        self.keys.len()
    }

    /// Returns `true` if the map has no entry.
    pub fn is_empty(&self) -> (r: bool)
        ensures
            r == (self.key_seq().len() == 0),
            r == (self@ == Map::<Seq<u8>, V::V>::empty()),
    {
        proof {
            use_type_invariant(self);
            self.lemma_view();
            if self.key_seq().len() > 0 {
                assert(self@.contains_key(self.key_seq()[0]));
            }
        }
        self.keys.len() == 0
    }

    /// Returns the position of the first key that does not come before
    /// `key`: the number of keys that come before it.
    pub fn lower_bound(&self, key: &[u8]) -> (p: usize)
        ensures
            p <= self.key_seq().len(),
            forall|i: int| 0 <= i < p ==> lex_lt(#[trigger] self.key_seq()[i], key@),
            forall|i: int| p <= i < self.key_seq().len() ==> lex_le(key@, #[trigger] self.key_seq()[i]),
    {
        proof {
            use_type_invariant(self);
        }
        let mut lo: usize = 0;
        let mut hi: usize = self.keys.len();
        while lo < hi
            invariant
                lo <= hi <= self.key_seq().len(),
                self.wf(),
                self.keys@.len() == self.key_seq().len(),
                forall|i: int| 0 <= i < lo ==> lex_lt(#[trigger] self.key_seq()[i], key@),
                forall|i: int|
                    hi <= i < self.key_seq().len() ==> lex_le(key@, #[trigger] self.key_seq()[i]),
            decreases hi - lo,
        {
            let mid: usize = lo + (hi - lo) / 2;
            let ord = compare(self.keys[mid].as_slice(), key);
            proof {
                let ks = self.key_seq();
                assert(ks[mid as int] == self.keys@[mid as int]@);
                lemma_lex_total(ks[mid as int], key@);
                if ord == Order::Less {
                    assert forall|i: int| 0 <= i < mid + 1 implies lex_lt(#[trigger] ks[i], key@) by {
                        if i < mid {
                            assert(lex_lt(ks[i], ks[mid as int]));
                            lemma_lex_transitive(ks[i], ks[mid as int], key@);
                        }
                    }
                } else {
                    assert forall|i: int| mid <= i < ks.len() implies lex_le(key@, #[trigger] ks[i]) by {
                        if i > mid {
                            assert(lex_lt(ks[mid as int], ks[i]));
                            lemma_lex_le_transitive(key@, ks[mid as int], ks[i]);
                        }
                    }
                }
            }
            match ord {
                Order::Less => {
                    lo = mid + 1;
                },
                _ => {
                    hi = mid;
                },
            }
        }
        lo
    }

    /// Returns the position at which `key` stands, if the map holds it.
    pub fn position(&self, key: &[u8]) -> (r: Option<usize>)
        ensures
            r is Some <==> self@.contains_key(key@),
            r matches Some(p) ==> p < self.key_seq().len() && self.key_seq()[p as int] == key@
                && self@[key@] == self.value_seq()[p as int],
    {
        proof {
            use_type_invariant(self);
            self.lemma_view();
        }
        let p: usize = self.lower_bound(key);
        if p < self.keys.len() {
            let ord = compare(self.keys[p].as_slice(), key);
            proof {
                assert(self.key_seq()[p as int] == self.keys@[p as int]@);
            }
            if ord == Order::Equal {
                return Some(p);
            }
        }
        proof {
            if self@.contains_key(key@) {
                let i = self.key_seq().index_of(key@);
                assert(self.key_seq()[i] == key@);
                lemma_lex_irreflexive(key@);
                lemma_lex_total(key@, self.key_seq()[p as int]);
                if i > p {
                    assert(lex_lt(self.key_seq()[p as int], self.key_seq()[i]));
                }
            }
        }
        None
    }

    /// Returns the value held under `key`.
    pub fn get(&self, key: &[u8]) -> (r: Option<&V>)
        ensures
            r is Some <==> self@.contains_key(key@),
            r matches Some(v) ==> v@ == self@[key@],
    {
        proof {
            use_type_invariant(self);
        }
        match self.position(key) {
            Some(p) => {
                proof {
                    assert(self.value_seq()[p as int] == self.values@[p as int]@);
                }
                Some(&self.values[p])
            },
            None => None,
        }
    }

    /// Returns `true` if the map holds a value under `key`.
    pub fn contains_key(&self, key: &[u8]) -> (r: bool)
        ensures
            r == self@.contains_key(key@),
    {
        self.position(key).is_some()
    }

    /// Returns the key at position `i`.
    pub fn key_at(&self, i: usize) -> (r: &Vec<u8>)
        requires
            i < self.key_seq().len(),
        ensures
            r@ == self.key_seq()[i as int],
    {
        &self.keys[i]
    }

    /// Returns the value at position `i`.
    pub fn value_at(&self, i: usize) -> (r: &V)
        requires
            i < self.key_seq().len(),
        ensures
            r@ == self.value_seq()[i as int],
    {
        proof {
            use_type_invariant(self);
        }
        &self.values[i]
    }

    /// Holds `value` under `key` from now on, in place of what was held
    /// under it before.
    pub fn insert(&mut self, key: Vec<u8>, value: V)
        ensures
            final(self).wf(),
            final(self)@ == old(self)@.insert(key@, value@),
    {
        proof {
            use_type_invariant(&*self);
        }
        let ghost ks = self.key_seq();
        let ghost vs = self.value_seq();
        let p: usize = self.lower_bound(key.as_slice());
        let found: bool = if p < self.keys.len() {
            let ord = compare(self.keys[p].as_slice(), key.as_slice());
            proof {
                assert(ks[p as int] == self.keys@[p as int]@);
            }
            ord == Order::Equal
        } else {
            false
        };
        let mut taken: ByteMap<V> = ByteMap::new();
        core::mem::swap(&mut taken, self);
        let ByteMap { mut keys, mut values } = taken;
        if found {
            proof {
                lemma_update_at(ks, vs, p as int, value@);
            }
            values.set(p, value);
            assert(Seq::new(keys@.len(), |i: int| keys@[i]@) =~= ks);
            assert(Seq::new(values@.len(), |i: int| values@[i]@) =~= vs.update(p as int, value@));
            let m = ByteMap { keys, values };
            assert(m.key_seq() =~= ks);
            assert(m.value_seq() =~= vs.update(p as int, value@));
            *self = m;
        } else {
            proof {
                assert forall|i: int| p <= i < ks.len() implies lex_lt(key@, #[trigger] ks[i]) by {
                    lemma_lex_total(key@, ks[p as int]);
                    if i > p {
                        assert(lex_lt(ks[p as int], ks[i]));
                        lemma_lex_le_transitive(key@, ks[p as int], ks[i]);
                    }
                }
                lemma_insert_at(ks, vs, p as int, key@, value@);
            }
            keys.insert(p, key);
            values.insert(p, value);
            assert(Seq::new(keys@.len(), |i: int| keys@[i]@) =~= ks.insert(p as int, key@));
            assert(Seq::new(values@.len(), |i: int| values@[i]@) =~= vs.insert(p as int, value@));
            let m = ByteMap { keys, values };
            assert(m.key_seq() =~= ks.insert(p as int, key@));
            assert(m.value_seq() =~= vs.insert(p as int, value@));
            *self = m;
        }
    }

    /// Holds nothing under `key` from now on. Returns what was held.
    pub fn remove(&mut self, key: &[u8]) -> (r: Option<V>)
        ensures
            final(self).wf(),
            final(self)@ == old(self)@.remove(key@),
            r is Some <==> old(self)@.contains_key(key@),
            r matches Some(v) ==> v@ == old(self)@[key@],
    {
        proof {
            use_type_invariant(&*self);
        }
        let ghost ks = self.key_seq();
        let ghost vs = self.value_seq();
        match self.position(key) {
            Some(p) => {
                let mut taken: ByteMap<V> = ByteMap::new();
                core::mem::swap(&mut taken, self);
                let ByteMap { mut keys, mut values } = taken;
                proof {
                    lemma_remove_at(ks, vs, p as int);
                    assert(vs[p as int] == values@[p as int]@);
                }
                keys.remove(p);
                let v = values.remove(p);
                assert(Seq::new(keys@.len(), |i: int| keys@[i]@) =~= ks.remove(p as int));
                assert(Seq::new(values@.len(), |i: int| values@[i]@) =~= vs.remove(p as int));
                let m = ByteMap { keys, values };
                assert(m.key_seq() =~= ks.remove(p as int));
                assert(m.value_seq() =~= vs.remove(p as int));
                *self = m;
                Some(v)
            },
            None => {
                assert(self@ =~= self@.remove(key@));
                None
            },
        }
    }

    /// Drops every entry.
    pub fn clear(&mut self)
        ensures
            final(self).wf(),
            final(self)@ == Map::<Seq<u8>, V::V>::empty(),
            final(self).key_seq().len() == 0,
    {
        *self = ByteMap::new();
    }
}

impl<V: Duplicate> Duplicate for ByteMap<V> {
    /// Returns a copy of the map: the same keys in the same order, with
    /// values of the same views.
    fn duplicate(&self) -> (r: ByteMap<V>)
        ensures
            r.wf(),
            r.key_seq() == self.key_seq(),
            r.value_seq() == self.value_seq(),
    {
        proof {
            use_type_invariant(self);
        }
        let n: usize = self.keys.len();
        let mut keys: Vec<Vec<u8>> = Vec::new();
        let mut values: Vec<V> = Vec::new();
        let mut i: usize = 0;
        while i < n
            invariant
                self.wf(),
                n == self.keys@.len(),
                n == self.values@.len(),
                i <= n,
                keys@.len() == i,
                values@.len() == i,
                forall|j: int| 0 <= j < i ==> keys@[j]@ == self.keys@[j]@,
                forall|j: int| 0 <= j < i ==> values@[j]@ == self.values@[j]@,
            decreases n - i,
        {
            keys.push(self.keys[i].duplicate());
            values.push(self.values[i].duplicate());
            i += 1;
        }
        let ghost ks = Seq::new(keys@.len(), |j: int| keys@[j]@);
        let ghost vs = Seq::new(values@.len(), |j: int| values@[j]@);
        assert(ks =~= self.key_seq());
        assert(vs =~= self.value_seq());
        let m = ByteMap { keys, values };
        assert(m.key_seq() =~= self.key_seq());
        assert(m.value_seq() =~= self.value_seq());
        m
    }
}

} // verus!
