//! What a map holds after keys were put into it one after the other, and
//! why the order in which they came does not tell.

use vstd::prelude::*;

use crate::proof_map_index::key::ProofMapKey;
use crate::proof_map_index::ProofMapIndex;
use crate::values::StorageValue;
use crate::views::ChangeSet;

verus! {

/// What a map that held `m` holds once the keys of `entries` were put
/// into it with their values, first to last.
pub open spec fn put_all(m: Map<Seq<u8>, Seq<u8>>, entries: Seq<(Seq<u8>, Seq<u8>)>) -> Map<
    Seq<u8>,
    Seq<u8>,
>
    decreases entries.len(),
{
    if entries.len() == 0 {
        m
    } else {
        put_all(m, entries.drop_last()).insert(entries.last().0, entries.last().1)
    }
}

/// Whether no key stands twice among `entries`.
pub open spec fn distinct_keys(entries: Seq<(Seq<u8>, Seq<u8>)>) -> bool {
    forall|i: int, j: int|
        0 <= i < j < entries.len() ==> (#[trigger] entries[i]).0 != (#[trigger] entries[j]).0
}

/// Whether `k` is the key of one of `entries`.
pub open spec fn has_key(entries: Seq<(Seq<u8>, Seq<u8>)>, k: Seq<u8>) -> bool {
    exists|i: int| 0 <= i < entries.len() && (#[trigger] entries[i]).0 == k
}

/// Once keys that differ from each other were put into a map, the map has
/// each of them with its value, and what it had under other keys.
pub proof fn lemma_put_all(m: Map<Seq<u8>, Seq<u8>>, entries: Seq<(Seq<u8>, Seq<u8>)>)
    requires
        distinct_keys(entries),
    ensures
        forall|k: Seq<u8>| #[trigger]
            put_all(m, entries).contains_key(k) <==> m.contains_key(k) || has_key(entries, k),
        forall|i: int|
            0 <= i < entries.len() ==> put_all(m, entries).contains_key(
                (#[trigger] entries[i]).0,
            ) && put_all(m, entries)[entries[i].0] == entries[i].1,
        forall|k: Seq<u8>|
            m.contains_key(k) && !has_key(entries, k) ==> #[trigger] put_all(m, entries).contains_key(
                k,
            ) && put_all(m, entries)[k] == m[k],
    decreases entries.len(),
{
    if entries.len() == 0 {
        assert forall|k: Seq<u8>| !has_key(entries, k) by {}
    }
    if entries.len() > 0 {
        let n = entries.len() - 1;
        let rest = entries.drop_last();
        let last = entries.last();
        assert forall|i: int, j: int| 0 <= i < j < rest.len() implies (#[trigger] rest[i]).0 != (
        #[trigger] rest[j]).0 by {
            assert(rest[i] == entries[i]);
            assert(rest[j] == entries[j]);
        }
        lemma_put_all(m, rest);
        assert forall|k: Seq<u8>| has_key(entries, k) <==> has_key(rest, k) || k == last.0 by {
            if has_key(entries, k) {
                let i = choose|i: int| 0 <= i < entries.len() && (#[trigger] entries[i]).0 == k;
                if i < n {
                    assert(rest[i] == entries[i]);
                }
            }
            if has_key(rest, k) {
                let i = choose|i: int| 0 <= i < rest.len() && (#[trigger] rest[i]).0 == k;
                assert(entries[i] == rest[i]);
            }
            if k == last.0 {
                assert(entries[n].0 == k);
            }
        }
        assert forall|i: int| 0 <= i < entries.len() implies put_all(m, entries).contains_key(
            (#[trigger] entries[i]).0,
        ) && put_all(m, entries)[entries[i].0] == entries[i].1 by {
            if i < n {
                assert(rest[i] == entries[i]);
                assert(entries[i].0 != entries[n].0);
            }
        }
        assert forall|k: Seq<u8>| #[trigger]
            put_all(m, entries).contains_key(k) <==> m.contains_key(k) || has_key(entries, k) by {
            assert(put_all(m, entries).contains_key(k) <==> put_all(m, rest).contains_key(k) || k
                == last.0);
            assert(has_key(entries, k) <==> has_key(rest, k) || k == last.0);
        }
        assert forall|k: Seq<u8>|
            m.contains_key(k) && !has_key(entries, k) implies #[trigger] put_all(
            m,
            entries,
        ).contains_key(k) && put_all(m, entries)[k] == m[k] by {
            assert(has_key(entries, k) <==> has_key(rest, k) || k == last.0);
            assert(put_all(m, rest).contains_key(k));
            assert(put_all(m, rest)[k] == m[k]);
        }
    }
}

/// Keys that differ from each other leave a map the same in whatever order
/// they are put into it.
pub proof fn lemma_put_order(
    m: Map<Seq<u8>, Seq<u8>>,
    a: Seq<(Seq<u8>, Seq<u8>)>,
    b: Seq<(Seq<u8>, Seq<u8>)>,
)
    requires
        distinct_keys(a),
        distinct_keys(b),
        a.to_multiset() == b.to_multiset(),
    ensures
        put_all(m, a) == put_all(m, b),
{
    a.to_multiset_ensures();
    b.to_multiset_ensures();
    lemma_put_all(m, a);
    lemma_put_all(m, b);
    assert forall|i: int| 0 <= i < a.len() implies has_key(b, (#[trigger] a[i]).0) && put_all(
        m,
        b,
    )[a[i].0] == a[i].1 by {
        assert(a.contains(a[i]));
        assert(a.to_multiset().count(a[i]) > 0);
        assert(b.to_multiset().count(a[i]) > 0);
        assert(b.contains(a[i]));
        let j = choose|j: int| 0 <= j < b.len() && b[j] == a[i];
        assert(b[j].0 == a[i].0);
    }
    assert forall|i: int| 0 <= i < b.len() implies has_key(a, (#[trigger] b[i]).0) by {
        assert(b.contains(b[i]));
        assert(b.to_multiset().count(b[i]) > 0);
        assert(a.to_multiset().count(b[i]) > 0);
        assert(a.contains(b[i]));
        let j = choose|j: int| 0 <= j < a.len() && a[j] == b[i];
        assert(a[j].0 == b[i].0);
    }
    assert forall|k: Seq<u8>| has_key(a, k) == has_key(b, k) by {
        if has_key(a, k) {
            let i = choose|i: int| 0 <= i < a.len() && (#[trigger] a[i]).0 == k;
            assert(has_key(b, a[i].0));
        }
        if has_key(b, k) {
            let i = choose|i: int| 0 <= i < b.len() && (#[trigger] b[i]).0 == k;
            assert(has_key(a, b[i].0));
        }
    }
    assert forall|k: Seq<u8>| #[trigger] put_all(m, a).contains_key(k) implies put_all(m, a)[k]
        == put_all(m, b)[k] by {
        if has_key(a, k) {
            let i = choose|i: int| 0 <= i < a.len() && (#[trigger] a[i]).0 == k;
            assert(put_all(m, b)[a[i].0] == a[i].1);
            assert(put_all(m, a)[a[i].0] == a[i].1);
        } else {
            assert(!has_key(b, k));
            assert(m.contains_key(k));
            assert(put_all(m, a)[k] == m[k]);
            assert(put_all(m, b).contains_key(k));
            assert(put_all(m, b)[k] == m[k]);
        }
    }
    assert(put_all(m, a) =~= put_all(m, b));
}

/// Two valid maps into which the same keys with the same values were put,
/// each key once, have the same root hash, whatever the order in which the
/// keys came to each.
pub proof fn lemma_root_in_any_order<C1: ChangeSet, C2: ChangeSet, K: ProofMapKey, V: StorageValue>(
    x: &ProofMapIndex<C1, K, V>,
    y: &ProofMapIndex<C2, K, V>,
    a: Seq<(Seq<u8>, Seq<u8>)>,
    b: Seq<(Seq<u8>, Seq<u8>)>,
)
    requires
        x.valid(),
        y.valid(),
        distinct_keys(a),
        distinct_keys(b),
        a.to_multiset() == b.to_multiset(),
        x.contents() == put_all(Map::empty(), a),
        y.contents() == put_all(Map::empty(), b),
    ensures
        x.spec_root_hash() == y.spec_root_hash(),
{
    lemma_put_order(Map::empty(), a, b);
    x.lemma_order_independent(y);
}

} // verus!
