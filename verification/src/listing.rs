//! Ordered listings of the entries of a table.

use vstd::prelude::*;

use crate::lex::{lemma_lex_irreflexive, lemma_lex_total, lex_le, lex_lt};

verus! {

/// The views of a vector of pairs of byte strings, pair by pair.
pub open spec fn pairs_view(s: Seq<(Vec<u8>, Vec<u8>)>) -> Seq<(Seq<u8>, Seq<u8>)> {
    Seq::new(s.len(), |i: int| (s[i].0@, s[i].1@))
}

/// The keys of `ps` stand in strictly ascending order.
pub open spec fn ascending(ps: Seq<(Seq<u8>, Seq<u8>)>) -> bool {
    forall|a: int, b: int| 0 <= a < b < ps.len() ==> lex_lt((#[trigger] ps[a]).0, (#[trigger] ps[b]).0)
}

/// `ps` lists the entries of `m` whose keys do not come before `from`, each
/// once, in ascending order of the keys.
pub open spec fn is_listing(
    ps: Seq<(Seq<u8>, Seq<u8>)>,
    m: Map<Seq<u8>, Seq<u8>>,
    from: Seq<u8>,
) -> bool {
    &&& forall|j: int|
        0 <= j < ps.len() ==> m.contains_key((#[trigger] ps[j]).0) && m[ps[j].0] == ps[j].1
            && lex_le(from, ps[j].0)
    &&& ascending(ps)
    &&& forall|k: Seq<u8>|
        m.contains_key(k) && lex_le(from, k) ==> exists|j: int|
            0 <= j < ps.len() && (#[trigger] ps[j]).0 == k
}

/// There is one listing only of the entries of a map from a given key on.
pub proof fn lemma_listing_unique(
    p: Seq<(Seq<u8>, Seq<u8>)>,
    q: Seq<(Seq<u8>, Seq<u8>)>,
    m: Map<Seq<u8>, Seq<u8>>,
    from: Seq<u8>,
)
    requires
        is_listing(p, m, from),
        is_listing(q, m, from),
    ensures
        p == q,
    decreases p.len(),
{
    if p.len() == 0 {
        if q.len() > 0 {
            let k = q[0].0;
            let j = choose|j: int| 0 <= j < p.len() && (#[trigger] p[j]).0 == k;
        }
        assert(p =~= q);
    } else if q.len() == 0 {
        let k = p[0].0;
        let j = choose|j: int| 0 <= j < q.len() && (#[trigger] q[j]).0 == k;
    } else {
        lemma_first_of_listing(p, q, m, from);
        lemma_first_of_listing(q, p, m, from);
        lemma_lex_total(p[0].0, q[0].0);
        assert(p[0].0 == q[0].0);
        let k = p[0].0;
        let m2 = m.remove(k);
        let tail_p = p.drop_first();
        let tail_q = q.drop_first();
        lemma_rest_of_listing(p, m, from);
        lemma_rest_of_listing(q, m, from);
        lemma_listing_unique(tail_p, tail_q, m2, from);
        assert(p =~= seq![p[0]] + tail_p);
        assert(q =~= seq![q[0]] + tail_q);
    }
}

/// The first key of a listing does not come after the first key of another
/// listing of the same entries.
proof fn lemma_first_of_listing(
    p: Seq<(Seq<u8>, Seq<u8>)>,
    q: Seq<(Seq<u8>, Seq<u8>)>,
    m: Map<Seq<u8>, Seq<u8>>,
    from: Seq<u8>,
)
    requires
        is_listing(p, m, from),
        is_listing(q, m, from),
        p.len() > 0,
        q.len() > 0,
    ensures
        lex_le(p[0].0, q[0].0),
{
    let k = q[0].0;
    let j = choose|j: int| 0 <= j < p.len() && (#[trigger] p[j]).0 == k;
    if j > 0 {
        assert(lex_lt(p[0].0, p[j].0));
    }
}

/// Without its first pair a listing lists the map without that key.
proof fn lemma_rest_of_listing(p: Seq<(Seq<u8>, Seq<u8>)>, m: Map<Seq<u8>, Seq<u8>>, from: Seq<u8>)
    requires
        is_listing(p, m, from),
        p.len() > 0,
    ensures
        is_listing(p.drop_first(), m.remove(p[0].0), from),
{
    let tail_p = p.drop_first();
    let m2 = m.remove(p[0].0);
    assert forall|j: int| 0 <= j < tail_p.len() implies m2.contains_key((#[trigger] tail_p[j]).0)
        && m2[tail_p[j].0] == tail_p[j].1 && lex_le(from, tail_p[j].0) by {
        assert(tail_p[j] == p[j + 1]);
        assert(lex_lt(p[0].0, p[j + 1].0));
        lemma_lex_irreflexive(p[0].0);
    }
    assert forall|a: int, b: int| 0 <= a < b < tail_p.len() implies lex_lt(
        (#[trigger] tail_p[a]).0,
        (#[trigger] tail_p[b]).0,
    ) by {
        assert(tail_p[a] == p[a + 1]);
        assert(tail_p[b] == p[b + 1]);
    }
    assert forall|k: Seq<u8>| m2.contains_key(k) && lex_le(from, k) implies exists|j: int|
        0 <= j < tail_p.len() && (#[trigger] tail_p[j]).0 == k by {
        let j = choose|j: int| 0 <= j < p.len() && (#[trigger] p[j]).0 == k;
        assert(j > 0);
        assert(tail_p[j - 1] == p[j]);
    }
}

} // verus!
