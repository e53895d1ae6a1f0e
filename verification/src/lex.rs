//! The lexicographic order of byte strings, in which a store keeps its keys.

use vstd::prelude::*;

verus! {

/// How one byte string stands to another in lexicographic order.
#[derive(Debug, Clone, Copy, PartialEq, Eq, Structural)]
pub enum Order {
    Less,
    Equal,
    Greater,
}

/// Number of positions, from `i` on, at which `a` and `b` hold the same
/// byte before they first differ or one of them ends.
pub open spec fn same_from(a: Seq<u8>, b: Seq<u8>, i: int) -> nat
    decreases a.len() - i,
{
    if i < 0 || i >= a.len() || i >= b.len() || a[i] != b[i] {
        0
    } else {
        1 + same_from(a, b, i + 1)
    }
}

/// Length of the longest common prefix of `a` and `b`.
pub open spec fn common_len(a: Seq<u8>, b: Seq<u8>) -> int {
    same_from(a, b, 0) as int
}

/// `a` comes strictly before `b`: at the first position where they part,
/// `a` has ended or holds the smaller byte.
pub open spec fn lex_lt(a: Seq<u8>, b: Seq<u8>) -> bool {
    let n = common_len(a, b);
    n < b.len() && (n == a.len() || a[n] < b[n])
}

/// `a` comes before `b` or is `b`.
pub open spec fn lex_le(a: Seq<u8>, b: Seq<u8>) -> bool {
    a == b || lex_lt(a, b)
}

/// Whether `a` begins with the whole of `prefix`.
pub open spec fn has_prefix(a: Seq<u8>, prefix: Seq<u8>) -> bool {
    prefix.len() <= a.len() && a.subrange(0, prefix.len() as int) == prefix
}

/// How `a` stands to `b`.
pub open spec fn spec_compare(a: Seq<u8>, b: Seq<u8>) -> Order {
    if a == b {
        Order::Equal
    } else if lex_lt(a, b) {
        Order::Less
    } else {
        Order::Greater
    }
}

/// `same_from(a, b, i)` is `n - i` where `n` is the first position from `i`
/// on at which the strings differ or one of them ends.
pub proof fn lemma_same_from(a: Seq<u8>, b: Seq<u8>, i: int, n: int)
    requires
        0 <= i <= n,
        n <= a.len(),
        n <= b.len(),
        forall|j: int| i <= j < n ==> a[j] == b[j],
        n < a.len() && n < b.len() ==> a[n] != b[n],
    ensures
        same_from(a, b, i) == n - i,
    decreases n - i,
{
    if i < n {
        lemma_same_from(a, b, i + 1, n);
    }
}

/// The common prefix stays within both strings, they agree on it, and they
/// differ right after it where both go on.
pub proof fn lemma_common_len(a: Seq<u8>, b: Seq<u8>)
    ensures
        0 <= common_len(a, b) <= a.len(),
        common_len(a, b) <= b.len(),
        forall|j: int| 0 <= j < common_len(a, b) ==> a[j] == b[j],
        common_len(a, b) < a.len() && common_len(a, b) < b.len() ==> a[common_len(a, b)]
            != b[common_len(a, b)],
        common_len(a, b) == common_len(b, a),
{
    lemma_same_from_bounds(a, b, 0);
    lemma_same_from(b, a, 0, common_len(a, b));
}

proof fn lemma_same_from_bounds(a: Seq<u8>, b: Seq<u8>, i: int)
    requires
        0 <= i <= a.len(),
        i <= b.len(),
    ensures
        i + same_from(a, b, i) <= a.len(),
        i + same_from(a, b, i) <= b.len(),
        forall|j: int| i <= j < i + same_from(a, b, i) ==> a[j] == b[j],
        i + same_from(a, b, i) < a.len() && i + same_from(a, b, i) < b.len() ==> a[i
            + same_from(a, b, i)] != b[i + same_from(a, b, i)],
    decreases a.len() - i,
{
    if i < a.len() && i < b.len() && a[i] == b[i] {
        lemma_same_from_bounds(a, b, i + 1);
    }
}

/// No string comes before itself.
pub proof fn lemma_lex_irreflexive(a: Seq<u8>)
    ensures
        !lex_lt(a, a),
{
    lemma_same_from(a, a, 0, a.len() as int);
}

/// Of two different strings exactly one comes before the other.
pub proof fn lemma_lex_total(a: Seq<u8>, b: Seq<u8>)
    ensures
        a == b || lex_lt(a, b) || lex_lt(b, a),
        !(lex_lt(a, b) && lex_lt(b, a)),
        !(a == b && lex_lt(a, b)),
{
    lemma_common_len(a, b);
    lemma_lex_irreflexive(a);
    let n = common_len(a, b);
    if n == a.len() && n == b.len() {
        assert(a =~= b);
    }
}

/// The order is transitive.
pub proof fn lemma_lex_transitive(a: Seq<u8>, b: Seq<u8>, c: Seq<u8>)
    requires
        lex_lt(a, b),
        lex_lt(b, c),
    ensures
        lex_lt(a, c),
{
    lemma_common_len(a, b);
    lemma_common_len(b, c);
    let n1 = common_len(a, b);
    let n2 = common_len(b, c);
    let n = if n1 < n2 {
        n1
    } else {
        n2
    };
    lemma_same_from(a, c, 0, n);
}

/// `lex_le` is transitive, also where one side is strict.
pub proof fn lemma_lex_le_transitive(a: Seq<u8>, b: Seq<u8>, c: Seq<u8>)
    requires
        lex_le(a, b),
        lex_le(b, c),
    ensures
        lex_le(a, c),
        lex_lt(a, b) || lex_lt(b, c) ==> lex_lt(a, c),
{
    if a != b && b != c {
        lemma_lex_transitive(a, b, c);
    }
}

/// A string comes at or after each of its prefixes.
pub proof fn lemma_prefix_le(a: Seq<u8>, prefix: Seq<u8>)
    requires
        has_prefix(a, prefix),
    ensures
        lex_le(prefix, a),
{
    if prefix != a {
        assert forall|j: int| 0 <= j < prefix.len() implies prefix[j] == a[j] by {
            assert(a.subrange(0, prefix.len() as int)[j] == a[j]);
        }
        if prefix.len() == a.len() {
            assert(prefix =~= a);
        }
        lemma_same_from(prefix, a, 0, prefix.len() as int);
    }
}

/// Putting the same bytes in front of two strings keeps their order.
pub proof fn lemma_concat_order(p: Seq<u8>, a: Seq<u8>, b: Seq<u8>)
    ensures
        lex_lt(p + a, p + b) == lex_lt(a, b),
        lex_le(p + a, p + b) == lex_le(a, b),
        (p + a == p + b) == (a == b),
{
    lemma_common_len(a, b);
    let n = common_len(a, b);
    let x = p + a;
    let y = p + b;
    assert forall|j: int| 0 <= j < p.len() + n implies x[j] == y[j] by {
        if j >= p.len() {
            assert(x[j] == a[j - p.len()]);
            assert(y[j] == b[j - p.len()]);
        }
    }
    if p.len() + n < x.len() && p.len() + n < y.len() {
        assert(x[p.len() + n] == a[n]);
        assert(y[p.len() + n] == b[n]);
    }
    lemma_same_from(x, y, 0, p.len() + n);
    if n < a.len() {
        assert(x[p.len() + n] == a[n]);
    }
    if n < b.len() {
        assert(y[p.len() + n] == b[n]);
    }
    if x == y {
        assert(a =~= x.skip(p.len() as int));
        assert(b =~= y.skip(p.len() as int));
    }
}

/// The strings that begin with `p` stand together in the order: what lies
/// between two of them begins with `p` too.
pub proof fn lemma_prefix_contiguous(p: Seq<u8>, x: Seq<u8>, y: Seq<u8>, z: Seq<u8>)
    requires
        has_prefix(x, p),
        has_prefix(z, p),
        lex_le(x, y),
        lex_le(y, z),
    ensures
        has_prefix(y, p),
{
    if y != x && y != z {
        lemma_common_len(y, p);
        let n = common_len(y, p);
        assert forall|j: int| 0 <= j < p.len() implies x[j] == p[j] && z[j] == p[j] by {
            assert(x.subrange(0, p.len() as int)[j] == x[j]);
            assert(z.subrange(0, p.len() as int)[j] == z[j]);
        }
        if n < p.len() {
            lemma_same_from(x, y, 0, n);
            lemma_same_from(y, z, 0, n);
            assert(false);
        }
        assert(y.subrange(0, p.len() as int) =~= p);
    }
}

/// Of two different strings of one length, the one that holds no greater
/// byte at any position comes first.
pub proof fn lemma_pointwise_le(a: Seq<u8>, b: Seq<u8>)
    requires
        a.len() == b.len(),
        forall|j: int| 0 <= j < a.len() ==> a[j] <= b[j],
        a != b,
    ensures
        lex_lt(a, b),
{
    lemma_common_len(a, b);
    let n = common_len(a, b);
    if n == a.len() {
        assert(a =~= b);
    }
}

/// A string comes before every string of which the first byte is greater.
pub proof fn lemma_first_byte(a: Seq<u8>, b: Seq<u8>)
    requires
        a.len() > 0,
        b.len() > 0,
        a[0] < b[0],
    ensures
        lex_lt(a, b),
{
    lemma_same_from(a, b, 0, 0);
}

/// Compares two byte strings in lexicographic order.
pub fn compare(a: &[u8], b: &[u8]) -> (r: Order)
    ensures
        r == spec_compare(a@, b@),
{
    let la: usize = a.len();
    let lb: usize = b.len();
    let mut i: usize = 0;
    while i < la && i < lb
        invariant
            la == a@.len(),
            lb == b@.len(),
            i <= la,
            i <= lb,
            forall|j: int| 0 <= j < i ==> a@[j] == b@[j],
        decreases la - i,
    {
        if a[i] != b[i] {
            proof {
                lemma_same_from(a@, b@, 0, i as int);
                lemma_lex_total(a@, b@);
            }
            if a[i] < b[i] {
                return Order::Less;
            } else {
                return Order::Greater;
            }
        }
        i += 1;
    }
    proof {
        lemma_same_from(a@, b@, 0, i as int);
        lemma_lex_total(a@, b@);
        if la == lb {
            assert(a@ =~= b@);
        }
    }
    if la == lb {
        Order::Equal
    } else if la < lb {
        Order::Less
    } else {
        Order::Greater
    }
}

/// Returns `true` if the two byte strings are the same.
pub fn bytes_eq(a: &[u8], b: &[u8]) -> (r: bool)
    ensures
        r == (a@ == b@),
{
    if a.len() != b.len() {
        return false;
    }
    let n: usize = a.len();
    let mut i: usize = 0;
    while i < n
        invariant
            n == a@.len(),
            n == b@.len(),
            i <= n,
            forall|j: int| 0 <= j < i ==> a@[j] == b@[j],
        decreases n - i,
    {
        if a[i] != b[i] {
            return false;
        }
        i += 1;
    }
    assert(a@ =~= b@);
    true
}

/// Returns `true` if `a` begins with the whole of `prefix`.
pub fn starts_with(a: &[u8], prefix: &[u8]) -> (r: bool)
    ensures
        r == has_prefix(a@, prefix@),
{
    if prefix.len() > a.len() {
        return false;
    }
    let n: usize = prefix.len();
    let mut i: usize = 0;
    while i < n
        invariant
            n == prefix@.len(),
            n <= a@.len(),
            i <= n,
            forall|j: int| 0 <= j < i ==> a@[j] == prefix@[j],
        decreases n - i,
    {
        if a[i] != prefix[i] {
            assert(a@.subrange(0, n as int)[i as int] == a@[i as int]);
            return false;
        }
        i += 1;
    }
    assert(a@.subrange(0, n as int) =~= prefix@);
    true
}

} // verus!
