//! Proofs that keys are, or are not, in a Merkelized map, and their
//! verification against a root hash.
//!
//! A proof names the keys asked for, each with its value if the map has
//! one, and lists the paths and hashes of the parts of the tree that were
//! not walked. Together with the leaves of the keys found these parts make
//! up the whole tree, so that the root hash can be computed from them.

use core::marker::PhantomData;
use vstd::prelude::*;

use crate::hash::{hash, hashable, sha256, HASH_INPUT_LIMIT};
use crate::lex::Order;
use crate::proof_map_index::key::{BitsRange, ChildKind, ProofMapKey, ProofPath};
use crate::bits::key_bit;
use crate::proof_map_index::node::{branch_image, BranchNode};
use crate::proof_map_index::tree::{
    agree, diverge, frontier_ok, lemma_diverge, lemma_diverge_is, lemma_frontier,
    lemma_frontier_ordered, lemma_stored_form, lemma_stored_twice, lemma_unlisted_add,
    lemma_unlisted_nothing, lemma_unlisted_ordered, lemma_unlisted_same, ordered_trees, raw_of,
    split_of, stands_left, unlisted, Tree,
};
use crate::values::StorageValue;

verus! {

/// Why a proof was not accepted.
#[derive(Debug, Clone, Copy, PartialEq, Eq, Structural)]
pub enum MapProofError {
    /// The listed parts are not in the order of their paths, or a value is
    /// not what a value is stored as.
    MalformedStructure,
    /// One path stands twice among the listed parts and the keys found.
    DuplicateEntry,
    /// The only part is not a leaf.
    NonTerminalNode,
    /// One path is the beginning of another, or of the path of a key that
    /// is said to be missing.
    EmbeddedKey,
    /// The parts make up a tree with another root hash than the one
    /// claimed.
    HashMismatch,
}

/// How the bits of `a` stand to those of `b`: bit by bit, a clear bit
/// before a set one, and a path before those that it begins.
pub open spec fn spec_compare_paths(a: &ProofPath, b: &ProofPath) -> Order {
    let n = a.spec_common_prefix(b);
    if n == a.spec_len() && n == b.spec_len() {
        Order::Equal
    } else if n == a.spec_len() {
        Order::Less
    } else if n == b.spec_len() {
        Order::Greater
    } else if a.spec_bit(n) {
        Order::Greater
    } else {
        Order::Less
    }
}

/// Compares two paths that start at the same bit by their bits.
pub fn compare_paths(a: &ProofPath, b: &ProofPath) -> (r: Order)
    requires
        a.spec_start() == b.spec_start(),
    ensures
        r == spec_compare_paths(a, b),
{
    let n = a.common_prefix(b);
    let la = a.len();
    let lb = b.len();
    if n == la && n == lb {
        Order::Equal
    } else if n == la {
        Order::Less
    } else if n == lb {
        Order::Greater
    } else {
        match a.bit(n) {
            ChildKind::Right => Order::Greater,
            ChildKind::Left => Order::Less,
        }
    }
}

/// Returns the parts on the left of the walk, first to last, followed by
/// those on the right, last to first: all parts in the order of their
/// paths.
pub fn combine(
    left: Vec<(ProofPath, crate::hash::Hash)>,
    right: Vec<(ProofPath, crate::hash::Hash)>,
) -> (r: Vec<(ProofPath, crate::hash::Hash)>)
    ensures
        r@ == left@ + right@.reverse(),
{
    let mut out = left;
    let mut rest = right;
    let n: usize = rest.len();
    let ghost mut acc: Seq<(ProofPath, crate::hash::Hash)> = Seq::empty();
    let mut i: usize = 0;
    while i < n
        invariant
            i <= n,
            n == right@.len(),
            rest@.len() == n - i,
            acc.len() == i,
            out@ == left@ + acc,
            forall|j: int| 0 <= j < n - i ==> #[trigger] rest@[j] == right@[j],
            forall|j: int| 0 <= j < i ==> #[trigger] acc[j] == right@[n - 1 - j],
        decreases n - i,
    {
        match rest.pop() {
            Some(e) => {
                out.push(e);
                proof {
                    assert(out@ =~= left@ + acc.push(e));
                    acc = acc.push(e);
                }
            },
            None => {},
        }
        i += 1;
    }
    proof {
        assert(acc =~= right@.reverse());
    }
    out
}

/// Returns the hash of the branch with the two given children.
pub fn hash_branch(
    left: &(ProofPath, crate::hash::Hash),
    right: &(ProofPath, crate::hash::Hash),
) -> (r: crate::hash::Hash)
    ensures
        r@ == sha256(
            crate::proof_map_index::node::branch_image(
                left.1@,
                right.1@,
                left.0.spec_serialize(),
                right.0.spec_serialize(),
            ),
        ),
        r@ == crate::hash::digest(
            crate::proof_map_index::node::branch_image(
                left.1@,
                right.1@,
                left.0.spec_serialize(),
                right.0.spec_serialize(),
            ),
        ),
{
    let mut branch = BranchNode::empty();
    branch.set_child(ChildKind::Left, &left.0, &left.1);
    branch.set_child(ChildKind::Right, &right.0, &right.1);
    proof {
        branch.lemma_image();
    }
    branch.hash()
}

/// Whether every path of `items` starts at bit 0.
pub open spec fn all_from_zero(items: Seq<(ProofPath, crate::hash::Hash)>) -> bool {
    forall|i: int| 0 <= i < items.len() ==> (#[trigger] items[i]).0.spec_start() == 0
}

/// Whether the parts `items` are the subtrees `f`: each part has the path
/// under which the root of its subtree is stored, and its hash.
pub open spec fn stands_for(items: Seq<(ProofPath, crate::hash::Hash)>, f: Seq<Tree>) -> bool {
    &&& items.len() == f.len()
    &&& forall|i: int|
        0 <= i < items.len() ==> (#[trigger] items[i]).0.wf() && items[i].0.spec_start() == 0
            && items[i].0.raw() == f[i].node_key() && items[i].1@ == f[i].node_hash()
}

/// Whether the parts `items` make up the valid tree `t`, subtree by
/// subtree from left to right.
pub open spec fn makes_up(items: Seq<(ProofPath, crate::hash::Hash)>, t: Tree) -> bool {
    t.valid() && exists|f: Seq<Tree>| frontier_ok(f, t) && stands_for(items, f)
}

/// A part that is a subtree has the end and the bits of that subtree.
pub proof fn lemma_part(p: ProofPath, s: Tree)
    requires
        p.wf(),
        s.valid(),
        p.raw() == s.node_key(),
    ensures
        p.spec_end() == s.end(),
        p.is_leaf_spec() == (s is Leaf),
        p.spec_serialize() == s.node_key(),
        agree(p.key(), s.first_key(), s.end()),
        p.key().len() == 32,
{
    s.lemma_entries();
    lemma_stored_form(s.raw_path());
    lemma_stored_twice(s.raw_path());
    assert(s.raw_path().subrange(1, 33) =~= s.first_key());
}

/// The first part from `m` on, and before `hi`, that has bit `d` set; or
/// what is wrong: a part before it ends at or before bit `d`, or no part
/// has the bit set.
pub open spec fn first_set(items: Seq<(ProofPath, crate::hash::Hash)>, m: int, hi: int, d: int) -> Result<
    int,
    MapProofError,
>
    decreases hi - m,
{
    if m >= hi {
        Err(MapProofError::MalformedStructure)
    } else if d >= items[m].0.spec_len() {
        Err(MapProofError::EmbeddedKey)
    } else if items[m].0.spec_bit(d) {
        Ok(m)
    } else {
        first_set(items, m + 1, hi, d)
    }
}

/// The stored path and the hash of the node into which the parts `lo` to
/// `hi` of `items` fold, or why they do not fold. One part is left as it
/// is. More parts are split before the first part that has the bit set at
/// which the first and the last part differ; the two halves fold into the
/// children of a branch that ends at that bit, over the key of the first
/// part. They do not fold where the first or the last part ends at or
/// before that bit, where the first part has it set, or where a half does
/// not fold.
pub open spec fn folded(items: Seq<(ProofPath, crate::hash::Hash)>, lo: int, hi: int) -> Result<
    (Seq<u8>, Seq<u8>),
    MapProofError,
>
    decreases hi - lo,
{
    if hi - lo <= 1 {
        Ok((items[lo].0.spec_serialize(), items[lo].1@))
    } else {
        let first = items[lo].0;
        let last = items[hi - 1].0;
        let d = first.spec_common_prefix(&last);
        if d >= first.spec_len() || d >= last.spec_len() {
            Err(MapProofError::EmbeddedKey)
        } else if first.spec_bit(d) {
            Err(MapProofError::MalformedStructure)
        } else {
            match first_set(items, lo + 1, hi, d) {
                Err(e) => Err(e),
                Ok(m) => if lo < m < hi {
                    match folded(items, lo, m) {
                        Err(e) => Err(e),
                        Ok(l) => match folded(items, m, hi) {
                            Err(e) => Err(e),
                            Ok(r) => Ok(
                                (
                                    crate::proof_map_index::key::stored_form(
                                        raw_of(
                                            crate::proof_map_index::key::BRANCH_KEY_PREFIX,
                                            first.key(),
                                            d as u8,
                                        ),
                                    ),
                                    sha256(branch_image(l.1, r.1, l.0, r.0)),
                                ),
                            ),
                        },
                    }
                } else {
                    Err(MapProofError::MalformedStructure)
                },
            }
        }
    }
}

/// The root hash of the tree that `items` make up, or why they make up
/// none: zeros for no item; for one item, which has to be a leaf, the hash
/// of its path and hash; else the hash of the branch into which the items
/// fold.
pub open spec fn collected(items: Seq<(ProofPath, crate::hash::Hash)>) -> Result<
    Seq<u8>,
    MapProofError,
> {
    if items.len() == 0 {
        Ok(crate::hash::Hash::zero_view())
    } else if items.len() == 1 {
        if items[0].0.is_leaf_spec() {
            Ok(sha256(items[0].0.raw() + items[0].1@))
        } else {
            Err(MapProofError::NonTerminalNode)
        }
    } else {
        match folded(items, 0, items.len() as int) {
            Ok(e) => Ok(e.1),
            Err(e) => Err(e),
        }
    }
}

/// Folds the parts `lo` to `hi` of `items`, which stand in the order of
/// their paths, into one: a single part is left as it is; more parts are
/// split where the bit at which the first and the last part differ turns
/// from clear to set, and the two halves, folded, become the children of
/// a branch that ends at that bit.
///
/// Parts that make up a valid tree fold into the root of that tree.
pub fn fold_range(items: &Vec<(ProofPath, crate::hash::Hash)>, lo: usize, hi: usize) -> (r: Result<
    (ProofPath, crate::hash::Hash),
    MapProofError,
>)
    requires
        lo < hi <= items@.len(),
        all_from_zero(items@),
    ensures
        r matches Ok(e) ==> e.0.wf() && e.0.spec_start() == 0,
        match folded(items@, lo as int, hi as int) {
            Ok(x) => r matches Ok(e) && e.0.spec_serialize() == x.0 && e.1@ == x.1,
            Err(x) => r matches Err(y) && y == x,
        },
        forall|t: Tree|
            #[trigger] makes_up(items@.subrange(lo as int, hi as int), t) ==> (r matches Ok(e)
                && e.0.spec_serialize() == t.node_key() && e.1@ == t.node_hash() && (hi - lo >= 2
                ==> t is Branch && e.1@ == sha256(t.node_value()))),
    decreases hi - lo,
{
    let ghost part = items@.subrange(lo as int, hi as int);
    if hi - lo == 1 {
        let e = items[lo];
        proof {
            use_type_invariant(&e.0);
            assert forall|t: Tree| #[trigger] makes_up(part, t) implies e.0.spec_serialize()
                == t.node_key() && e.1@ == t.node_hash() by {
                let f = choose|f: Seq<Tree>| frontier_ok(f, t) && stands_for(part, f);
                lemma_frontier(f, t);
                assert(part[0] == e);
                lemma_part(e.0, t);
            }
        }
        return Ok(e);
    }
    let first = items[lo].0;
    let last = items[hi - 1].0;
    proof {
        use_type_invariant(&first);
        use_type_invariant(&last);
    }
    let d: u16 = first.common_prefix(&last);
    if d >= first.len() || d >= last.len() {
        proof {
            assert forall|t: Tree| #[trigger] makes_up(part, t) implies false by {
                lemma_split(part, t, first, last);
            }
        }
        return Err(MapProofError::EmbeddedKey);
    }
    match first.bit(d) {
        ChildKind::Right => {
            proof {
                assert forall|t: Tree| #[trigger] makes_up(part, t) implies false by {
                    lemma_split(part, t, first, last);
                }
            }
            return Err(MapProofError::MalformedStructure);
        },
        ChildKind::Left => {},
    }
    // The first part with the bit set.
    let mut m: usize = lo + 1;
    let mut found: bool = false;
    while m < hi && !found
        invariant
            lo < m <= hi,
            lo + 2 <= hi,
            hi <= items@.len(),
            all_from_zero(items@),
            part == items@.subrange(lo as int, hi as int),
            d < first.spec_len(),
            d == first.spec_common_prefix(&last),
            first == items@[lo as int].0,
            last == items@[hi - 1].0,
            !first.spec_bit(d as int),
            forall|j: int|
                lo <= j < m - (if found {
                    1int
                } else {
                    0int
                }) ==> d < (#[trigger] items@[j]).0.spec_len() && !items@[j].0.spec_bit(d as int),
            found ==> m - 1 < hi && d < items@[m - 1].0.spec_len() && items@[m - 1].0.spec_bit(
                d as int,
            ),
            found ==> first_set(items@, lo + 1, hi as int, d as int) == Ok::<int, MapProofError>(
                m - 1,
            ),
            !found ==> first_set(items@, lo + 1, hi as int, d as int) == first_set(
                items@,
                m as int,
                hi as int,
                d as int,
            ),
        decreases hi - m,
    {
        let p = items[m].0;
        proof {
            use_type_invariant(&p);
        }
        if d >= p.len() {
            proof {
                assert forall|t: Tree| #[trigger] makes_up(part, t) implies false by {
                    lemma_split(part, t, first, last);
                    let f = choose|f: Seq<Tree>| frontier_ok(f, t) && stands_for(part, f);
                    lemma_frontier(f, t);
                    assert(part[m - lo] == items@[m as int]);
                    lemma_part(p, f[m - lo]);
                }
            }
            return Err(MapProofError::EmbeddedKey);
        }
        match p.bit(d) {
            ChildKind::Right => {
                found = true;
            },
            ChildKind::Left => {},
        }
        m += 1;
    }
    if !found {
        proof {
            assert forall|t: Tree| #[trigger] makes_up(part, t) implies false by {
                lemma_split(part, t, first, last);
                assert(items@[hi - 1].0 == last);
            }
        }
        return Err(MapProofError::MalformedStructure);
    }
    let m: usize = m - 1;
    let left = match fold_range(items, lo, m) {
        Ok(e) => e,
        Err(e) => {
            proof {
                assert forall|t: Tree| #[trigger] makes_up(part, t) implies false by {
                    lemma_halves(items@, lo as int, m as int, hi as int, t, d as int);
                }
            }
            return Err(e);
        },
    };
    let right = match fold_range(items, m, hi) {
        Ok(e) => e,
        Err(e) => {
            proof {
                assert forall|t: Tree| #[trigger] makes_up(part, t) implies false by {
                    lemma_halves(items@, lo as int, m as int, hi as int, t, d as int);
                }
            }
            return Err(e);
        },
    };
    let path = first.prefix(d);
    let h = hash_branch(&left, &right);
    proof {
        assert(path.raw() =~= raw_of(
            crate::proof_map_index::key::BRANCH_KEY_PREFIX,
            first.key(),
            d as u8,
        ));
        assert forall|t: Tree| #[trigger] makes_up(part, t) implies path.spec_serialize()
            == t.node_key() && h@ == t.node_hash() && t is Branch && h@ == sha256(
            t.node_value(),
        ) by {
            lemma_halves(items@, lo as int, m as int, hi as int, t, d as int);
            let f = choose|f: Seq<Tree>| frontier_ok(f, t) && stands_for(part, f);
            lemma_frontier(f, t);
            assert(part[0] == items@[lo as int]);
            lemma_part(first, f[0]);
            assert forall|p: int| 0 <= p < t.end() implies key_bit(path.key(), p) == key_bit(
                t.first_key(),
                p,
            ) by {
                assert(key_bit(first.key(), p) == key_bit(f[0].first_key(), p));
                assert(key_bit(f[0].first_key(), p) == key_bit(t.first_key(), p));
            }
            t.lemma_entries();
            crate::proof_map_index::lemma_new_branch_key(path, t);
        }
    }
    Ok((path, h))
}

/// Where parts that make up a tree are more than one, the tree is a
/// branch; the first and the last part go on beyond its end, share the
/// bits before it, and differ at it: the first has the bit clear, the last
/// has it set.
pub proof fn lemma_split(
    part: Seq<(ProofPath, crate::hash::Hash)>,
    t: Tree,
    first: ProofPath,
    last: ProofPath,
)
    requires
        makes_up(part, t),
        part.len() >= 2,
        first == part[0].0,
        last == part[part.len() - 1].0,
    ensures
        t is Branch,
        first.spec_common_prefix(&last) == t.end(),
        t.end() < first.spec_len(),
        t.end() < last.spec_len(),
        !first.spec_bit(t.end()),
        last.spec_bit(t.end()),
{
    let f = choose|f: Seq<Tree>| frontier_ok(f, t) && stands_for(part, f);
    lemma_frontier(f, t);
    let n = f.len() as int;
    lemma_part(first, f[0]);
    lemma_part(last, f[n - 1]);
    t.lemma_entries();
    crate::proof_map_index::key::lemma_common_prefix_diverge(first, last);
    let limit = if first.spec_end() < last.spec_end() {
        first.spec_end()
    } else {
        last.spec_end()
    };
    assert forall|p: int| 0 <= p < t.end() implies key_bit(first.key(), p) == key_bit(
        last.key(),
        p,
    ) by {
        assert(key_bit(first.key(), p) == key_bit(f[0].first_key(), p));
        assert(key_bit(f[0].first_key(), p) == key_bit(t.first_key(), p));
        assert(key_bit(last.key(), p) == key_bit(f[n - 1].first_key(), p));
        assert(key_bit(f[n - 1].first_key(), p) == key_bit(t.first_key(), p));
    }
    assert(key_bit(first.key(), t.end()) == key_bit(f[0].first_key(), t.end()));
    assert(key_bit(last.key(), t.end()) == key_bit(f[n - 1].first_key(), t.end()));
    lemma_diverge_is(first.key(), last.key(), 0, limit, t.end());
}

/// Where the parts `lo` to `hi` make up a branch that ends at bit `d`, and
/// the part `m` is the first of them with that bit set, the parts before
/// `m` make up the left subtree and the parts from `m` on the right one.
pub proof fn lemma_halves(
    items: Seq<(ProofPath, crate::hash::Hash)>,
    lo: int,
    m: int,
    hi: int,
    t: Tree,
    d: int,
)
    requires
        0 <= lo < m < hi <= items.len(),
        makes_up(items.subrange(lo, hi), t),
        d == items[lo].0.spec_common_prefix(&items[hi - 1].0),
        forall|j: int| lo <= j < m ==> !(#[trigger] items[j]).0.spec_bit(d),
        items[m].0.spec_bit(d),
    ensures
        t is Branch,
        d == t.end(),
        makes_up(items.subrange(lo, m), *t->left),
        makes_up(items.subrange(m, hi), *t->right),
{
    let part = items.subrange(lo, hi);
    let f = choose|f: Seq<Tree>| frontier_ok(f, t) && stands_for(part, f);
    assert(part[0] == items[lo]);
    assert(part[hi - lo - 1] == items[hi - 1]);
    lemma_split(part, t, items[lo].0, items[hi - 1].0);
    lemma_frontier(f, t);
    let ms = split_of(f, t);
    assert forall|j: int| 0 <= j < f.len() implies (#[trigger] part[j]).0.spec_bit(d) == (j
        >= ms) by {
        lemma_part(part[j].0, f[j]);
        assert(key_bit(part[j].0.key(), d) == key_bit(f[j].first_key(), d));
    }
    if m - lo < ms {
        assert(part[m - lo] == items[m]);
    }
    if m - lo > ms {
        assert(part[ms] == items[lo + ms]);
    }
    assert(m - lo == ms);
    let fl = f.subrange(0, ms);
    let fr = f.subrange(ms, f.len() as int);
    assert(stands_for(items.subrange(lo, m), fl)) by {
        assert forall|i: int| 0 <= i < m - lo implies (#[trigger] items.subrange(lo, m)[i]).0.wf()
            && items.subrange(lo, m)[i].0.spec_start() == 0 && items.subrange(lo, m)[i].0.raw()
            == fl[i].node_key() && items.subrange(lo, m)[i].1@ == fl[i].node_hash() by {
            assert(items.subrange(lo, m)[i] == part[i]);
        }
    }
    assert(stands_for(items.subrange(m, hi), fr)) by {
        assert forall|i: int| 0 <= i < hi - m implies (#[trigger] items.subrange(m, hi)[i]).0.wf()
            && items.subrange(m, hi)[i].0.spec_start() == 0 && items.subrange(m, hi)[i].0.raw()
            == fr[i].node_key() && items.subrange(m, hi)[i].1@ == fr[i].node_hash() by {
            assert(items.subrange(m, hi)[i] == part[ms + i]);
        }
    }
    t.lemma_entries();
}

/// Computes the root hash of the tree that `entries` make up, given in the
/// order of their paths: zeros for no entry; for one entry, which has to be
/// a leaf, the hash of its path and hash; else the hash of the branch into
/// which the entries fold.
///
/// Parts that make up a valid tree give the root hash of that tree.
pub fn collect(entries: &Vec<(ProofPath, crate::hash::Hash)>) -> (r: Result<
    crate::hash::Hash,
    MapProofError,
>)
    requires
        all_from_zero(entries@),
    ensures
        match collected(entries@) {
            Ok(x) => r matches Ok(h) && h@ == x,
            Err(x) => r matches Err(y) && y == x,
        },
        entries@.len() == 0 ==> (r matches Ok(h) && h@ == crate::hash::Hash::zero_view()),
        entries@.len() == 1 ==> (if entries@[0].0.is_leaf_spec() {
            r matches Ok(h) && h@ == sha256(entries@[0].0.raw() + entries@[0].1@)
        } else {
            r == Err::<crate::hash::Hash, MapProofError>(MapProofError::NonTerminalNode)
        }),
        forall|t: Tree|
            #[trigger] makes_up(entries@, t) && (entries@.len() >= 2 || t is Leaf) ==> (r matches Ok(
                h,
            ) && h@ == t.root_hash()),
{
    let n: usize = entries.len();
    if n == 0 {
        proof {
            assert forall|t: Tree| #[trigger] makes_up(entries@, t) implies false by {
                let f = choose|f: Seq<Tree>| frontier_ok(f, t) && stands_for(entries@, f);
                lemma_frontier(f, t);
            }
        }
        return Ok(crate::hash::Hash::zero());
    }
    if n == 1 {
        if !entries[0].0.is_leaf() {
            proof {
                assert forall|t: Tree| #[trigger] makes_up(entries@, t) && t is Leaf implies false by {
                    let f = choose|f: Seq<Tree>| frontier_ok(f, t) && stands_for(entries@, f);
                    lemma_frontier(f, t);
                    lemma_part(entries@[0].0, t);
                }
            }
            return Err(MapProofError::NonTerminalNode);
        }
        let mut bytes: Vec<u8> = vstd::slice::slice_to_vec(entries[0].0.as_bytes());
        bytes.extend_from_slice(entries[0].1.as_bytes());
        proof {
            entries@[0].1.lemma_view();
            assert(bytes@ =~= entries@[0].0.raw() + entries@[0].1@);
            assert forall|t: Tree| #[trigger] makes_up(entries@, t) && t is Leaf implies sha256(
                bytes@,
            ) == t.root_hash() by {
                let f = choose|f: Seq<Tree>| frontier_ok(f, t) && stands_for(entries@, f);
                lemma_frontier(f, t);
            }
        }
        return Ok(hash(bytes.as_slice()));
    }
    proof {
        assert(entries@.subrange(0, n as int) =~= entries@);
    }
    match fold_range(entries, 0, n) {
        Ok(e) => Ok(e.1),
        Err(e) => Err(e),
    }
}

/// What the order of two subtrees says of their paths: the path of the
/// left one comes first, and neither path begins with the other.
pub proof fn lemma_path_order(a: ProofPath, x: Tree, b: ProofPath, y: Tree)
    requires
        a.wf(),
        b.wf(),
        a.spec_start() == 0,
        b.spec_start() == 0,
        x.valid(),
        y.valid(),
        a.raw() == x.node_key(),
        b.raw() == y.node_key(),
        stands_left(x, y),
    ensures
        spec_compare_paths(&a, &b) == Order::Less,
        spec_compare_paths(&b, &a) == Order::Greater,
        a.spec_common_prefix(&b) < a.spec_len(),
        a.spec_common_prefix(&b) < b.spec_len(),
        b.spec_common_prefix(&a) < a.spec_len(),
        b.spec_common_prefix(&a) < b.spec_len(),
{
    let d = diverge(x.first_key(), y.first_key(), 0, 256);
    lemma_part(a, x);
    lemma_part(b, y);
    lemma_diverge(x.first_key(), y.first_key(), 0, 256);
    crate::proof_map_index::key::lemma_common_prefix_diverge(a, b);
    crate::proof_map_index::key::lemma_common_prefix_symmetric(a, b);
    let limit = if a.spec_end() < b.spec_end() {
        a.spec_end()
    } else {
        b.spec_end()
    };
    assert forall|p: int| 0 <= p < d implies key_bit(a.key(), p) == key_bit(b.key(), p) by {
        assert(key_bit(a.key(), p) == key_bit(x.first_key(), p));
        assert(key_bit(b.key(), p) == key_bit(y.first_key(), p));
    }
    assert(key_bit(a.key(), d) == key_bit(x.first_key(), d));
    assert(key_bit(b.key(), d) == key_bit(y.first_key(), d));
    lemma_diverge_is(a.key(), b.key(), 0, limit, d);
}

/// What is wrong with part `i` where it stands: it does not start at bit
/// 0, or it does not come after the part before it, or it begins with the
/// path of that part.
pub open spec fn order_fault(parts: Seq<(ProofPath, crate::hash::Hash)>, i: int) -> Option<
    MapProofError,
> {
    if parts[i].0.spec_start() != 0 {
        Some(MapProofError::MalformedStructure)
    } else if i > 0 {
        match spec_compare_paths(&parts[i - 1].0, &parts[i].0) {
            Order::Less => if parts[i].0.spec_common_prefix(&parts[i - 1].0) == parts[i
                - 1].0.spec_len() {
                Some(MapProofError::EmbeddedKey)
            } else {
                None
            },
            Order::Equal => Some(MapProofError::DuplicateEntry),
            Order::Greater => Some(MapProofError::MalformedStructure),
        }
    } else {
        None
    }
}

/// What is wrong with the first of the first `n` parts with which
/// something is wrong.
pub open spec fn first_fault(parts: Seq<(ProofPath, crate::hash::Hash)>, n: int) -> Option<
    MapProofError,
>
    decreases n,
{
    if n <= 0 {
        None
    } else {
        match first_fault(parts, n - 1) {
            Some(e) => Some(e),
            None => order_fault(parts, n - 1),
        }
    }
}

/// A fault among the first parts is the first fault among more parts.
pub proof fn lemma_first_fault(parts: Seq<(ProofPath, crate::hash::Hash)>, n: int, m: int)
    requires
        0 <= n <= m,
        first_fault(parts, n) is Some,
    ensures
        first_fault(parts, m) == first_fault(parts, n),
    decreases m - n,
{
    if n < m {
        lemma_first_fault(parts, n, m - 1);
    }
}

/// Checks that the parts start at bit 0 and stand in the order of their
/// paths, none at the beginning of the next. Returns what is wrong with
/// them, if anything.
///
/// Parts that are subtrees which stand in order pass.
pub fn check_order(parts: &Vec<(ProofPath, crate::hash::Hash)>) -> (r: Option<MapProofError>)
    ensures
        r == first_fault(parts@, parts@.len() as int),
        r is None ==> all_from_zero(parts@),
        parts@.len() == 0 ==> r is None,
        forall|f: Seq<Tree>|
            #[trigger] stands_for(parts@, f) && ordered_trees(f) && (forall|i: int|
                0 <= i < f.len() ==> (#[trigger] f[i]).valid()) ==> r is None,
{
    let np: usize = parts.len();
    let mut i: usize = 0;
    while i < np
        invariant
            i <= np,
            np == parts@.len(),
            forall|t: int| 0 <= t < i ==> (#[trigger] parts@[t]).0.spec_start() == 0,
            first_fault(parts@, i as int) is None,
        decreases np - i,
    {
        let e = parts[i];
        proof {
            use_type_invariant(&e.0);
            if first_fault(parts@, i as int + 1) is Some {
                lemma_first_fault(parts@, i as int + 1, np as int);
            }
        }
        if e.0.start() != 0 {
            return Some(MapProofError::MalformedStructure);
        }
        if i > 0 {
            let prev = &parts[i - 1].0;
            proof {
                use_type_invariant(prev);
                assert forall|f: Seq<Tree>|
                    #[trigger] stands_for(parts@, f) && ordered_trees(f) && (forall|i: int|
                        0 <= i < f.len() ==> (#[trigger] f[i]).valid()) implies spec_compare_paths(
                    prev,
                    &e.0,
                ) == Order::Less && e.0.spec_common_prefix(prev) < prev.spec_len() by {
                    assert(stands_left(f[i - 1], f[i as int]));
                    lemma_path_order(*prev, f[i - 1], e.0, f[i as int]);
                }
            }
            match compare_paths(prev, &e.0) {
                Order::Less => {
                    if e.0.common_prefix(prev) == prev.len() {
                        return Some(MapProofError::EmbeddedKey);
                    }
                },
                Order::Equal => {
                    return Some(MapProofError::DuplicateEntry);
                },
                Order::Greater => {
                    return Some(MapProofError::MalformedStructure);
                },
            }
        }
        i += 1;
    }
    None
}

/// Whether one of the parts holds the path `path`: the path begins with
/// the path of the part.
pub open spec fn held(parts: Seq<(ProofPath, crate::hash::Hash)>, path: ProofPath) -> bool {
    exists|j: int|
        0 <= j < parts.len() && path.spec_common_prefix(&(#[trigger] parts[j]).0)
            == parts[j].0.spec_len()
}

/// Returns `true` if one of the parts holds the path `path`: the path
/// begins with the path of the part.
///
/// No part that is a subtree from which the key of the path parts before
/// the end of the subtree holds the path.
pub fn holds_path(parts: &Vec<(ProofPath, crate::hash::Hash)>, path: &ProofPath) -> (r: bool)
    requires
        all_from_zero(parts@),
        path.spec_start() == 0,
        path.is_leaf_spec(),
    ensures
        r == held(parts@, *path),
        parts@.len() == 0 ==> !r,
        forall|f: Seq<Tree>|
            #[trigger] stands_for(parts@, f) && (forall|i: int|
                0 <= i < f.len() ==> (#[trigger] f[i]).valid() && diverge(
                    f[i].first_key(),
                    path.key(),
                    0,
                    f[i].end(),
                ) < f[i].end()) ==> !r,
{
    proof {
        use_type_invariant(path);
    }
    let ni: usize = parts.len();
    let mut t: usize = 0;
    while t < ni
        invariant
            t <= ni,
            ni == parts@.len(),
            all_from_zero(parts@),
            path.wf(),
            path.spec_start() == 0,
            path.is_leaf_spec(),
            forall|j: int|
                0 <= j < t ==> path.spec_common_prefix(&(#[trigger] parts@[j]).0)
                    != parts@[j].0.spec_len(),
        decreases ni - t,
    {
        let part = parts[t].0;
        proof {
            use_type_invariant(&part);
            assert forall|f: Seq<Tree>|
                #[trigger] stands_for(parts@, f) && (forall|i: int|
                    0 <= i < f.len() ==> (#[trigger] f[i]).valid() && diverge(
                        f[i].first_key(),
                        path.key(),
                        0,
                        f[i].end(),
                    ) < f[i].end()) implies path.spec_common_prefix(&part) < part.spec_len() by {
                let s = f[t as int];
                assert(s.valid());
                lemma_part(part, s);
                crate::proof_map_index::key::lemma_common_prefix_diverge(*path, part);
                lemma_diverge(s.first_key(), path.key(), 0, s.end());
                let d = diverge(s.first_key(), path.key(), 0, s.end());
                assert forall|p: int| 0 <= p < d implies key_bit(path.key(), p) == key_bit(
                    part.key(),
                    p,
                ) by {
                    assert(key_bit(part.key(), p) == key_bit(s.first_key(), p));
                }
                assert(key_bit(part.key(), d) == key_bit(s.first_key(), d));
                lemma_diverge_is(path.key(), part.key(), 0, s.end(), d);
            }
        }
        if path.common_prefix(&part) == part.len() {
            return true;
        }
        t += 1;
    }
    false
}

/// The keys from entry `from` on for which a proof has a value.
pub open spec fn found_keys(entries: Seq<(Seq<u8>, Option<Seq<u8>>)>, from: int) -> Set<Seq<u8>> {
    Set::new(
        |k: Seq<u8>|
            exists|i: int|
                from <= i < entries.len() && (#[trigger] entries[i]).0 == k && entries[i].1 is Some,
    )
}

/// The keys of the entries of a proof.
pub open spec fn key_seq(entries: Seq<(Seq<u8>, Option<Seq<u8>>)>) -> Seq<Seq<u8>> {
    Seq::new(entries.len(), |i: int| entries[i].0)
}

/// A proof that keys are, or are not, in a map.
pub struct MapProof<K, V> {
    entries: Vec<(K, Option<Vec<u8>>)>,
    proof: Vec<(ProofPath, crate::hash::Hash)>,
    _v: PhantomData<V>,
}

impl<K: ProofMapKey, V: StorageValue> MapProof<K, V> {
    /// The keys asked for, each with the stored value if the map has one.
    pub closed spec fn spec_entries(&self) -> Seq<(Seq<u8>, Option<Seq<u8>>)> {
        Seq::new(
            self.entries@.len(),
            |i: int|
                (
                    self.entries@[i].0.spec_bytes(),
                    match self.entries@[i].1 {
                        Some(v) => Some(v@),
                        None => None,
                    },
                ),
        )
    }

    /// The parts of the tree that are known by their hashes only.
    pub closed spec fn spec_proof(&self) -> Seq<(ProofPath, crate::hash::Hash)> {
        self.proof@
    }

    /// What every proof from a map satisfies: the paths of its parts
    /// start at bit 0.
    pub open spec fn wf(&self) -> bool {
        all_from_zero(self.spec_proof())
    }

    /// Whether the proof shows its keys in the valid tree `t`, cut into
    /// the subtrees `f`: the parts are those of `f` but the leaves of the
    /// keys found; each key found has its leaf among `f`, with the hash of
    /// a value that can be read and hashed, and stands once among the
    /// keys; each key said to be missing parts from every subtree of `f`
    /// before the end of that subtree. A branch is cut into more than one
    /// subtree.
    pub open spec fn shows(&self, f: Seq<Tree>, t: Tree) -> bool {
        let e = self.spec_entries();
        &&& t.valid()
        &&& frontier_ok(f, t)
        &&& (f.len() >= 2 || t is Leaf)
        &&& stands_for(self.spec_proof(), unlisted(f, found_keys(e, 0)))
        &&& forall|i: int|
            0 <= i < e.len() ==> match (#[trigger] e[i]).1 {
                Some(v) => V::is_encoding(v) && hashable(v.len()) && exists|p: int|
                    0 <= p < f.len() && #[trigger] f[p] == (Tree::Leaf {
                        key: e[i].0,
                        hash: V::spec_hash(v),
                    }),
                None => forall|p: int|
                    0 <= p < f.len() ==> diverge(
                        (#[trigger] f[p]).first_key(),
                        e[i].0,
                        0,
                        f[p].end(),
                    ) < f[p].end(),
            }
        &&& forall|i: int, j: int|
            0 <= i < j < e.len() && (#[trigger] e[i]).1 is Some && (#[trigger] e[j]).1 is Some
                ==> e[i].0 != e[j].0
    }

    /// Whether the proof is what the walk for one key gives in the valid
    /// tree `t`: the parts are the subtrees to the left and to the right
    /// of the walk; the key has a value if and only if the tree has the
    /// key, and the tree has the hash of that value, which can be read and
    /// hashed.
    pub open spec fn walks(&self, t: Tree) -> bool {
        let e = self.spec_entries();
        &&& t.valid()
        &&& e.len() == 1
        &&& e[0].0.len() == 32
        &&& stands_for(self.spec_proof(), t.lefts(e[0].0) + t.rights(e[0].0))
        &&& match e[0].1 {
            Some(v) => t.entries().contains_key(e[0].0) && V::is_encoding(v) && hashable(v.len())
                && V::spec_hash(v) == t.entries()[e[0].0],
            None => !t.entries().contains_key(e[0].0),
        }
    }

    /// What the walk for one key gives shows the key in the tree, cut by
    /// the walk.
    pub proof fn lemma_walk_shows(&self, t: Tree)
        requires
            self.walks(t),
        ensures
            self.shows(t.cut(self.spec_entries()[0].0), t),
    {
        let e = self.spec_entries();
        let k = e[0].0;
        let f = t.cut(k);
        let fk = found_keys(e, 0);
        let nl = t.lefts(k).len() as int;
        t.lemma_cut(k);
        assert forall|i: int| 0 <= i < t.lefts(k).len() implies !((#[trigger] t.lefts(k)[i]) is Leaf
            && fk.contains(t.lefts(k)[i].first_key())) by {
            let x = t.lefts(k)[i];
            if x is Leaf && fk.contains(x.first_key()) {
                lemma_diverge(x.first_key(), k, 0, x.end());
            }
        }
        assert forall|i: int|
            0 <= i < t.rights(k).len() implies !((#[trigger] t.rights(k)[i]) is Leaf && fk.contains(
            t.rights(k)[i].first_key(),
        )) by {
            let x = t.rights(k)[i];
            if x is Leaf && fk.contains(x.first_key()) {
                lemma_diverge(x.first_key(), k, 0, x.end());
            }
        }
        lemma_unlisted_nothing(t.lefts(k), fk);
        lemma_unlisted_nothing(t.rights(k), fk);
        lemma_unlisted_add(t.lefts(k) + t.middle(k), t.rights(k), fk);
        lemma_unlisted_add(t.lefts(k), t.middle(k), fk);
        assert(unlisted(Seq::<Tree>::empty(), fk) =~= Seq::<Tree>::empty());
        match e[0].1 {
            Some(v) => {
                let leaf = Tree::Leaf { key: k, hash: V::spec_hash(v) };
                assert(fk.contains(k));
                assert(t.middle(k) =~= seq![leaf]);
                assert(seq![leaf].drop_last() =~= Seq::<Tree>::empty());
                assert(seq![leaf].last() == leaf);
                assert(unlisted(seq![leaf], fk) =~= Seq::<Tree>::empty());
                assert(f[nl] == leaf);
            },
            None => {
                assert(t.middle(k) =~= Seq::<Tree>::empty());
                assert forall|p: int| 0 <= p < f.len() implies diverge(
                    (#[trigger] f[p]).first_key(),
                    k,
                    0,
                    f[p].end(),
                ) < f[p].end() by {
                    if p < nl {
                        assert(f[p] == t.lefts(k)[p]);
                    } else {
                        assert(f[p] == t.rights(k)[p - nl]);
                    }
                }
            },
        }
        assert(unlisted(f, fk) =~= t.lefts(k) + t.rights(k));
    }

    /// The parts with the leaves of the keys found among the first `j`
    /// keys put among them, one after the other, each with the hash of its
    /// value; or what is wrong with the first key with which something is
    /// wrong: its value cannot be read or hashed, or its leaf has no place
    /// among the parts.
    pub open spec fn placed(&self, j: int) -> Result<
        Seq<(ProofPath, crate::hash::Hash)>,
        MapProofError,
    >
        decreases j,
    {
        if j <= 0 {
            Ok(self.spec_proof())
        } else {
            match self.placed(j - 1) {
                Err(e) => Err(e),
                Ok(items) => match self.spec_entries()[j - 1].1 {
                    None => Ok(items),
                    Some(v) => if !hashable(v.len()) || !V::is_encoding(v) {
                        Err(MapProofError::MalformedStructure)
                    } else {
                        let path = ProofPath::spec_new(self.spec_entries()[j - 1].0);
                        match leaf_place(items, path, 0) {
                            Err(e) => Err(e),
                            Ok(at) => Ok(
                                items.insert(
                                    at,
                                    (path, crate::hash::Hash::spec_from(V::spec_hash(v))),
                                ),
                            ),
                        }
                    },
                },
            }
        }
    }

    /// What is wrong with a key among the first keys is what is wrong with
    /// the first key with which something is wrong among more keys.
    pub proof fn lemma_placed(&self, j: int, n: int)
        requires
            0 <= j <= n,
            self.placed(j) is Err,
        ensures
            self.placed(n) == self.placed(j),
        decreases n - j,
    {
        if j < n {
            self.lemma_placed(j, n - 1);
        }
    }

    /// Whether one of `items` holds the path of a key that is said to be
    /// missing.
    pub open spec fn holds_missing(&self, items: Seq<(ProofPath, crate::hash::Hash)>) -> bool {
        exists|m: int|
            0 <= m < self.spec_entries().len() && (#[trigger] self.spec_entries()[m]).1 is None
                && held(items, ProofPath::spec_new(self.spec_entries()[m].0))
    }

    /// Why the proof does not hold against the root hash `root`; `None`
    /// where it holds. It holds where nothing is wrong with the order of
    /// the parts, the leaves of the keys found have their places among
    /// them, no part holds the path of a key that is said to be missing,
    /// and the root hash of the tree that the parts and leaves make up is
    /// `root`.
    pub open spec fn fault(&self, root: Seq<u8>) -> Option<MapProofError> {
        match first_fault(self.spec_proof(), self.spec_proof().len() as int) {
            Some(e) => Some(e),
            None => match self.placed(self.spec_entries().len() as int) {
                Err(e) => Some(e),
                Ok(items) => if self.holds_missing(items) {
                    Some(MapProofError::EmbeddedKey)
                } else {
                    match collected(items) {
                        Err(e) => Some(e),
                        Ok(h) => if h == root {
                            None
                        } else {
                            Some(MapProofError::HashMismatch)
                        },
                    }
                },
            },
        }
    }

    /// Whether the proof shows that its keys are missing in a map without
    /// keys: it has no part, and a value for no key.
    pub open spec fn shows_nothing(&self) -> bool {
        &&& self.spec_proof().len() == 0
        &&& forall|i: int|
            0 <= i < self.spec_entries().len() ==> (#[trigger] self.spec_entries()[i]).1 is None
    }

    /// Creates the proof of nothing.
    pub fn new() -> (r: MapProof<K, V>)
        ensures
            r.spec_entries().len() == 0,
            r.spec_proof().len() == 0,
    {
        MapProof { entries: Vec::new(), proof: Vec::new(), _v: PhantomData }
    }

    /// Creates the proof for one key from its value as it is stored and
    /// the parts of the tree beside the walk to it.
    pub fn from_parts(key: K, value: Option<Vec<u8>>, proof: Vec<(ProofPath, crate::hash::Hash)>) -> (r:
        MapProof<K, V>)
        ensures
            r.spec_entries().len() == 1,
            r.spec_entries()[0].0 == key.spec_bytes(),
            r.spec_entries()[0].1 == (match value {
                Some(v) => Some(v@),
                None => None,
            }),
            r.spec_proof() == proof@,
    {
        let mut entries: Vec<(K, Option<Vec<u8>>)> = Vec::new();
        entries.push((key, value));
        MapProof { entries, proof, _v: PhantomData }
    }

    /// Adds the keys and the parts of `other` after those of this proof.
    pub fn merge(&mut self, other: MapProof<K, V>)
        ensures
            final(self).spec_entries() == old(self).spec_entries() + other.spec_entries(),
            final(self).spec_proof() == old(self).spec_proof() + other.spec_proof(),
    {
        let ghost e0 = self.spec_entries();
        let ghost e1 = other.spec_entries();
        let MapProof { entries, proof, _v } = other;
        let mut entries = entries;
        let mut proof = proof;
        self.entries.append(&mut entries);
        self.proof.append(&mut proof);
        assert(self.spec_entries() =~= e0 + e1);
    }

    /// Adds `parts` after the parts of this proof.
    pub fn add_parts(&mut self, parts: Vec<(ProofPath, crate::hash::Hash)>)
        ensures
            final(self).spec_entries() == old(self).spec_entries(),
            final(self).spec_proof() == old(self).spec_proof() + parts@,
    {
        let mut parts = parts;
        let ghost e0 = self.spec_entries();
        self.proof.append(&mut parts);
        assert(self.spec_entries() =~= e0);
    }

    /// Returns the number of keys that the proof speaks of.
    pub fn len(&self) -> (n: usize)
        ensures
            n == self.spec_entries().len(),
    {
        self.entries.len()
    }

    /// Returns key `i` of the proof.
    pub fn key_at(&self, i: usize) -> (r: &K)
        requires
            i < self.spec_entries().len(),
        ensures
            r.spec_bytes() == self.spec_entries()[i as int].0,
    {
        &self.entries[i].0
    }

    /// Returns the value of key `i` as the proof has it: `None` for a key
    /// that is said to be missing, or where what the proof holds is no
    /// encoding of a `V`.
    pub fn value_at(&self, i: usize) -> (r: Option<V>)
        requires
            i < self.spec_entries().len(),
        ensures
            r is Some <==> (self.spec_entries()[i as int].1 matches Some(b) && V::is_encoding(b)),
            r matches Some(v) ==> Some(v.spec_bytes()) == self.spec_entries()[i as int].1,
    {
        match &self.entries[i].1 {
            Some(bytes) => V::from_bytes(bytes.as_slice()),
            None => None,
        }
    }

    /// Returns the number of parts that the proof lists.
    pub fn proof_len(&self) -> (n: usize)
        ensures
            n == self.spec_proof().len(),
    {
        self.proof.len()
    }

    /// Returns part `i` of the proof: its path and its hash.
    pub fn proof_at(&self, i: usize) -> (r: (ProofPath, crate::hash::Hash))
        requires
            i < self.spec_proof().len(),
        ensures
            r == self.spec_proof()[i as int],
    {
        self.proof[i]
    }

    /// Checks the proof against the root hash `root` of a map, and returns
    /// the keys with their values if it holds.
    ///
    /// The parts have to stand in the order of their paths, none within
    /// another. The leaves of the keys found are put among them, each
    /// with the hash of its value. No part may hold the path of a key that
    /// is said to be missing. The root hash of the tree that these make up
    /// has to be `root`.
    ///
    /// A proof that shows its keys in a tree holds against the root hash
    /// of that tree, and one that shows nothing holds against the hash of
    /// zeros.
    pub fn verify(&self, root: &crate::hash::Hash) -> (r: Result<
        Vec<(K, Option<V>)>,
        MapProofError,
    >)
        ensures
            match self.fault(root@) {
                None => r is Ok,
                Some(e) => r matches Err(y) && y == e,
            },
            r matches Ok(found) ==> found@.len() == self.spec_entries().len() && forall|i: int|
                0 <= i < found@.len() ==> (#[trigger] found@[i]).0.spec_bytes()
                    == self.spec_entries()[i].0 && (match found@[i].1 {
                    Some(v) => Some(v.spec_bytes()) == self.spec_entries()[i].1,
                    None => self.spec_entries()[i].1 is None,
                }),
            forall|f: Seq<Tree>, t: Tree| #[trigger]
                self.shows(f, t) && root@ == t.root_hash() ==> r is Ok,
            self.shows_nothing() && root@ == crate::hash::Hash::zero_view() ==> r is Ok,
    {
        let ghost e = self.spec_entries();
        let ghost good = exists|w: (Seq<Tree>, Tree)|
            self.shows(w.0, w.1) && root@ == w.1.root_hash();
        let ghost w = choose|w: (Seq<Tree>, Tree)| self.shows(w.0, w.1) && root@ == w.1.root_hash();
        let ghost f = w.0;
        let ghost t = w.1;
        let ghost blank = self.shows_nothing() && root@ == crate::hash::Hash::zero_view();
        proof {
            assert forall|f0: Seq<Tree>, t0: Tree| #[trigger]
                self.shows(f0, t0) && root@ == t0.root_hash() implies good by {
                let w0 = (f0, t0);
                assert(self.shows(w0.0, w0.1) && root@ == w0.1.root_hash());
            }
            if good {
                lemma_frontier_ordered(f, t);
                lemma_unlisted_ordered(f, found_keys(e, 0));
                let u = unlisted(f, found_keys(e, 0));
                assert forall|i: int| 0 <= i < u.len() implies (#[trigger] u[i]).valid() by {
                    let j = choose|j: int| 0 <= j < f.len() && #[trigger] f[j] == u[i];
                }
            }
        }
        // The parts in the order of their paths, none within another.
        match check_order(&self.proof) {
            Some(e) => {
                return Err(e);
            },
            None => {},
        }
        let mut items: Vec<(ProofPath, crate::hash::Hash)> = Vec::new();
        let np: usize = self.proof.len();
        let mut i: usize = 0;
        while i < np
            invariant
                i <= np,
                np == self.proof@.len(),
                items@.len() == i,
                forall|t: int| 0 <= t < i ==> items@[t] == self.proof@[t],
            decreases np - i,
        {
            items.push(self.proof[i]);
            i += 1;
        }
        assert(items@ =~= self.proof@);
        // The leaves of the keys found.
        let ne: usize = self.entries.len();
        let mut found: Vec<(K, Option<V>)> = Vec::new();
        let mut j: usize = 0;
        while j < ne
            invariant
                j <= ne,
                ne == self.entries@.len(),
                e == self.spec_entries(),
                all_from_zero(items@),
                found@.len() == j,
                forall|t: int|
                    0 <= t < j ==> (#[trigger] found@[t]).0.spec_bytes()
                        == self.spec_entries()[t].0 && (match found@[t].1 {
                        Some(v) => Some(v.spec_bytes()) == self.spec_entries()[t].1,
                        None => self.spec_entries()[t].1 is None,
                    }),
                blank == (self.shows_nothing() && root@ == crate::hash::Hash::zero_view()),
                forall|f0: Seq<Tree>, t0: Tree| #[trigger]
                    self.shows(f0, t0) && root@ == t0.root_hash() ==> good,
                good ==> forall|i: int| 0 <= i < f.len() ==> (#[trigger] f[i]).valid(),
                first_fault(self.spec_proof(), self.spec_proof().len() as int) is None,
                self.placed(j as int) == Ok::<Seq<(ProofPath, crate::hash::Hash)>, MapProofError>(
                    items@,
                ),
                good ==> self.shows(f, t) && ordered_trees(f) && stands_for(
                    items@,
                    unlisted(f, found_keys(e, j as int)),
                ),
                blank ==> self.shows_nothing() && items@.len() == 0,
            decreases ne - j,
        {
            proof {
                self.entries@[j as int].0.lemma_encoding();
                self.entries@[j as int].0.lemma_key_size();
                assert(e[j as int].0 == self.entries@[j as int].0.spec_bytes());
            }
            let key: K = match K::read(crate::keys::key_bytes(&self.entries[j].0).as_slice()) {
                Some(k) => k,
                None => {
                    return Err(MapProofError::MalformedStructure);
                },
            };
            let path = ProofPath::new(&key);
            match &self.entries[j].1 {
                Some(bytes) => {
                    proof {
                        assert(e[j as int].1 == Some(bytes@));
                    }
                    proof {
                        if self.placed(j + 1) is Err {
                            self.lemma_placed(j + 1, ne as int);
                        }
                    }
                    if bytes.len() as u64 >= HASH_INPUT_LIMIT {
                        return Err(MapProofError::MalformedStructure);
                    }
                    let value: V = match V::from_bytes(bytes.as_slice()) {
                        Some(v) => v,
                        None => {
                            return Err(MapProofError::MalformedStructure);
                        },
                    };
                    let h = value.hash();
                    proof {
                        crate::hash::Hash::lemma_spec_from(h);
                        if good {
                            lemma_leaf_fits::<V>(e, f, t, j as int, items@, path, h);
                        }
                    }
                    match place_leaf(&mut items, path, h) {
                        Some(e) => {
                            return Err(e);
                        },
                        None => {},
                    }
                    found.push((key, Some(value)));
                },
                None => {
                    proof {
                        assert(e[j as int].1 is None);
                        assert(found_keys(e, j as int) =~= found_keys(e, j + 1));
                    }
                    found.push((key, None));
                },
            }
            j += 1;
        }
        proof {
            if good {
                lemma_unlisted_nothing(f, found_keys(e, ne as int));
                lemma_frontier(f, t);
            }
        }
        // No part holds the path of a key that is said to be missing.
        let mut m: usize = 0;
        while m < ne
            invariant
                m <= ne,
                ne == self.entries@.len(),
                e == self.spec_entries(),
                all_from_zero(items@),
                blank == (self.shows_nothing() && root@ == crate::hash::Hash::zero_view()),
                forall|f0: Seq<Tree>, t0: Tree| #[trigger]
                    self.shows(f0, t0) && root@ == t0.root_hash() ==> good,
                good ==> forall|i: int| 0 <= i < f.len() ==> (#[trigger] f[i]).valid(),
                good ==> self.shows(f, t) && stands_for(items@, f),
                blank ==> items@.len() == 0,
                first_fault(self.spec_proof(), self.spec_proof().len() as int) is None,
                self.placed(ne as int) == Ok::<Seq<(ProofPath, crate::hash::Hash)>, MapProofError>(
                    items@,
                ),
                forall|u: int|
                    0 <= u < m ==> !((#[trigger] e[u]).1 is None && held(
                        items@,
                        ProofPath::spec_new(e[u].0),
                    )),
            decreases ne - m,
        {
            if self.entries[m].1.is_none() {
                let path = ProofPath::new(&self.entries[m].0);
                proof {
                    assert(e[m as int].0 == self.entries@[m as int].0.spec_bytes());
                    assert(e[m as int].1 is None);
                }
                if holds_path(&items, &path) {
                    proof {
                        assert(self.holds_missing(items@));
                    }
                    return Err(MapProofError::EmbeddedKey);
                }
            } else {
                proof {
                    assert(e[m as int].1 is Some);
                }
            }
            m += 1;
        }
        proof {
            assert(!self.holds_missing(items@));
        }
        proof {
            if good {
                assert(frontier_ok(f, t) && stands_for(items@, f));
                assert(makes_up(items@, t));
            }
        }
        match collect(&items) {
            Ok(h) => {
                if h == *root {
                    Ok(found)
                } else {
                    Err(MapProofError::HashMismatch)
                }
            },
            Err(e) => Err(e),
        }
    }
}

/// Where a proof shows its keys in a tree and the leaves of the keys found
/// before entry `j` stand among the parts already, the leaf of entry `j`
/// fits among them, and the parts with it are those without the leaves of
/// the keys found after entry `j`.
pub proof fn lemma_leaf_fits<V: StorageValue>(
    e: Seq<(Seq<u8>, Option<Seq<u8>>)>,
    f: Seq<Tree>,
    t: Tree,
    j: int,
    items: Seq<(ProofPath, crate::hash::Hash)>,
    path: ProofPath,
    h: crate::hash::Hash,
)
    requires
        0 <= j < e.len(),
        e[j].1 is Some,
        ordered_trees(f),
        forall|i: int| 0 <= i < f.len() ==> (#[trigger] f[i]).valid(),
        exists|p: int|
            0 <= p < f.len() && #[trigger] f[p] == (Tree::Leaf {
                key: e[j].0,
                hash: V::spec_hash(e[j].1->0),
            }),
        forall|i: int|
            j < i < e.len() && (#[trigger] e[i]).1 is Some ==> e[i].0 != e[j].0,
        stands_for(items, unlisted(f, found_keys(e, j))),
        path.wf(),
        path.spec_start() == 0,
        path.raw() == raw_of(crate::proof_map_index::key::LEAF_KEY_PREFIX, e[j].0, 0),
        h@ == V::spec_hash(e[j].1->0),
    ensures
        exists|fl: Seq<Tree>, fr: Seq<Tree>, leaf: Tree| #[trigger]
            fits(items, fl, fr, leaf, path, h) && fl + seq![leaf] + fr == unlisted(
                f,
                found_keys(e, j + 1),
            ),
{
    let key = e[j].0;
    let leaf = Tree::Leaf { key, hash: V::spec_hash(e[j].1->0) };
    let p = choose|p: int| 0 <= p < f.len() && #[trigger] f[p] == leaf;
    let fa = f.subrange(0, p);
    let fb = f.subrange(p + 1, f.len() as int);
    let now = found_keys(e, j);
    let then = found_keys(e, j + 1);
    assert(now.contains(key));
    assert(!then.contains(key));
    assert(f =~= fa + seq![leaf] + fb);
    lemma_unlisted_add(fa + seq![leaf], fb, now);
    lemma_unlisted_add(fa, seq![leaf], now);
    lemma_unlisted_add(fa + seq![leaf], fb, then);
    lemma_unlisted_add(fa, seq![leaf], then);
    assert(seq![leaf].drop_last() =~= Seq::<Tree>::empty());
    assert(seq![leaf].last() == leaf);
    assert(unlisted(Seq::<Tree>::empty(), now) =~= Seq::<Tree>::empty());
    assert(unlisted(Seq::<Tree>::empty(), then) =~= Seq::<Tree>::empty());
    assert(unlisted(seq![leaf], now) =~= Seq::<Tree>::empty());
    assert(unlisted(seq![leaf], then) =~= seq![leaf]);
    assert forall|i: int| 0 <= i < fa.len() && (#[trigger] fa[i]) is Leaf implies now.contains(
        fa[i].first_key(),
    ) == then.contains(fa[i].first_key()) by {
        assert(fa[i] == f[i]);
        assert(stands_left(f[i], f[p]));
        lemma_keys_from::<V>(e, j, fa[i].first_key());
    }
    assert forall|i: int| 0 <= i < fb.len() && (#[trigger] fb[i]) is Leaf implies now.contains(
        fb[i].first_key(),
    ) == then.contains(fb[i].first_key()) by {
        assert(fb[i] == f[p + 1 + i]);
        assert(stands_left(f[p], f[p + 1 + i]));
        lemma_keys_from::<V>(e, j, fb[i].first_key());
    }
    lemma_unlisted_same(fa, now, then);
    lemma_unlisted_same(fb, now, then);
    let fl = unlisted(fa, then);
    let fr = unlisted(fb, then);
    assert(unlisted(f, now) =~= fl + fr);
    assert(unlisted(f, then) =~= fl + seq![leaf] + fr);
    lemma_unlisted_ordered(f, then);
    let g = fl + seq![leaf] + fr;
    assert forall|i: int| 0 <= i < g.len() implies (#[trigger] g[i]).valid() by {
        let u = choose|u: int| 0 <= u < f.len() && #[trigger] f[u] == g[i];
    }
    assert(path.raw() =~= leaf.node_key());
    assert(fits(items, fl, fr, leaf, path, h));
}

/// A key other than that of entry `j` is found from entry `j` on if and
/// only if it is found after entry `j`.
pub proof fn lemma_keys_from<V: StorageValue>(
    e: Seq<(Seq<u8>, Option<Seq<u8>>)>,
    j: int,
    k: Seq<u8>,
)
    requires
        0 <= j < e.len(),
        k != e[j].0,
    ensures
        found_keys(e, j).contains(k) == found_keys(e, j + 1).contains(k),
{
    if found_keys(e, j).contains(k) {
        let i = choose|i: int| j <= i < e.len() && (#[trigger] e[i]).0 == k && e[i].1 is Some;
        assert(j + 1 <= i);
    }
    if found_keys(e, j + 1).contains(k) {
        let i = choose|i: int| j + 1 <= i < e.len() && (#[trigger] e[i]).0 == k && e[i].1 is Some;
        assert(j <= i);
    }
}

/// Where the leaf with the path `path` goes among `items`, looked at from
/// item `i` on: before the first item that comes after it, or at the end;
/// or what the leaf does wrong: its path stands among the items already,
/// or begins with the path of an item before it.
pub open spec fn leaf_place(items: Seq<(ProofPath, crate::hash::Hash)>, path: ProofPath, i: int) -> Result<
    int,
    MapProofError,
>
    decreases items.len() - i,
{
    if i < 0 || i >= items.len() {
        Ok(items.len() as int)
    } else {
        match spec_compare_paths(&items[i].0, &path) {
            Order::Less => if path.spec_common_prefix(&items[i].0) == items[i].0.spec_len() {
                Err(MapProofError::EmbeddedKey)
            } else {
                leaf_place(items, path, i + 1)
            },
            Order::Equal => Err(MapProofError::DuplicateEntry),
            Order::Greater => Ok(i),
        }
    }
}

/// Puts the leaf of a key found at its place among `items`, which stand in
/// the order of their paths. Returns the error that the leaf makes: its
/// path stands among the items already, or begins with the path of an item
/// before it.
///
/// Where the items are subtrees and the leaf stands in order between the
/// first `n` and the others, the leaf is put there.
pub fn place_leaf(
    items: &mut Vec<(ProofPath, crate::hash::Hash)>,
    path: ProofPath,
    h: crate::hash::Hash,
) -> (r: Option<MapProofError>)
    requires
        path.spec_start() == 0,
        path.is_leaf_spec(),
        all_from_zero(old(items)@),
    ensures
        all_from_zero(final(items)@),
        match leaf_place(old(items)@, path, 0) {
            Ok(at) => r is None && 0 <= at <= old(items)@.len() && final(items)@ == old(
                items,
            )@.insert(at, (path, h)),
            Err(e) => r == Some(e) && final(items)@ == old(items)@,
        },
        forall|fl: Seq<Tree>, fr: Seq<Tree>, leaf: Tree|
            #[trigger] fits(old(items)@, fl, fr, leaf, path, h) ==> r is None && stands_for(
                final(items)@,
                fl + seq![leaf] + fr,
            ),
{
    proof {
        use_type_invariant(&path);
    }
    let ghost before = items@;
    let n: usize = items.len();
    let mut i: usize = 0;
    let mut at: usize = n;
    while i < n && at == n
        invariant
            i <= n,
            at <= n,
            at < n ==> at < i || i == n,
            n == items@.len(),
            items@ == before,
            all_from_zero(items@),
            path.wf(),
            path.spec_start() == 0,
            path.is_leaf_spec(),
            at == n ==> forall|j: int|
                0 <= j < i ==> spec_compare_paths(&(#[trigger] items@[j]).0, &path) == Order::Less,
            at == n ==> leaf_place(before, path, 0) == leaf_place(before, path, i as int),
            at < n ==> leaf_place(before, path, 0) == Ok::<int, MapProofError>(at as int),
            at < n ==> spec_compare_paths(&items@[at as int].0, &path) == Order::Greater
                && forall|j: int|
                0 <= j < at ==> spec_compare_paths(&(#[trigger] items@[j]).0, &path) == Order::Less,
        decreases n - i,
    {
        let item = items[i].0;
        proof {
            use_type_invariant(&item);
            assert forall|fl: Seq<Tree>, fr: Seq<Tree>, leaf: Tree| #[trigger]
                fits(before, fl, fr, leaf, path, h) implies (if i < fl.len() {
                spec_compare_paths(&item, &path) == Order::Less && path.spec_common_prefix(&item)
                    < item.spec_len()
            } else {
                spec_compare_paths(&item, &path) == Order::Greater
            }) by {
                let f = fl + seq![leaf] + fr;
                let nl = fl.len() as int;
                assert(f[nl] == leaf);
                assert(f[nl].valid());
                if i < nl {
                    assert(f[i as int] == fl[i as int]);
                    assert(f[i as int].valid());
                    assert((fl + fr)[i as int] == fl[i as int]);
                    assert(stands_left(f[i as int], f[nl]));
                    lemma_path_order(item, fl[i as int], path, leaf);
                } else {
                    assert(f[i + 1] == fr[i - nl]);
                    assert(f[i + 1].valid());
                    assert((fl + fr)[i as int] == fr[i - nl]);
                    assert(stands_left(f[nl], f[i + 1]));
                    lemma_path_order(path, leaf, item, fr[i - nl]);
                }
            }
        }
        match compare_paths(&item, &path) {
            Order::Less => {
                if path.common_prefix(&item) == item.len() {
                    return Some(MapProofError::EmbeddedKey);
                }
                i += 1;
            },
            Order::Equal => {
                return Some(MapProofError::DuplicateEntry);
            },
            Order::Greater => {
                at = i;
                i = n;
            },
        }
    }
    if at < n {
        items.insert(at, (path, h));
    } else {
        items.push((path, h));
    }
    proof {
        assert(items@ =~= before.insert(at as int, (path, h)));
        assert forall|j: int| 0 <= j < items@.len() implies (#[trigger] items@[j]).0.spec_start()
            == 0 by {
            if j < at {
                assert(items@[j] == before[j]);
            } else if j > at {
                assert(items@[j] == before[j - 1]);
            }
        }
        assert forall|fl: Seq<Tree>, fr: Seq<Tree>, leaf: Tree| #[trigger]
            fits(before, fl, fr, leaf, path, h) implies stands_for(
            items@,
            fl + seq![leaf] + fr,
        ) by {
            let f = fl + seq![leaf] + fr;
            let nl = fl.len() as int;
            // The leaf was put after the items before which it stands.
            assert(f[nl] == leaf);
            assert(f[nl].valid());
            if at < nl {
                assert((fl + fr)[at as int] == fl[at as int]);
                assert(f[at as int] == fl[at as int]);
                assert(f[at as int].valid());
                assert(stands_left(f[at as int], f[nl]));
                lemma_path_order(before[at as int].0, fl[at as int], path, leaf);
            }
            if at > nl {
                assert((fl + fr)[nl] == fr[0]);
                assert(f[nl + 1] == fr[0]);
                assert(f[nl + 1].valid());
                assert(stands_left(f[nl], f[nl + 1]));
                lemma_path_order(path, leaf, before[nl].0, fr[0]);
            }
            assert(at == nl);
            assert forall|j: int| 0 <= j < items@.len() implies (#[trigger] items@[j]).0.wf()
                && items@[j].0.spec_start() == 0 && items@[j].0.raw() == f[j].node_key()
                && items@[j].1@ == f[j].node_hash() by {
                if j < nl {
                    assert(items@[j] == before[j]);
                    assert((fl + fr)[j] == fl[j]);
                    assert(f[j] == fl[j]);
                } else if j > nl {
                    assert(items@[j] == before[j - 1]);
                    assert((fl + fr)[j - 1] == fr[j - 1 - nl]);
                    assert(f[j] == fr[j - 1 - nl]);
                } else {
                    assert(f[j] == leaf);
                }
            }
        }
    }
    None
}

/// Whether `items` are the subtrees `fl` followed by the subtrees `fr`, and
/// `leaf` is a leaf with the path `path` and the hash `h` that stands in
/// order between them.
pub open spec fn fits(
    items: Seq<(ProofPath, crate::hash::Hash)>,
    fl: Seq<Tree>,
    fr: Seq<Tree>,
    leaf: Tree,
    path: ProofPath,
    h: crate::hash::Hash,
) -> bool {
    &&& stands_for(items, fl + fr)
    &&& ordered_trees(fl + seq![leaf] + fr)
    &&& (forall|i: int|
        0 <= i < (fl + seq![leaf] + fr).len() ==> (#[trigger] (fl + seq![leaf] + fr)[i]).valid())
    &&& leaf is Leaf
    &&& path.wf()
    &&& path.spec_start() == 0
    &&& path.raw() == leaf.node_key()
    &&& h@ == leaf.node_hash()
}

} // verus!
