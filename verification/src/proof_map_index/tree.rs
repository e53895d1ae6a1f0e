//! The tree of a Merkelized map as a value: what the nodes in the store
//! stand for.
//!
//! A tree is a leaf, or a branch with two subtrees. The keys under a
//! branch share all bits before the end of its path; those on the left
//! have the bit at the end clear, those on the right have it set. A map has
//! one such tree only, whatever the order in which its keys came.

use vstd::prelude::*;

use crate::bits::{byte_bit, key_bit, lemma_bits_le, lemma_byte_ext, lemma_low_bits};
use crate::db::lookup;
use crate::lex::{lemma_first_byte, lemma_lex_le_transitive, lemma_pointwise_le, lex_le, lex_lt};
use crate::hash::{digest, sha256};
use crate::proof_map_index::key::{stored_form, BRANCH_KEY_PREFIX, LEAF_KEY_PREFIX};
use crate::proof_map_index::node::{branch_image, is_branch_image};

verus! {

/// A tree of keys with the hashes of their values.
pub enum Tree {
    /// One key with the hash of its value.
    Leaf { key: Seq<u8>, hash: Seq<u8> },
    /// Two subtrees whose keys part at bit `end`.
    Branch { end: int, left: Box<Tree>, right: Box<Tree> },
}

/// Whether the keys `a` and `b` have the same first `n` bits.
pub open spec fn agree(a: Seq<u8>, b: Seq<u8>, n: int) -> bool {
    forall|i: int| 0 <= i < n ==> key_bit(a, i) == key_bit(b, i)
}

/// The first bit from `from` on, and before `limit`, at which the keys `a`
/// and `b` differ; `limit` where there is none.
pub open spec fn diverge(a: Seq<u8>, b: Seq<u8>, from: int, limit: int) -> int
    decreases limit - from,
{
    if from >= limit || key_bit(a, from) != key_bit(b, from) {
        if from >= limit {
            limit
        } else {
            from
        }
    } else {
        diverge(a, b, from + 1, limit)
    }
}

/// `diverge` is the first bit at which the keys differ.
pub proof fn lemma_diverge(a: Seq<u8>, b: Seq<u8>, from: int, limit: int)
    requires
        from <= limit,
    ensures
        from <= diverge(a, b, from, limit) <= limit,
        forall|i: int| from <= i < diverge(a, b, from, limit) ==> key_bit(a, i) == key_bit(b, i),
        diverge(a, b, from, limit) < limit ==> key_bit(a, diverge(a, b, from, limit)) != key_bit(
            b,
            diverge(a, b, from, limit),
        ),
    decreases limit - from,
{
    if from < limit && key_bit(a, from) == key_bit(b, from) {
        lemma_diverge(a, b, from + 1, limit);
    }
}

/// The position with the properties of `diverge` is `diverge`.
pub proof fn lemma_diverge_is(a: Seq<u8>, b: Seq<u8>, from: int, limit: int, d: int)
    requires
        from <= d <= limit,
        forall|i: int| from <= i < d ==> key_bit(a, i) == key_bit(b, i),
        d < limit ==> key_bit(a, d) != key_bit(b, d),
    ensures
        diverge(a, b, from, limit) == d,
    decreases d - from,
{
    if from < d {
        lemma_diverge_is(a, b, from + 1, limit, d);
    }
}

/// Two keys of 32 bytes with the same 256 bits are the same key.
pub proof fn lemma_key_ext(a: Seq<u8>, b: Seq<u8>)
    requires
        a.len() == 32,
        b.len() == 32,
        agree(a, b, 256),
    ensures
        a == b,
{
    assert forall|j: int| 0 <= j < 32 implies a[j] == b[j] by {
        assert forall|u: int| 0 <= u < 8 implies byte_bit(a[j], u) == byte_bit(b[j], u) by {
            let p = 8 * j + u;
            assert(p / 8 == j && p % 8 == u);
            assert(key_bit(a, p) == key_bit(b, p));
        }
        lemma_byte_ext(a[j], b[j]);
    }
    assert(a =~= b);
}

/// The end of the path whose 34 bytes are `x`.
pub open spec fn path_end(x: Seq<u8>) -> int {
    if x[0] == LEAF_KEY_PREFIX {
        256
    } else {
        x[33] as int
    }
}

/// The 34 bytes of the path of kind `kind` over the key `key` with the
/// length byte `len`.
pub open spec fn raw_of(kind: u8, key: Seq<u8>, len: u8) -> Seq<u8> {
    seq![kind] + key + seq![len]
}

/// The stored form of a path keeps the kind, the length byte, and the bits
/// of the key before the end of the path; the bits of a branch from its
/// end on are clear.
pub proof fn lemma_stored_form(raw: Seq<u8>)
    requires
        raw.len() == 34,
    ensures
        stored_form(raw).len() == 34,
        stored_form(raw)[0] == raw[0],
        stored_form(raw)[33] == raw[33],
        forall|i: int|
            0 <= i < 256 ==> #[trigger] key_bit(stored_form(raw).subrange(1, 33), i) == (i
                < path_end(raw) && key_bit(raw.subrange(1, 33), i)),
{
    let s = stored_form(raw);
    assert forall|i: int| 0 <= i < 256 implies #[trigger] key_bit(s.subrange(1, 33), i) == (i
        < path_end(raw) && key_bit(raw.subrange(1, 33), i)) by {
        let j = i / 8;
        assert(s.subrange(1, 33)[j] == s[j + 1]);
        assert(raw.subrange(1, 33)[j] == raw[j + 1]);
        if raw[0] != LEAF_KEY_PREFIX {
            lemma_low_bits(raw[j + 1], raw[33] as int - 8 * j, i % 8);
        }
    }
}

/// Two paths of one kind and one end whose keys have the same bits before
/// that end are stored under the same bytes.
pub proof fn lemma_same_stored_form(a: Seq<u8>, b: Seq<u8>)
    requires
        a.len() == 34,
        b.len() == 34,
        a[0] == b[0],
        a[33] == b[33],
        agree(a.subrange(1, 33), b.subrange(1, 33), path_end(a)),
    ensures
        stored_form(a) == stored_form(b),
{
    let sa = stored_form(a);
    let sb = stored_form(b);
    lemma_stored_form(a);
    lemma_stored_form(b);
    assert forall|j: int| 0 <= j < 34 implies sa[j] == sb[j] by {
        if 1 <= j <= 32 {
            assert forall|u: int| 0 <= u < 8 implies byte_bit(sa[j], u) == byte_bit(sb[j], u) by {
                let p = 8 * (j - 1) + u;
                assert(p / 8 == j - 1 && p % 8 == u);
                assert(sa.subrange(1, 33)[j - 1] == sa[j]);
                assert(sb.subrange(1, 33)[j - 1] == sb[j]);
                if p < path_end(a) {
                    assert(key_bit(a.subrange(1, 33), p) == key_bit(b.subrange(1, 33), p));
                }
                assert(key_bit(sa.subrange(1, 33), p) == (p < path_end(a) && key_bit(
                    a.subrange(1, 33),
                    p,
                )));
                assert(key_bit(sb.subrange(1, 33), p) == (p < path_end(b) && key_bit(
                    b.subrange(1, 33),
                    p,
                )));
            }
            lemma_byte_ext(sa[j], sb[j]);
        }
    }
    assert(sa =~= sb);
}

/// The tree with the two given subtrees under a branch that ends at bit
/// `d`: `new` on the right if `on_right`, else on the left.
pub open spec fn join(d: int, old: Tree, new: Tree, on_right: bool) -> Tree {
    if on_right {
        Tree::Branch { end: d, left: Box::new(old), right: Box::new(new) }
    } else {
        Tree::Branch { end: d, left: Box::new(new), right: Box::new(old) }
    }
}

/// The key of the store under which the leaf of `key` lies.
pub open spec fn leaf_key(key: Seq<u8>) -> Seq<u8> {
    stored_form(raw_of(LEAF_KEY_PREFIX, key, 0))
}

/// Whether `x` is a path as it is stored: 34 bytes, the kind of a branch
/// or of a leaf, length byte 0 for a leaf, and no bit set beyond the end of
/// a branch.
pub open spec fn is_path_key(x: Seq<u8>) -> bool {
    &&& x.len() == 34
    &&& (x[0] == BRANCH_KEY_PREFIX || x[0] == LEAF_KEY_PREFIX)
    &&& (x[0] == LEAF_KEY_PREFIX ==> x[33] == 0)
    &&& stored_form(x) == x
}

/// What is stored is stored as it is: the stored form of a stored form is
/// that stored form.
pub proof fn lemma_stored_twice(raw: Seq<u8>)
    requires
        raw.len() == 34,
    ensures
        stored_form(stored_form(raw)) == stored_form(raw),
{
    let s = stored_form(raw);
    lemma_stored_form(raw);
    assert forall|i: int| 0 <= i < path_end(s) implies key_bit(s.subrange(1, 33), i) == key_bit(
        raw.subrange(1, 33),
        i,
    ) by {}
    lemma_same_stored_form(s, raw);
}

impl Tree {
    /// The key of the leftmost leaf.
    pub open spec fn first_key(self) -> Seq<u8>
        decreases self,
    {
        match self {
            Tree::Leaf { key, .. } => key,
            Tree::Branch { left, .. } => left.first_key(),
        }
    }

    /// The end of the path of the root: 256 for a leaf.
    pub open spec fn end(self) -> int {
        match self {
            Tree::Leaf { .. } => 256,
            Tree::Branch { end, .. } => end,
        }
    }

    /// The 34 bytes of the path of the root, over the key of the leftmost
    /// leaf.
    pub open spec fn raw_path(self) -> Seq<u8> {
        match self {
            Tree::Leaf { key, .. } => raw_of(LEAF_KEY_PREFIX, key, 0),
            Tree::Branch { end, .. } => raw_of(BRANCH_KEY_PREFIX, self.first_key(), end as u8),
        }
    }

    /// The key of the store under which the root lies.
    pub open spec fn node_key(self) -> Seq<u8> {
        stored_form(self.raw_path())
    }

    /// The hash of the root: for a leaf the hash of its value, for a branch
    /// the hash of its image.
    pub open spec fn node_hash(self) -> Seq<u8>
        decreases self,
    {
        match self {
            Tree::Leaf { hash, .. } => hash,
            Tree::Branch { left, right, .. } => digest(
                branch_image(
                    left.node_hash(),
                    right.node_hash(),
                    left.node_key(),
                    right.node_key(),
                ),
            ),
        }
    }

    /// What is stored under the key of the root: the hash of the value for
    /// a leaf, the image for a branch.
    pub open spec fn node_value(self) -> Seq<u8> {
        match self {
            Tree::Leaf { hash, .. } => hash,
            Tree::Branch { left, right, .. } => branch_image(
                left.node_hash(),
                right.node_hash(),
                left.node_key(),
                right.node_key(),
            ),
        }
    }

    /// The keys of the tree, each with the hash of its value.
    pub open spec fn entries(self) -> Map<Seq<u8>, Seq<u8>>
        decreases self,
    {
        match self {
            Tree::Leaf { key, hash } => Map::<Seq<u8>, Seq<u8>>::empty().insert(key, hash),
            Tree::Branch { left, right, .. } => left.entries().union_prefer_right(right.entries()),
        }
    }

    /// The nodes of the tree as they lie in the store.
    pub open spec fn nodes(self) -> Map<Seq<u8>, Seq<u8>>
        decreases self,
    {
        match self {
            Tree::Leaf { key, hash } => Map::<Seq<u8>, Seq<u8>>::empty().insert(
                self.node_key(),
                hash,
            ),
            Tree::Branch { left, right, .. } => left.nodes().union_prefer_right(
                right.nodes(),
            ).insert(self.node_key(), self.node_value()),
        }
    }

    /// Whether the tree is the tree of its keys: keys and hashes have 32
    /// bytes; under a branch the two subtrees go on beyond its end, their
    /// keys share the bits before the end, and the bit at the end is clear
    /// on the left and set on the right.
    pub open spec fn valid(self) -> bool
        decreases self,
    {
        match self {
            Tree::Leaf { key, hash } => key.len() == 32 && hash.len() == 32,
            Tree::Branch { end, left, right } => {
                &&& 0 <= end < 256
                &&& left.valid()
                &&& right.valid()
                &&& end < left.end()
                &&& end < right.end()
                &&& agree(left.first_key(), right.first_key(), end)
                &&& !key_bit(left.first_key(), end)
                &&& key_bit(right.first_key(), end)
            },
        }
    }

    /// The root hash of the map of this tree: the hash of path and value
    /// hash for a single leaf, the hash of the branch else.
    pub open spec fn root_hash(self) -> Seq<u8> {
        match self {
            Tree::Leaf { hash, .. } => sha256(self.node_key() + hash),
            Tree::Branch { .. } => sha256(self.node_value()),
        }
    }

    /// In a valid tree every key has 32 bytes and shares the bits before
    /// the end of the root with the first key, which is one of the keys.
    pub proof fn lemma_entries(self)
        requires
            self.valid(),
        ensures
            self.first_key().len() == 32,
            self.entries().contains_key(self.first_key()),
            0 <= self.end() <= 256,
            self is Branch ==> self.end() < 256,
            forall|k: Seq<u8>|
                #[trigger] self.entries().contains_key(k) ==> k.len() == 32 && agree(
                    k,
                    self.first_key(),
                    self.end(),
                ) && self.entries()[k].len() == 32,
            self.node_hash().len() == 32 || self is Branch,
        decreases self,
    {
        match self {
            Tree::Leaf { key, hash } => {},
            Tree::Branch { end, left, right } => {
                left.lemma_entries();
                right.lemma_entries();
                assert forall|k: Seq<u8>| #[trigger]
                    self.entries().contains_key(k) implies k.len() == 32 && agree(
                    k,
                    self.first_key(),
                    self.end(),
                ) && self.entries()[k].len() == 32 by {
                    if right.entries().contains_key(k) {
                        assert(agree(k, right.first_key(), right.end()));
                    } else {
                        assert(agree(k, left.first_key(), left.end()));
                    }
                }
            },
        }
    }

    /// Under a valid branch the keys on the left have the bit at its end
    /// clear and those on the right have it set, so no key is on both
    /// sides.
    pub proof fn lemma_sides(self)
        requires
            self.valid(),
            self is Branch,
        ensures
            forall|k: Seq<u8>|
                #[trigger] self->left.entries().contains_key(k) ==> !key_bit(k, self.end()),
            forall|k: Seq<u8>|
                #[trigger] self->right.entries().contains_key(k) ==> key_bit(k, self.end()),
            forall|k: Seq<u8>|
                #[trigger] self.entries().contains_key(k) ==> (if key_bit(k, self.end()) {
                    self->right.entries().contains_key(k) && self.entries()[k]
                        == self->right.entries()[k] && !self->left.entries().contains_key(k)
                } else {
                    self->left.entries().contains_key(k) && self.entries()[k]
                        == self->left.entries()[k] && !self->right.entries().contains_key(k)
                }),
    {
        let left = self->left;
        let right = self->right;
        left.lemma_entries();
        right.lemma_entries();
        assert forall|k: Seq<u8>| #[trigger] left.entries().contains_key(k) implies !key_bit(
            k,
            self.end(),
        ) by {
            assert(agree(k, left.first_key(), left.end()));
        }
        assert forall|k: Seq<u8>| #[trigger] right.entries().contains_key(k) implies key_bit(
            k,
            self.end(),
        ) by {
            assert(agree(k, right.first_key(), right.end()));
        }
    }

    /// The tree with the hash `hash` for the key `key`, in place of the
    /// hash that the tree had for it if it had one.
    pub open spec fn insert(self, key: Seq<u8>, hash: Seq<u8>) -> Tree
        decreases self,
    {
        match self {
            Tree::Leaf { key: k0, .. } => {
                let d = diverge(k0, key, 0, 256);
                if d == 256 {
                    Tree::Leaf { key, hash }
                } else {
                    join(d, self, Tree::Leaf { key, hash }, key_bit(key, d))
                }
            },
            Tree::Branch { end, left, right } => {
                let d = diverge(self.first_key(), key, 0, end);
                if d < end {
                    join(d, self, Tree::Leaf { key, hash }, key_bit(key, d))
                } else if key_bit(key, end) {
                    Tree::Branch { end, left, right: Box::new(right.insert(key, hash)) }
                } else {
                    Tree::Branch { end, left: Box::new(left.insert(key, hash)), right }
                }
            },
        }
    }

    /// The nodes of a valid tree lie under keys of 34 bytes that are paths
    /// as they are stored. Each path goes on to the end of the root at
    /// least and has the bits of the first key before that end. The root
    /// lies under its key.
    pub proof fn lemma_nodes(self)
        requires
            self.valid(),
        ensures
            self.nodes().contains_key(self.node_key()),
            self.nodes()[self.node_key()] == self.node_value(),
            self.node_hash().len() == 32,
            self.first_key().len() == 32,
            forall|x: Seq<u8>|
                #[trigger] self.nodes().contains_key(x) ==> is_path_key(x) && path_end(x)
                    >= self.end() && agree(x.subrange(1, 33), self.first_key(), self.end()) && (
                path_end(x) == self.end() ==> x == self.node_key()),
        decreases self,
    {
        self.lemma_entries();
        lemma_stored_form(self.raw_path());
        lemma_stored_twice(self.raw_path());
        assert(self.raw_path().subrange(1, 33) =~= self.first_key());
        match self {
            Tree::Leaf { key, hash } => {},
            Tree::Branch { end, left, right } => {
                left.lemma_nodes();
                right.lemma_nodes();
                assert forall|x: Seq<u8>| #[trigger] self.nodes().contains_key(x) implies is_path_key(
                    x,
                ) && path_end(x) >= self.end() && agree(
                    x.subrange(1, 33),
                    self.first_key(),
                    self.end(),
                ) && (path_end(x) == self.end() ==> x == self.node_key()) by {
                    if x == self.node_key() {
                    } else if right.nodes().contains_key(x) {
                        assert(agree(x.subrange(1, 33), right.first_key(), right.end()));
                    } else {
                        assert(left.nodes().contains_key(x));
                        assert(agree(x.subrange(1, 33), left.first_key(), left.end()));
                    }
                }
            },
        }
    }

    /// Under a valid branch the nodes of the two subtrees lie under
    /// different keys, none of which is the key of the branch: the bit at
    /// the end of the branch tells left from right.
    pub proof fn lemma_branch_nodes(self)
        requires
            self.valid(),
            self is Branch,
        ensures
            !self->left.nodes().contains_key(self.node_key()),
            !self->right.nodes().contains_key(self.node_key()),
            forall|x: Seq<u8>|
                #[trigger] self->left.nodes().contains_key(x) ==> !key_bit(
                    x.subrange(1, 33),
                    self.end(),
                ) && !self->right.nodes().contains_key(x) && self.nodes().contains_key(x)
                    && self.nodes()[x] == self->left.nodes()[x],
            forall|x: Seq<u8>|
                #[trigger] self->right.nodes().contains_key(x) ==> key_bit(
                    x.subrange(1, 33),
                    self.end(),
                ) && !self->left.nodes().contains_key(x) && self.nodes().contains_key(x)
                    && self.nodes()[x] == self->right.nodes()[x],
            forall|x: Seq<u8>|
                #[trigger] self.nodes().contains_key(x) ==> x == self.node_key()
                    || self->left.nodes().contains_key(x) || self->right.nodes().contains_key(x),
    {
        let left = self->left;
        let right = self->right;
        self.lemma_nodes();
        left.lemma_nodes();
        right.lemma_nodes();
        assert forall|x: Seq<u8>| #[trigger] left.nodes().contains_key(x) implies !key_bit(
            x.subrange(1, 33),
            self.end(),
        ) by {
            assert(agree(x.subrange(1, 33), left.first_key(), left.end()));
        }
        assert forall|x: Seq<u8>| #[trigger] right.nodes().contains_key(x) implies key_bit(
            x.subrange(1, 33),
            self.end(),
        ) by {
            assert(agree(x.subrange(1, 33), right.first_key(), right.end()));
        }
    }

    /// The image of a valid branch is a branch image that holds the hashes
    /// and the keys of the two subtrees.
    pub proof fn lemma_image(self)
        requires
            self.valid(),
            self is Branch,
        ensures
            is_branch_image(self.node_value()),
            self.node_value().subrange(0, 32) == self->left.node_hash(),
            self.node_value().subrange(32, 64) == self->right.node_hash(),
            self.node_value().subrange(64, 98) == self->left.node_key(),
            self.node_value().subrange(98, 132) == self->right.node_key(),
    {
        let left = self->left;
        let right = self->right;
        left.lemma_nodes();
        right.lemma_nodes();
        let v = self.node_value();
        assert(v.subrange(0, 32) =~= left.node_hash());
        assert(v.subrange(32, 64) =~= right.node_hash());
        assert(v.subrange(64, 98) =~= left.node_key());
        assert(v.subrange(98, 132) =~= right.node_key());
        assert(v[64] == left.node_key()[0]);
        assert(v[97] == left.node_key()[33]);
        assert(v[98] == right.node_key()[0]);
        assert(v[131] == right.node_key()[33]);
    }

    /// A key that parts from the keys of a valid tree before the end of its
    /// root makes a valid tree with it under a new branch: the tree of the
    /// keys with that key.
    pub proof fn lemma_join(self, key: Seq<u8>, hash: Seq<u8>, d: int)
        requires
            self.valid(),
            key.len() == 32,
            hash.len() == 32,
            d == diverge(self.first_key(), key, 0, self.end()),
            d < self.end(),
        ensures
            join(d, self, Tree::Leaf { key, hash }, key_bit(key, d)).valid(),
            join(d, self, Tree::Leaf { key, hash }, key_bit(key, d)).entries()
                == self.entries().insert(key, hash),
            join(d, self, Tree::Leaf { key, hash }, key_bit(key, d)).end() == d,
            agree(join(d, self, Tree::Leaf { key, hash }, key_bit(key, d)).first_key(), key, d),
            agree(
                join(d, self, Tree::Leaf { key, hash }, key_bit(key, d)).first_key(),
                self.first_key(),
                d,
            ),
            !self.entries().contains_key(key),
            !self.nodes().contains_key(leaf_key(key)),
    {
        let leaf = Tree::Leaf { key, hash };
        let t = join(d, self, leaf, key_bit(key, d));
        self.lemma_entries();
        self.lemma_nodes();
        lemma_diverge(self.first_key(), key, 0, self.end());
        assert(agree(self.first_key(), key, d));
        assert(key_bit(self.first_key(), d) != key_bit(key, d));
        if self.entries().contains_key(key) {
            assert(agree(key, self.first_key(), self.end()));
            assert(false);
        }
        if self.nodes().contains_key(leaf_key(key)) {
            let x = leaf_key(key);
            lemma_stored_form(leaf.raw_path());
            assert(leaf.raw_path().subrange(1, 33) =~= key);
            assert(agree(x.subrange(1, 33), self.first_key(), self.end()));
            assert(key_bit(x.subrange(1, 33), d) == key_bit(key, d));
            assert(false);
        }
        assert(leaf.valid());
        assert(leaf.first_key() == key);
        assert(leaf.end() == 256);
        assert(leaf.entries() =~= Map::<Seq<u8>, Seq<u8>>::empty().insert(key, hash));
        if key_bit(key, d) {
            assert(t == Tree::Branch { end: d, left: Box::new(self), right: Box::new(leaf) });
            assert(t.valid());
            assert(t.entries() =~= self.entries().insert(key, hash));
        } else {
            assert(t == Tree::Branch { end: d, left: Box::new(leaf), right: Box::new(self) });
            assert(t.first_key() == key);
            assert(agree(key, self.first_key(), d));
            assert(t.valid());
            assert(t.entries() =~= self.entries().insert(key, hash));
        }
    }

    /// A tree with the key put into the subtree on the side of its bit at
    /// the end of the root is the tree with the key put into it.
    pub proof fn lemma_descend(self, key: Seq<u8>, hash: Seq<u8>)
        requires
            self.valid(),
            self is Branch,
            key.len() == 32,
            hash.len() == 32,
            diverge(self.first_key(), key, 0, self.end()) == self.end(),
        ensures
            self.insert(key, hash) == (if key_bit(key, self.end()) {
                Tree::Branch {
                    end: self.end(),
                    left: self->left,
                    right: Box::new(self->right.insert(key, hash)),
                }
            } else {
                Tree::Branch {
                    end: self.end(),
                    left: Box::new(self->left.insert(key, hash)),
                    right: self->right,
                }
            }),
            agree(key, self.side(key_bit(key, self.end())).first_key(), self.end() + 1),
            diverge(
                self.side(key_bit(key, self.end())).first_key(),
                key,
                0,
                self.side(key_bit(key, self.end())).end(),
            ) > self.end(),
    {
        let end = self.end();
        let c = self.side(key_bit(key, end));
        lemma_diverge(self.first_key(), key, 0, end);
        lemma_diverge(c.first_key(), key, 0, c.end());
        assert(agree(self.first_key(), key, end));
        assert forall|i: int| 0 <= i < end + 1 implies key_bit(key, i) == key_bit(
            c.first_key(),
            i,
        ) by {
            if i < end {
                assert(key_bit(self->left.first_key(), i) == key_bit(self->right.first_key(), i));
                assert(key_bit(self.first_key(), i) == key_bit(key, i));
            }
        }
        if diverge(c.first_key(), key, 0, c.end()) <= end {
            let e = diverge(c.first_key(), key, 0, c.end());
            assert(key_bit(c.first_key(), e) != key_bit(key, e));
            assert(false);
        }
    }

    /// The subtree on the right if `right`, else the one on the left.
    pub open spec fn side(self, right: bool) -> Tree {
        if right {
            *self->right
        } else {
            *self->left
        }
    }

    /// A valid branch with the subtree on one side replaced by a valid
    /// tree that ends beyond the branch and whose first key has the bits of
    /// the old one up to and with the bit at the end of the branch is a
    /// valid tree. Its key in the store is the key of the old branch.
    pub proof fn lemma_replace(self, right: bool, new: Tree)
        requires
            self.valid(),
            self is Branch,
            new.valid(),
            new.end() > self.end(),
            agree(new.first_key(), self.side(right).first_key(), self.end() + 1),
        ensures
            self.with_side(right, new).valid(),
            self.with_side(right, new).node_key() == self.node_key(),
            self.with_side(right, new).end() == self.end(),
            agree(self.with_side(right, new).first_key(), self.first_key(), self.end()),
    {
        let t = self.with_side(right, new);
        let end = self.end();
        self.lemma_entries();
        new.lemma_entries();
        self.side(right).lemma_entries();
        assert(key_bit(new.first_key(), end) == key_bit(self.side(right).first_key(), end));
        assert forall|i: int| 0 <= i < end implies key_bit(t->left.first_key(), i) == key_bit(
            t->right.first_key(),
            i,
        ) by {
            assert(key_bit(new.first_key(), i) == key_bit(self.side(right).first_key(), i));
            assert(key_bit(self->left.first_key(), i) == key_bit(self->right.first_key(), i));
        }
        assert(t.valid());
        assert forall|i: int| 0 <= i < end implies key_bit(t.first_key(), i) == key_bit(
            self.first_key(),
            i,
        ) by {
            assert(key_bit(new.first_key(), i) == key_bit(self.side(right).first_key(), i));
        }
        assert(t.raw_path().subrange(1, 33) =~= t.first_key());
        assert(self.raw_path().subrange(1, 33) =~= self.first_key());
        lemma_same_stored_form(t.raw_path(), self.raw_path());
    }

    /// The branch with the subtree on one side replaced by `new`.
    pub open spec fn with_side(self, right: bool, new: Tree) -> Tree {
        if right {
            Tree::Branch { end: self.end(), left: self->left, right: Box::new(new) }
        } else {
            Tree::Branch { end: self.end(), left: Box::new(new), right: self->right }
        }
    }

    /// Putting a key into a valid tree gives the valid tree of the keys
    /// with that key: the other keys keep their hashes. The new root ends
    /// where the key parts from the first key of the old tree, and the keys
    /// of old and new tree share the bits before that end.
    pub proof fn lemma_insert(self, key: Seq<u8>, hash: Seq<u8>)
        requires
            self.valid(),
            key.len() == 32,
            hash.len() == 32,
        ensures
            self.insert(key, hash).valid(),
            self.insert(key, hash).entries() == self.entries().insert(key, hash),
            self.insert(key, hash).end() == diverge(self.first_key(), key, 0, self.end()),
            agree(self.insert(key, hash).first_key(), key, self.insert(key, hash).end()),
            agree(self.insert(key, hash).first_key(), self.first_key(), self.insert(key, hash).end()),
        decreases self,
    {
        let t = self.insert(key, hash);
        self.lemma_entries();
        lemma_diverge(self.first_key(), key, 0, self.end());
        let d = diverge(self.first_key(), key, 0, self.end());
        if d < self.end() {
            self.lemma_join(key, hash, d);
        } else {
            match self {
                Tree::Leaf { key: k0, hash: h0 } => {
                    lemma_key_ext(k0, key);
                    assert(t.entries() =~= self.entries().insert(key, hash));
                },
                Tree::Branch { end, left, right } => {
                    let on_right = key_bit(key, end);
                    let c = self.side(on_right);
                    self.lemma_descend(key, hash);
                    c.lemma_insert(key, hash);
                    let c2 = c.insert(key, hash);
                    assert(t == self.with_side(on_right, c2));
                    assert forall|i: int| 0 <= i < end + 1 implies key_bit(c2.first_key(), i)
                        == key_bit(c.first_key(), i) by {
                        assert(key_bit(c2.first_key(), i) == key_bit(key, i));
                    }
                    self.lemma_replace(on_right, c2);
                    self.lemma_sides();
                    left.lemma_entries();
                    right.lemma_entries();
                    assert(t.entries() =~= self.entries().insert(key, hash)) by {
                        if !on_right {
                            assert forall|k: Seq<u8>| right.entries().contains_key(k) implies k
                                != key by {
                                assert(key_bit(k, end));
                            }
                        }
                    }
                    assert forall|i: int| 0 <= i < end implies key_bit(t.first_key(), i) == key_bit(
                        key,
                        i,
                    ) by {
                        assert(key_bit(t.first_key(), i) == key_bit(self.first_key(), i));
                    }
                },
            }
        }
    }

    /// Every node key of a valid tree is a node key of the tree with a key
    /// put into it, and the leaf of that key is among its nodes.
    pub proof fn lemma_insert_nodes(self, key: Seq<u8>, hash: Seq<u8>)
        requires
            self.valid(),
            key.len() == 32,
            hash.len() == 32,
        ensures
            forall|x: Seq<u8>|
                #[trigger] self.nodes().contains_key(x) ==> self.insert(key, hash).nodes().contains_key(
                    x,
                ),
            self.insert(key, hash).nodes().contains_key(leaf_key(key)),
            self.insert(key, hash).nodes()[leaf_key(key)] == hash,
        decreases self,
    {
        let t = self.insert(key, hash);
        let leaf = Tree::Leaf { key, hash };
        self.lemma_insert(key, hash);
        self.lemma_entries();
        lemma_diverge(self.first_key(), key, 0, self.end());
        let d = diverge(self.first_key(), key, 0, self.end());
        assert(leaf.nodes() =~= Map::<Seq<u8>, Seq<u8>>::empty().insert(leaf_key(key), hash));
        if d < self.end() {
            self.lemma_join(key, hash, d);
            assert(t == join(d, self, leaf, key_bit(key, d)));
            t.lemma_branch_nodes();
            assert(leaf.nodes().contains_key(leaf_key(key)));
        } else {
            match self {
                Tree::Leaf { key: k0, hash: h0 } => {
                    lemma_key_ext(k0, key);
                },
                Tree::Branch { end, left, right } => {
                    let on_right = key_bit(key, end);
                    let c = self.side(on_right);
                    self.lemma_descend(key, hash);
                    c.lemma_insert_nodes(key, hash);
                    c.lemma_insert(key, hash);
                    let c2 = c.insert(key, hash);
                    assert(t == self.with_side(on_right, c2));
                    assert forall|i: int| 0 <= i < end + 1 implies key_bit(c2.first_key(), i)
                        == key_bit(c.first_key(), i) by {
                        assert(key_bit(c2.first_key(), i) == key_bit(key, i));
                    }
                    self.lemma_replace(on_right, c2);
                    t.lemma_branch_nodes();
                    self.lemma_branch_nodes();
                    assert(c2.nodes().contains_key(leaf_key(key)));
                },
            }
        }
    }

    /// The nodes of the tree with a key joined to it under a new branch:
    /// the new branch, the leaf of the key, and the nodes of the old tree.
    pub proof fn lemma_join_nodes(self, key: Seq<u8>, hash: Seq<u8>, d: int)
        requires
            self.valid(),
            key.len() == 32,
            hash.len() == 32,
            d == diverge(self.first_key(), key, 0, self.end()),
            d < self.end(),
        ensures
            forall|x: Seq<u8>|
                lookup(
                    #[trigger] join(d, self, Tree::Leaf { key, hash }, key_bit(key, d)).nodes(),
                    x,
                ) == (if x == join(d, self, Tree::Leaf { key, hash }, key_bit(key, d)).node_key() {
                    Some(join(d, self, Tree::Leaf { key, hash }, key_bit(key, d)).node_value())
                } else if x == leaf_key(key) {
                    Some(hash)
                } else {
                    lookup(self.nodes(), x)
                }),
    {
        let leaf = Tree::Leaf { key, hash };
        let t = join(d, self, leaf, key_bit(key, d));
        self.lemma_join(key, hash, d);
        assert(leaf.nodes() =~= Map::<Seq<u8>, Seq<u8>>::empty().insert(leaf_key(key), hash));
        t.lemma_branch_nodes();
        assert forall|x: Seq<u8>|
            lookup(t.nodes(), x) == (if x == t.node_key() {
                Some(t.node_value())
            } else if x == leaf_key(key) {
                Some(hash)
            } else {
                lookup(self.nodes(), x)
            }) by {
            if x == t.node_key() {
            } else if x == leaf_key(key) {
                assert(leaf.nodes().contains_key(x));
            } else {
                if self.nodes().contains_key(x) {
                    assert(t.nodes().contains_key(x));
                }
                if t.nodes().contains_key(x) {
                    assert(!leaf.nodes().contains_key(x));
                }
            }
        }
    }

    /// The nodes of a valid branch with the subtree on one side replaced by
    /// a tree that has every node key of the old subtree: the branch, the
    /// nodes of the new subtree, and the other nodes of the old tree.
    pub proof fn lemma_replace_nodes(self, right: bool, new: Tree)
        requires
            self.valid(),
            self is Branch,
            new.valid(),
            new.end() > self.end(),
            agree(new.first_key(), self.side(right).first_key(), self.end() + 1),
            forall|x: Seq<u8>|
                #[trigger] self.side(right).nodes().contains_key(x) ==> new.nodes().contains_key(x),
        ensures
            forall|x: Seq<u8>|
                lookup(#[trigger] self.with_side(right, new).nodes(), x) == (if x
                    == self.node_key() {
                    Some(self.with_side(right, new).node_value())
                } else if new.nodes().contains_key(x) {
                    Some(new.nodes()[x])
                } else {
                    lookup(self.nodes(), x)
                }),
    {
        let t = self.with_side(right, new);
        self.lemma_replace(right, new);
        t.lemma_branch_nodes();
        self.lemma_branch_nodes();
        assert forall|x: Seq<u8>|
            lookup(t.nodes(), x) == (if x == self.node_key() {
                Some(t.node_value())
            } else if new.nodes().contains_key(x) {
                Some(new.nodes()[x])
            } else {
                lookup(self.nodes(), x)
            }) by {
            if x == self.node_key() {
            } else if new.nodes().contains_key(x) {
            } else {
                if self.nodes().contains_key(x) {
                    assert(!self.side(right).nodes().contains_key(x));
                    assert(self.side(!right).nodes().contains_key(x));
                    assert(t.nodes().contains_key(x));
                }
                if t.nodes().contains_key(x) {
                    assert(self.side(!right).nodes().contains_key(x));
                }
            }
        }
    }

    /// The root of a valid branch lies under a key that comes before the
    /// keys of its two subtrees.
    pub proof fn lemma_parent_first(self, right: bool)
        requires
            self.valid(),
            self is Branch,
        ensures
            lex_lt(self.node_key(), self.side(right).node_key()),
    {
        let c = self.side(right);
        let a = self.node_key();
        let b = c.node_key();
        let end = self.end();
        self.lemma_entries();
        c.lemma_entries();
        lemma_stored_form(self.raw_path());
        lemma_stored_form(c.raw_path());
        assert(self.raw_path().subrange(1, 33) =~= self.first_key());
        assert(c.raw_path().subrange(1, 33) =~= c.first_key());
        if c is Leaf {
            lemma_first_byte(a, b);
        } else {
            assert forall|i: int| 0 <= i < end implies key_bit(c.first_key(), i) == key_bit(
                self.first_key(),
                i,
            ) by {
                assert(key_bit(self->left.first_key(), i) == key_bit(self->right.first_key(), i));
            }
            assert(self.raw_path()[0] == BRANCH_KEY_PREFIX);
            assert(self.raw_path()[33] == end as u8);
            assert(c.raw_path()[0] == BRANCH_KEY_PREFIX);
            assert(c.raw_path()[33] == c.end() as u8);
            assert(path_end(self.raw_path()) == end);
            assert(path_end(c.raw_path()) == c.end());
            assert(a[33] < b[33]);
            assert forall|j: int| 0 <= j < 34 implies a[j] <= b[j] by {
                if 1 <= j <= 32 {
                    assert forall|u: int| 0 <= u < 8 && byte_bit(a[j], u) implies byte_bit(
                        b[j],
                        u,
                    ) by {
                        let p = 8 * (j - 1) + u;
                        assert(p / 8 == j - 1 && p % 8 == u);
                        assert(a.subrange(1, 33)[j - 1] == a[j]);
                        assert(b.subrange(1, 33)[j - 1] == b[j]);
                        assert(key_bit(a.subrange(1, 33), p));
                        assert(p < end && key_bit(self.first_key(), p));
                        assert(key_bit(c.first_key(), p));
                        assert(key_bit(b.subrange(1, 33), p) == (p < path_end(c.raw_path())
                            && key_bit(c.raw_path().subrange(1, 33), p)));
                        assert(key_bit(b.subrange(1, 33), p));
                    }
                    lemma_bits_le(a[j], b[j]);
                }
            }
            lemma_pointwise_le(a, b);
        }
    }

    /// The root of a valid tree lies under the least of the node keys.
    pub proof fn lemma_root_first(self)
        requires
            self.valid(),
        ensures
            forall|x: Seq<u8>| #[trigger] self.nodes().contains_key(x) ==> lex_le(self.node_key(), x),
        decreases self,
    {
        match self {
            Tree::Leaf { .. } => {},
            Tree::Branch { end, left, right } => {
                left.lemma_root_first();
                right.lemma_root_first();
                self.lemma_parent_first(false);
                self.lemma_parent_first(true);
                self.lemma_branch_nodes();
                assert forall|x: Seq<u8>| #[trigger] self.nodes().contains_key(x) implies lex_le(
                    self.node_key(),
                    x,
                ) by {
                    if x == self.node_key() {
                    } else if left.nodes().contains_key(x) {
                        lemma_lex_le_transitive(self.node_key(), left.node_key(), x);
                    } else {
                        lemma_lex_le_transitive(self.node_key(), right.node_key(), x);
                    }
                }
            },
        }
    }

    /// The tree without the key `key`: `None` where no key is left. A tree
    /// without the key is left as it is. Where the leaf of the key hangs
    /// under a branch, the other subtree takes the place of that branch.
    pub open spec fn remove(self, key: Seq<u8>) -> Option<Tree>
        decreases self,
    {
        match self {
            Tree::Leaf { key: k0, .. } => if k0 == key {
                None
            } else {
                Some(self)
            },
            Tree::Branch { end, left, right } => {
                if diverge(self.first_key(), key, 0, end) < end {
                    Some(self)
                } else {
                    let on_right = key_bit(key, end);
                    match self.side(on_right).remove(key) {
                        None => Some(self.side(!on_right)),
                        Some(c2) => Some(self.with_side(on_right, c2)),
                    }
                }
            },
        }
    }

    /// Taking a key out of a valid tree leaves the valid tree of the other
    /// keys, or nothing where the key was the only one. What is left ends
    /// no earlier than the tree did and has the bits of its first key
    /// before that end; where it ends at the same bit, its root lies under
    /// the same key. Its node keys are node keys of the tree.
    pub proof fn lemma_remove(self, key: Seq<u8>)
        requires
            self.valid(),
            key.len() == 32,
        ensures
            self.remove(key) is None ==> self is Leaf && self.first_key() == key,
            self.remove(key) matches Some(t2) ==> {
                &&& t2.valid()
                &&& t2.entries() == self.entries().remove(key)
                &&& t2.end() >= self.end()
                &&& agree(t2.first_key(), self.first_key(), self.end())
                &&& (t2.end() == self.end() ==> t2.node_key() == self.node_key())
                &&& (forall|x: Seq<u8>|
                    #[trigger] t2.nodes().contains_key(x) ==> self.nodes().contains_key(x))
                &&& (!self.entries().contains_key(key) <==> t2 == self)
            },
            self.remove(key) is None ==> self.entries().remove(key) == Map::<
                Seq<u8>,
                Seq<u8>,
            >::empty(),
        decreases self,
    {
        self.lemma_entries();
        match self {
            Tree::Leaf { key: k0, hash } => {
                if k0 == key {
                    assert(self.entries().remove(key) =~= Map::<Seq<u8>, Seq<u8>>::empty());
                } else {
                    assert(self.entries().remove(key) =~= self.entries());
                }
            },
            Tree::Branch { end, left, right } => {
                lemma_diverge(self.first_key(), key, 0, end);
                let d = diverge(self.first_key(), key, 0, end);
                self.lemma_sides();
                left.lemma_entries();
                right.lemma_entries();
                if d < end {
                    if self.entries().contains_key(key) {
                        assert(agree(key, self.first_key(), end));
                        assert(false);
                    }
                    assert(self.entries().remove(key) =~= self.entries());
                } else {
                    let on_right = key_bit(key, end);
                    let c = self.side(on_right);
                    let other = self.side(!on_right);
                    c.lemma_remove(key);
                    self.lemma_branch_nodes();
                    assert forall|k: Seq<u8>| #[trigger] other.entries().contains_key(k) implies k
                        != key by {
                        assert(key_bit(k, end) == !on_right);
                    }
                    match c.remove(key) {
                        None => {
                            assert(other.entries() =~= self.entries().remove(key)) by {
                                assert(c.entries().remove(key) =~= Map::<Seq<u8>, Seq<u8>>::empty());
                                assert forall|k: Seq<u8>| c.entries().contains_key(k) implies k
                                    == key by {
                                    assert(c.entries().remove(key).contains_key(k) || k == key);
                                }
                            }
                            assert(self.entries().contains_key(key)) by {
                                assert(c.entries().contains_key(c.first_key()));
                            }
                        },
                        Some(c2) => {
                            let t2 = self.with_side(on_right, c2);
                            assert forall|i: int| 0 <= i < end + 1 implies key_bit(
                                c2.first_key(),
                                i,
                            ) == key_bit(c.first_key(), i) by {}
                            self.lemma_replace(on_right, c2);
                            t2.lemma_branch_nodes();
                            assert(t2.entries() =~= self.entries().remove(key));
                            if c2 == c {
                                assert(t2 == self);
                            } else {
                                assert(self.entries().contains_key(key));
                                if t2 == self {
                                    assert(c2 == c);
                                }
                            }
                        },
                    }
                }
            },
        }
    }

    /// The nodes of a valid branch with the subtree on one side replaced:
    /// the branch, the nodes of the new subtree, and the nodes on the other
    /// side.
    pub proof fn lemma_swap_nodes(self, right: bool, new: Tree)
        requires
            self.valid(),
            self is Branch,
            new.valid(),
            new.end() > self.end(),
            agree(new.first_key(), self.side(right).first_key(), self.end() + 1),
        ensures
            forall|x: Seq<u8>|
                lookup(#[trigger] self.with_side(right, new).nodes(), x) == (if x
                    == self.node_key() {
                    Some(self.with_side(right, new).node_value())
                } else if new.nodes().contains_key(x) {
                    Some(new.nodes()[x])
                } else if self.side(right).nodes().contains_key(x) {
                    None
                } else {
                    lookup(self.nodes(), x)
                }),
    {
        let t = self.with_side(right, new);
        self.lemma_replace(right, new);
        t.lemma_branch_nodes();
        self.lemma_branch_nodes();
        assert forall|x: Seq<u8>|
            lookup(t.nodes(), x) == (if x == self.node_key() {
                Some(t.node_value())
            } else if new.nodes().contains_key(x) {
                Some(new.nodes()[x])
            } else if self.side(right).nodes().contains_key(x) {
                None
            } else {
                lookup(self.nodes(), x)
            }) by {
            if x == self.node_key() {
            } else if new.nodes().contains_key(x) {
            } else if self.side(right).nodes().contains_key(x) {
                if t.nodes().contains_key(x) {
                    assert(self.side(!right).nodes().contains_key(x));
                }
            } else {
                if self.nodes().contains_key(x) {
                    assert(self.side(!right).nodes().contains_key(x));
                    assert(t.nodes().contains_key(x));
                }
                if t.nodes().contains_key(x) {
                    assert(self.side(!right).nodes().contains_key(x));
                }
            }
        }
    }

    /// A map has one valid tree only: two valid trees with the same keys
    /// and hashes are the same tree.
    pub proof fn lemma_unique(self, other: Tree)
        requires
            self.valid(),
            other.valid(),
            self.entries() == other.entries(),
        ensures
            self == other,
        decreases self,
    {
        self.lemma_entries();
        other.lemma_entries();
        match self {
            Tree::Leaf { key, hash } => {
                match other {
                    Tree::Leaf { key: k2, hash: h2 } => {
                        assert(other.entries().contains_key(k2));
                        assert(self.entries()[key] == hash);
                    },
                    Tree::Branch { end, left, right } => {
                        left.lemma_entries();
                        right.lemma_entries();
                        other.lemma_sides();
                        assert(other.entries().contains_key(left.first_key()));
                        assert(other.entries().contains_key(right.first_key()));
                        assert(false);
                    },
                }
            },
            Tree::Branch { end, left, right } => {
                left.lemma_entries();
                right.lemma_entries();
                self.lemma_sides();
                assert(self.entries().contains_key(left.first_key()));
                assert(self.entries().contains_key(right.first_key()));
                match other {
                    Tree::Leaf { key: k2, hash: h2 } => {
                        assert(false);
                    },
                    Tree::Branch { end: e2, left: l2, right: r2 } => {
                        l2.lemma_entries();
                        r2.lemma_entries();
                        other.lemma_sides();
                        assert(other.entries().contains_key(l2.first_key()));
                        assert(other.entries().contains_key(r2.first_key()));
                        if end < e2 {
                            assert(agree(left.first_key(), other.first_key(), e2));
                            assert(agree(right.first_key(), other.first_key(), e2));
                            assert(false);
                        }
                        if e2 < end {
                            assert(agree(l2.first_key(), self.first_key(), end));
                            assert(agree(r2.first_key(), self.first_key(), end));
                            assert(false);
                        }
                        assert forall|k: Seq<u8>|
                            left.entries().contains_key(k) == l2.entries().contains_key(k) by {
                            if left.entries().contains_key(k) {
                                assert(self.entries().contains_key(k));
                                assert(other.entries().contains_key(k));
                            }
                            if l2.entries().contains_key(k) {
                                assert(other.entries().contains_key(k));
                                assert(self.entries().contains_key(k));
                            }
                        }
                        assert forall|k: Seq<u8>|
                            right.entries().contains_key(k) == r2.entries().contains_key(k) by {
                            if right.entries().contains_key(k) {
                                assert(self.entries().contains_key(k));
                                assert(other.entries().contains_key(k));
                            }
                            if r2.entries().contains_key(k) {
                                assert(other.entries().contains_key(k));
                                assert(self.entries().contains_key(k));
                            }
                        }
                        assert forall|k: Seq<u8>| left.entries().contains_key(k) implies left.entries()[k]
                            == l2.entries()[k] by {
                            assert(self.entries().contains_key(k));
                            assert(other.entries().contains_key(k));
                        }
                        assert forall|k: Seq<u8>| right.entries().contains_key(k) implies right.entries()[k]
                            == r2.entries()[k] by {
                            assert(self.entries().contains_key(k));
                            assert(other.entries().contains_key(k));
                        }
                        assert(left.entries() =~= l2.entries());
                        assert(right.entries() =~= r2.entries());
                        left.lemma_unique(*l2);
                        right.lemma_unique(*r2);
                    },
                }
            },
        }
    }
}

/// Whether the subtrees `f`, from left to right, make up the tree `t`: `f`
/// is `t` alone, or `t` is a branch and `f` is made of subtrees that make
/// up its left subtree followed by subtrees that make up its right one.
pub open spec fn frontier_ok(f: Seq<Tree>, t: Tree) -> bool
    decreases t,
{
    f == seq![t] || match t {
        Tree::Branch { left, right, .. } => exists|m: int|
            0 < m < f.len() && frontier_ok(f.subrange(0, m), *left) && frontier_ok(
                f.subrange(m, f.len() as int),
                *right,
            ),
        Tree::Leaf { .. } => false,
    }
}

/// Where the subtrees of the left subtree end in `f`.
pub open spec fn split_of(f: Seq<Tree>, t: Tree) -> int {
    choose|m: int|
        0 < m < f.len() && frontier_ok(f.subrange(0, m), *t->left) && frontier_ok(
            f.subrange(m, f.len() as int),
            *t->right,
        )
}

/// The subtrees that make up a valid tree are valid, go on to the end of
/// its root at least, and have the bits of its first key before that end.
/// More than one subtree make up a branch: those of the left subtree come
/// first and have the bit at the end of the branch clear, those of the
/// right subtree have it set, and all go on beyond that end.
pub proof fn lemma_frontier(f: Seq<Tree>, t: Tree)
    requires
        t.valid(),
        frontier_ok(f, t),
    ensures
        f.len() >= 1,
        forall|i: int|
            0 <= i < f.len() ==> (#[trigger] f[i]).valid() && f[i].end() >= t.end() && agree(
                f[i].first_key(),
                t.first_key(),
                t.end(),
            ),
        f.len() == 1 ==> f == seq![t],
        f.len() >= 2 ==> {
            let m = split_of(f, t);
            &&& t is Branch
            &&& 0 < m < f.len()
            &&& frontier_ok(f.subrange(0, m), *t->left)
            &&& frontier_ok(f.subrange(m, f.len() as int), *t->right)
            &&& forall|i: int|
                0 <= i < f.len() ==> (#[trigger] f[i]).end() > t.end() && key_bit(
                    f[i].first_key(),
                    t.end(),
                ) == (i >= m)
        },
    decreases t,
{
    t.lemma_entries();
    if f == seq![t] {
    } else {
        let m = split_of(f, t);
        let left = *t->left;
        let right = *t->right;
        let fl = f.subrange(0, m);
        let fr = f.subrange(m, f.len() as int);
        lemma_frontier(fl, left);
        lemma_frontier(fr, right);
        left.lemma_entries();
        right.lemma_entries();
        assert forall|i: int| 0 <= i < f.len() implies (#[trigger] f[i]).valid() && f[i].end()
            > t.end() && agree(f[i].first_key(), t.first_key(), t.end()) && key_bit(
            f[i].first_key(),
            t.end(),
        ) == (i >= m) by {
            if i < m {
                assert(f[i] == fl[i]);
                assert(agree(fl[i].first_key(), left.first_key(), left.end()));
            } else {
                assert(f[i] == fr[i - m]);
                assert(agree(fr[i - m].first_key(), right.first_key(), right.end()));
            }
        }
    }
}

impl Tree {
    /// Whether the walk for `key` goes on from the root into the subtree on
    /// the side of the bit of `key` at the end of the root: the key has
    /// all bits of that subtree before its end.
    pub open spec fn goes_on(self, key: Seq<u8>) -> bool {
        let c = self.side(key_bit(key, self.end()));
        diverge(c.first_key(), key, 0, c.end()) == c.end()
    }

    /// Whether the walk for `key` comes to the leaf of `key`.
    pub open spec fn found(self, key: Seq<u8>) -> bool
        decreases self,
    {
        match self {
            Tree::Leaf { key: k0, .. } => k0 == key,
            Tree::Branch { end, left, right } => {
                let c = self.side(key_bit(key, end));
                self.goes_on(key) && (c is Leaf || c.found(key))
            },
        }
    }

    /// The subtrees to the left of the walk for `key`, from left to right.
    /// Where the walk ends at a branch without going on, its left subtree
    /// is the last of them. A tree of one other key is to the left as a
    /// whole.
    pub open spec fn lefts(self, key: Seq<u8>) -> Seq<Tree>
        decreases self,
    {
        match self {
            Tree::Leaf { key: k0, .. } => if k0 == key {
                Seq::empty()
            } else {
                seq![self]
            },
            Tree::Branch { end, left, right } => {
                let on_right = key_bit(key, end);
                let c = self.side(on_right);
                if self.goes_on(key) {
                    if c is Leaf {
                        if on_right {
                            seq![*left]
                        } else {
                            Seq::empty()
                        }
                    } else if on_right {
                        seq![*left] + c.lefts(key)
                    } else {
                        c.lefts(key)
                    }
                } else {
                    seq![*left]
                }
            },
        }
    }

    /// The subtrees to the right of the walk for `key`, from left to
    /// right. Where the walk ends at a branch without going on, its right
    /// subtree is the first of them.
    pub open spec fn rights(self, key: Seq<u8>) -> Seq<Tree>
        decreases self,
    {
        match self {
            Tree::Leaf { .. } => Seq::empty(),
            Tree::Branch { end, left, right } => {
                let on_right = key_bit(key, end);
                let c = self.side(on_right);
                if self.goes_on(key) {
                    if c is Leaf {
                        if on_right {
                            Seq::empty()
                        } else {
                            seq![*right]
                        }
                    } else if on_right {
                        c.rights(key)
                    } else {
                        c.rights(key) + seq![*right]
                    }
                } else {
                    seq![*right]
                }
            },
        }
    }

    /// The leaf of `key` if the walk comes to it, as a sequence.
    pub open spec fn middle(self, key: Seq<u8>) -> Seq<Tree> {
        if self.found(key) {
            seq![Tree::Leaf { key, hash: self.entries()[key] }]
        } else {
            Seq::empty()
        }
    }

    /// The subtrees into which the walk for `key` cuts the tree, from left
    /// to right.
    pub open spec fn cut(self, key: Seq<u8>) -> Seq<Tree> {
        self.lefts(key) + self.middle(key) + self.rights(key)
    }

    /// The walk for a key cuts a valid tree into subtrees that make it up.
    /// It comes to the leaf of the key if and only if the tree has the key.
    /// The key parts from every subtree to the left and to the right of
    /// the walk before the end of that subtree.
    pub proof fn lemma_cut(self, key: Seq<u8>)
        requires
            self.valid(),
            key.len() == 32,
        ensures
            frontier_ok(self.cut(key), self),
            self.found(key) == self.entries().contains_key(key),
            forall|i: int|
                0 <= i < self.lefts(key).len() ==> diverge(
                    (#[trigger] self.lefts(key)[i]).first_key(),
                    key,
                    0,
                    self.lefts(key)[i].end(),
                ) < self.lefts(key)[i].end(),
            forall|i: int|
                0 <= i < self.rights(key).len() ==> diverge(
                    (#[trigger] self.rights(key)[i]).first_key(),
                    key,
                    0,
                    self.rights(key)[i].end(),
                ) < self.rights(key)[i].end(),
            self is Branch ==> self.lefts(key).len() + self.rights(key).len() + self.middle(
                key,
            ).len() >= 2,
            self is Leaf ==> self.cut(key) == seq![self],
        decreases self,
    {
        self.lemma_entries();
        match self {
            Tree::Leaf { key: k0, hash } => {
                lemma_diverge(k0, key, 0, 256);
                if k0 == key {
                    assert(self.cut(key) =~= seq![self]);
                } else {
                    assert(self.cut(key) =~= seq![self]);
                    if diverge(k0, key, 0, 256) == 256 {
                        lemma_key_ext(k0, key);
                    }
                }
            },
            Tree::Branch { end, left, right } => {
                let on_right = key_bit(key, end);
                let c = self.side(on_right);
                let other = self.side(!on_right);
                self.lemma_sides();
                c.lemma_entries();
                other.lemma_entries();
                lemma_diverge(c.first_key(), key, 0, c.end());
                lemma_diverge(other.first_key(), key, 0, other.end());
                // The key parts from the other subtree at the end of the
                // branch at the latest.
                assert(diverge(other.first_key(), key, 0, other.end()) < other.end()) by {
                    if diverge(other.first_key(), key, 0, other.end()) > end {
                        assert(key_bit(other.first_key(), end) == key_bit(key, end));
                    }
                }
                assert(!other.entries().contains_key(key)) by {
                    if other.entries().contains_key(key) {
                        assert(key_bit(key, end) == !on_right);
                    }
                }
                let fl = seq![*left];
                let fr = seq![*right];
                assert(frontier_ok(fl, *left));
                assert(frontier_ok(fr, *right));
                if self.goes_on(key) {
                    c.lemma_cut(key);
                    if c is Leaf {
                        lemma_key_ext(c.first_key(), key);
                        assert(self.entries()[key] == c.entries()[key]);
                        assert(c == Tree::Leaf { key, hash: self.entries()[key] });
                        let f = self.cut(key);
                        assert(f =~= seq![*left, *right]);
                        assert(f.subrange(0, 1) =~= fl);
                        assert(f.subrange(1, 2) =~= fr);
                    } else {
                        assert(c.found(key) ==> self.entries()[key] == c.entries()[key]);
                        assert(self.middle(key) =~= c.middle(key));
                        let f = self.cut(key);
                        if on_right {
                            assert(f =~= fl + c.cut(key));
                            assert(f.subrange(0, 1) =~= fl);
                            assert(f.subrange(1, f.len() as int) =~= c.cut(key));
                        } else {
                            assert(f =~= c.cut(key) + fr);
                            let m = c.cut(key).len() as int;
                            assert(f.subrange(0, m) =~= c.cut(key));
                            assert(f.subrange(m, f.len() as int) =~= fr);
                        }
                        crate::proof_map_index::tree::lemma_frontier(c.cut(key), c);
                    }
                } else {
                    if c.entries().contains_key(key) {
                        assert(agree(key, c.first_key(), c.end()));
                        assert(false);
                    }
                    let f = self.cut(key);
                    assert(f =~= seq![*left, *right]);
                    assert(f.subrange(0, 1) =~= fl);
                    assert(f.subrange(1, 2) =~= fr);
                }
            },
        }
    }
}

/// Of the subtrees that make up a valid tree, an earlier one and a later
/// one share the bits before some bit at which the earlier one has a clear
/// bit and the later one a set bit, and both go on beyond that bit.
pub proof fn lemma_frontier_order(f: Seq<Tree>, t: Tree, i: int, j: int)
    requires
        t.valid(),
        frontier_ok(f, t),
        0 <= i < j < f.len(),
    ensures
        diverge(f[i].first_key(), f[j].first_key(), 0, 256) < f[i].end(),
        diverge(f[i].first_key(), f[j].first_key(), 0, 256) < f[j].end(),
        !key_bit(f[i].first_key(), diverge(f[i].first_key(), f[j].first_key(), 0, 256)),
        key_bit(f[j].first_key(), diverge(f[i].first_key(), f[j].first_key(), 0, 256)),
    decreases t,
{
    lemma_frontier(f, t);
    let m = split_of(f, t);
    let fl = f.subrange(0, m);
    let fr = f.subrange(m, f.len() as int);
    if j < m {
        lemma_frontier_order(fl, *t->left, i, j);
        assert(fl[i] == f[i]);
        assert(fl[j] == f[j]);
    } else if i >= m {
        lemma_frontier_order(fr, *t->right, i - m, j - m);
        assert(fr[i - m] == f[i]);
        assert(fr[j - m] == f[j]);
    } else {
        t.lemma_entries();
        assert forall|p: int| 0 <= p < t.end() implies key_bit(f[i].first_key(), p) == key_bit(
            f[j].first_key(),
            p,
        ) by {
            assert(key_bit(f[i].first_key(), p) == key_bit(t.first_key(), p));
            assert(key_bit(f[j].first_key(), p) == key_bit(t.first_key(), p));
        }
        lemma_diverge_is(f[i].first_key(), f[j].first_key(), 0, 256, t.end());
    }
}

/// Whether each of the subtrees `f` stands to the left of every later
/// one: the two share the bits before some bit at which the earlier one
/// has a clear bit and the later one a set bit, and both go on beyond it.
pub open spec fn ordered_trees(f: Seq<Tree>) -> bool {
    forall|i: int, j: int|
        0 <= i < j < f.len() ==> stands_left(#[trigger] f[i], #[trigger] f[j])
}

/// Whether the subtree `a` stands to the left of the subtree `b`.
pub open spec fn stands_left(a: Tree, b: Tree) -> bool {
    let d = diverge(a.first_key(), b.first_key(), 0, 256);
    &&& d < a.end()
    &&& d < b.end()
    &&& !key_bit(a.first_key(), d)
    &&& key_bit(b.first_key(), d)
}

/// The subtrees that make up a valid tree stand in order, and are valid.
pub proof fn lemma_frontier_ordered(f: Seq<Tree>, t: Tree)
    requires
        t.valid(),
        frontier_ok(f, t),
    ensures
        ordered_trees(f),
        forall|i: int| 0 <= i < f.len() ==> (#[trigger] f[i]).valid(),
{
    lemma_frontier(f, t);
    assert forall|i: int, j: int| 0 <= i < j < f.len() implies stands_left(
        #[trigger] f[i],
        #[trigger] f[j],
    ) by {
        lemma_frontier_order(f, t, i, j);
    }
}

/// The subtrees `f` without the leaves of the keys `keys`.
pub open spec fn unlisted(f: Seq<Tree>, keys: Set<Seq<u8>>) -> Seq<Tree>
    decreases f.len(),
{
    if f.len() == 0 {
        Seq::empty()
    } else if f.last() is Leaf && keys.contains(f.last().first_key()) {
        unlisted(f.drop_last(), keys)
    } else {
        unlisted(f.drop_last(), keys).push(f.last())
    }
}

/// Leaves are hidden in each part of a sequence by itself.
pub proof fn lemma_unlisted_add(a: Seq<Tree>, b: Seq<Tree>, keys: Set<Seq<u8>>)
    ensures
        unlisted(a + b, keys) == unlisted(a, keys) + unlisted(b, keys),
    decreases b.len(),
{
    if b.len() == 0 {
        assert(a + b =~= a);
        assert(unlisted(a, keys) + unlisted(b, keys) =~= unlisted(a, keys));
    } else {
        assert((a + b).drop_last() =~= a + b.drop_last());
        assert((a + b).last() == b.last());
        lemma_unlisted_add(a, b.drop_last(), keys);
        assert((unlisted(a, keys) + unlisted(b.drop_last(), keys)).push(b.last()) =~= unlisted(a, keys) + unlisted(
            b.drop_last(),
            keys,
        ).push(b.last()));
    }
}

/// Two sets of keys that have the same keys of the leaves among `f` hide
/// the same.
pub proof fn lemma_unlisted_same(f: Seq<Tree>, k1: Set<Seq<u8>>, k2: Set<Seq<u8>>)
    requires
        forall|i: int|
            0 <= i < f.len() && (#[trigger] f[i]) is Leaf ==> k1.contains(f[i].first_key())
                == k2.contains(f[i].first_key()),
    ensures
        unlisted(f, k1) == unlisted(f, k2),
    decreases f.len(),
{
    if f.len() > 0 {
        let g = f.drop_last();
        assert forall|i: int| 0 <= i < g.len() && (#[trigger] g[i]) is Leaf implies k1.contains(
            g[i].first_key(),
        ) == k2.contains(g[i].first_key()) by {
            assert(g[i] == f[i]);
        }
        lemma_unlisted_same(g, k1, k2);
        assert(f.last() == f[f.len() - 1]);
    }
}

/// Keys of which `f` has no leaf hide nothing.
pub proof fn lemma_unlisted_nothing(f: Seq<Tree>, keys: Set<Seq<u8>>)
    requires
        forall|i: int|
            0 <= i < f.len() ==> !((#[trigger] f[i]) is Leaf && keys.contains(f[i].first_key())),
    ensures
        unlisted(f, keys) == f,
    decreases f.len(),
{
    if f.len() > 0 {
        let g = f.drop_last();
        assert forall|i: int| 0 <= i < g.len() implies !((#[trigger] g[i]) is Leaf && keys.contains(
            g[i].first_key(),
        )) by {
            assert(g[i] == f[i]);
        }
        lemma_unlisted_nothing(g, keys);
        assert(f.last() == f[f.len() - 1]);
        assert(g.push(f.last()) =~= f);
    }
}

/// What is left of subtrees that stand in order stands in order, and each
/// is one of the subtrees.
pub proof fn lemma_unlisted_ordered(f: Seq<Tree>, keys: Set<Seq<u8>>)
    requires
        ordered_trees(f),
    ensures
        ordered_trees(unlisted(f, keys)),
        forall|i: int|
            0 <= i < unlisted(f, keys).len() ==> exists|j: int|
                0 <= j < f.len() && #[trigger] f[j] == #[trigger] unlisted(f, keys)[i],
    decreases f.len(),
{
    if f.len() > 0 {
        let g = f.drop_last();
        let h = unlisted(g, keys);
        let r = unlisted(f, keys);
        assert forall|i: int, j: int| 0 <= i < j < g.len() implies stands_left(
            #[trigger] g[i],
            #[trigger] g[j],
        ) by {
            assert(g[i] == f[i]);
            assert(g[j] == f[j]);
        }
        lemma_unlisted_ordered(g, keys);
        assert forall|i: int| 0 <= i < r.len() implies exists|j: int|
            0 <= j < f.len() && #[trigger] f[j] == #[trigger] r[i] by {
            if i < h.len() {
                let j = choose|j: int| 0 <= j < g.len() && #[trigger] g[j] == h[i];
                assert(f[j] == g[j]);
                assert(r[i] == h[i]);
            } else {
                assert(f[f.len() - 1] == r[i]);
            }
        }
        assert forall|i: int, j: int| 0 <= i < j < r.len() implies stands_left(
            #[trigger] r[i],
            #[trigger] r[j],
        ) by {
            if j < h.len() {
                assert(r[i] == h[i]);
                assert(r[j] == h[j]);
            } else {
                let u = choose|u: int| 0 <= u < g.len() && #[trigger] g[u] == h[i];
                assert(f[u] == g[u]);
                assert(r[i] == h[i]);
                assert(r[j] == f[f.len() - 1]);
                assert(stands_left(f[u], f[f.len() - 1]));
            }
        }
    }
}

/// Whether the walk for `key` in the tree `t` stands at the subtree `n`,
/// with the subtrees `gl` to its left, from left to right, and the
/// subtrees `gr` to its right, from right to left.
pub open spec fn walk_at(t: Tree, n: Tree, key: Seq<u8>, gl: Seq<Tree>, gr: Seq<Tree>) -> bool {
    &&& t.lefts(key) == gl + n.lefts(key)
    &&& t.rights(key) == n.rights(key) + gr.reverse()
    &&& t.found(key) == n.found(key)
}

/// Whether the walk for `key` in the tree `t` has ended with the subtrees
/// `gl` to its left, from left to right, and the subtrees `gr` to its
/// right, from right to left, at the leaf of the key if `found`.
pub open spec fn walk_ends(t: Tree, key: Seq<u8>, gl: Seq<Tree>, gr: Seq<Tree>, found: bool) -> bool {
    &&& t.lefts(key) == gl
    &&& t.rights(key) == gr.reverse()
    &&& t.found(key) == found
}

/// The walk begins at the root, with nothing beside it.
pub proof fn lemma_walk_begins(t: Tree, key: Seq<u8>)
    ensures
        walk_at(t, t, key, Seq::empty(), Seq::empty()),
{
    assert(Seq::<Tree>::empty() + t.lefts(key) =~= t.lefts(key));
    assert(t.rights(key) + Seq::<Tree>::empty().reverse() =~= t.rights(key));
}

/// One step of the walk from a branch: where it goes on, the subtree on
/// the other side comes to stand beside it, and it stands at the subtree
/// on the side of the key, or has ended there if that is a leaf; where it
/// does not go on, it ends with both subtrees beside it.
pub proof fn lemma_walk_step(t: Tree, n: Tree, key: Seq<u8>, gl: Seq<Tree>, gr: Seq<Tree>)
    requires
        n is Branch,
        walk_at(t, n, key, gl, gr),
    ensures
        ({
            let bit = key_bit(key, n.end());
            let c = n.side(bit);
            let o = n.side(!bit);
            let gl1 = if bit {
                gl.push(o)
            } else {
                gl
            };
            let gr1 = if bit {
                gr
            } else {
                gr.push(o)
            };
            if n.goes_on(key) {
                if c is Leaf {
                    walk_ends(t, key, gl1, gr1, true)
                } else {
                    walk_at(t, c, key, gl1, gr1)
                }
            } else {
                walk_ends(t, key, gl.push(*n->left), gr.push(*n->right), false)
            }
        }),
{
    let bit = key_bit(key, n.end());
    let c = n.side(bit);
    let o = n.side(!bit);
    let left = *n->left;
    let right = *n->right;
    assert(gr.push(right).reverse() =~= seq![right] + gr.reverse());
    if n.goes_on(key) {
        if c is Leaf {
            if bit {
                assert(gl + seq![left] =~= gl.push(left));
                assert(Seq::<Tree>::empty() + gr.reverse() =~= gr.reverse());
            } else {
                assert(gl + Seq::<Tree>::empty() =~= gl);
            }
        } else {
            if bit {
                assert(gl + (seq![left] + c.lefts(key)) =~= gl.push(left) + c.lefts(key));
            } else {
                assert((c.rights(key) + seq![right]) + gr.reverse() =~= c.rights(key) + gr.push(
                    right,
                ).reverse());
            }
        }
    } else {
        assert(gl + seq![left] =~= gl.push(left));
    }
}

/// Whether the walk for `key` comes into the subtree `c`: the key has all
/// bits of the subtree before its end.
pub open spec fn enters(key: Seq<u8>, c: Tree) -> bool {
    diverge(c.first_key(), key, 0, c.end()) == c.end()
}

/// Whether the walk for one of `keys` comes into the subtree `c`.
pub open spec fn any_enters(keys: Seq<Seq<u8>>, c: Tree) -> bool {
    exists|i: int| 0 <= i < keys.len() && enters(#[trigger] keys[i], c)
}

/// The subtrees into which the walks for `keys` cut the subtree `c`, from
/// left to right: a leaf is left as it is, and so is a branch into which no
/// walk comes; a branch into which a walk comes is cut into what its two
/// subtrees are cut into.
pub open spec fn spread(c: Tree, keys: Seq<Seq<u8>>) -> Seq<Tree>
    decreases c,
{
    match c {
        Tree::Leaf { .. } => seq![c],
        Tree::Branch { left, right, .. } => if any_enters(keys, c) {
            spread(*left, keys) + spread(*right, keys)
        } else {
            seq![c]
        },
    }
}

/// The subtrees of `spread` without the leaves into which a walk comes.
pub open spec fn spread_parts(c: Tree, keys: Seq<Seq<u8>>) -> Seq<Tree>
    decreases c,
{
    match c {
        Tree::Leaf { .. } => if any_enters(keys, c) {
            Seq::empty()
        } else {
            seq![c]
        },
        Tree::Branch { left, right, .. } => if any_enters(keys, c) {
            spread_parts(*left, keys) + spread_parts(*right, keys)
        } else {
            seq![c]
        },
    }
}

/// The subtrees into which the walks for `keys` cut the tree `t`, from left
/// to right: a root branch is cut into what its two subtrees are cut into.
pub open spec fn cut_all(t: Tree, keys: Seq<Seq<u8>>) -> Seq<Tree> {
    match t {
        Tree::Leaf { .. } => seq![t],
        Tree::Branch { left, right, .. } => spread(*left, keys) + spread(*right, keys),
    }
}

/// The subtrees of `cut_all` without the leaves into which a walk comes.
pub open spec fn cut_parts(t: Tree, keys: Seq<Seq<u8>>) -> Seq<Tree> {
    match t {
        Tree::Leaf { .. } => if any_enters(keys, t) {
            Seq::empty()
        } else {
            seq![t]
        },
        Tree::Branch { left, right, .. } => spread_parts(*left, keys) + spread_parts(*right, keys),
    }
}

/// Two sequences of subtrees that make up the two subtrees of a branch
/// make up the branch, one after the other.
pub proof fn lemma_frontier_join(a: Seq<Tree>, b: Seq<Tree>, t: Tree)
    requires
        t.valid(),
        t is Branch,
        frontier_ok(a, *t->left),
        frontier_ok(b, *t->right),
    ensures
        frontier_ok(a + b, t),
        (a + b).len() >= 2,
{
    lemma_frontier(a, *t->left);
    lemma_frontier(b, *t->right);
    let f = a + b;
    let m = a.len() as int;
    assert(f.subrange(0, m) =~= a);
    assert(f.subrange(m, f.len() as int) =~= b);
}

/// The walks for keys cut a valid subtree into subtrees that make it up.
pub proof fn lemma_spread_frontier(c: Tree, keys: Seq<Seq<u8>>)
    requires
        c.valid(),
    ensures
        frontier_ok(spread(c, keys), c),
    decreases c,
{
    match c {
        Tree::Leaf { .. } => {},
        Tree::Branch { left, right, .. } => {
            if any_enters(keys, c) {
                lemma_spread_frontier(*left, keys);
                lemma_spread_frontier(*right, keys);
                lemma_frontier_join(spread(*left, keys), spread(*right, keys), c);
            }
        },
    }
}

/// A walk comes into a leaf if and only if it is the walk for the key of
/// the leaf, and into a valid subtree that has its key.
pub proof fn lemma_enters(key: Seq<u8>, c: Tree)
    requires
        c.valid(),
        key.len() == 32,
    ensures
        c is Leaf ==> (enters(key, c) <==> key == c.first_key()),
        c.entries().contains_key(key) ==> enters(key, c),
        diverge(c.first_key(), key, 0, c.end()) <= c.end(),
{
    c.lemma_entries();
    lemma_diverge(c.first_key(), key, 0, c.end());
    if c is Leaf && enters(key, c) {
        lemma_key_ext(key, c.first_key());
    }
    if c.entries().contains_key(key) {
        lemma_diverge_is(c.first_key(), key, 0, c.end(), c.end());
    }
}

/// The leaf of one of the keys that a valid subtree has, and into which
/// the walk for the key comes, is among the subtrees into which the walks
/// cut it.
pub proof fn lemma_spread_found(c: Tree, keys: Seq<Seq<u8>>, i: int)
    requires
        c.valid(),
        0 <= i < keys.len(),
        keys[i].len() == 32,
        c.entries().contains_key(keys[i]),
    ensures
        exists|p: int|
            0 <= p < spread(c, keys).len() && #[trigger] spread(c, keys)[p] == (Tree::Leaf {
                key: keys[i],
                hash: c.entries()[keys[i]],
            }),
    decreases c,
{
    let k = keys[i];
    lemma_enters(k, c);
    match c {
        Tree::Leaf { .. } => {
            assert(spread(c, keys)[0] == c);
        },
        Tree::Branch { left, right, .. } => {
            assert(enters(keys[i], c));
            assert(any_enters(keys, c));
            c.lemma_sides();
            let a = spread(*left, keys);
            let b = spread(*right, keys);
            let leaf = Tree::Leaf { key: k, hash: c.entries()[k] };
            if left.entries().contains_key(k) {
                lemma_spread_found(*left, keys, i);
                let p = choose|p: int| 0 <= p < a.len() && #[trigger] a[p] == leaf;
                assert((a + b)[p] == leaf);
            } else {
                lemma_spread_found(*right, keys, i);
                let p = choose|p: int| 0 <= p < b.len() && #[trigger] b[p] == leaf;
                assert((a + b)[a.len() + p] == leaf);
            }
        },
    }
}

/// The walk for one of the keys that a valid subtree does not have comes
/// into none of the subtrees into which the walks cut it.
pub proof fn lemma_spread_missing(c: Tree, keys: Seq<Seq<u8>>, i: int)
    requires
        c.valid(),
        0 <= i < keys.len(),
        keys[i].len() == 32,
        !c.entries().contains_key(keys[i]),
    ensures
        forall|p: int|
            0 <= p < spread(c, keys).len() ==> diverge(
                (#[trigger] spread(c, keys)[p]).first_key(),
                keys[i],
                0,
                spread(c, keys)[p].end(),
            ) < spread(c, keys)[p].end(),
    decreases c,
{
    let k = keys[i];
    lemma_enters(k, c);
    match c {
        Tree::Leaf { .. } => {},
        Tree::Branch { left, right, .. } => {
            if any_enters(keys, c) {
                let a = spread(*left, keys);
                let b = spread(*right, keys);
                lemma_spread_missing(*left, keys, i);
                lemma_spread_missing(*right, keys, i);
                assert forall|p: int| 0 <= p < (a + b).len() implies diverge(
                    (#[trigger] (a + b)[p]).first_key(),
                    k,
                    0,
                    (a + b)[p].end(),
                ) < (a + b)[p].end() by {
                    if p < a.len() {
                        assert((a + b)[p] == a[p]);
                    } else {
                        assert((a + b)[p] == b[p - a.len()]);
                    }
                }
            } else {
                assert(!enters(keys[i], c));
            }
        },
    }
}

/// The keys of the two subtrees of a branch are keys of the branch.
pub proof fn lemma_side_keys(c: Tree)
    requires
        c is Branch,
    ensures
        forall|k: Seq<u8>| #[trigger]
            c->left.entries().contains_key(k) ==> c.entries().contains_key(k),
        forall|k: Seq<u8>| #[trigger]
            c->right.entries().contains_key(k) ==> c.entries().contains_key(k),
{
}

/// Without the leaves of the keys `found`, which has of the keys of a
/// valid subtree those for which there is a walk, the subtrees into which
/// the walks cut it are those without the leaves into which a walk comes.
pub proof fn lemma_spread_parts(c: Tree, keys: Seq<Seq<u8>>, found: Set<Seq<u8>>)
    requires
        c.valid(),
        forall|i: int| 0 <= i < keys.len() ==> (#[trigger] keys[i]).len() == 32,
        forall|k: Seq<u8>| #[trigger]
            c.entries().contains_key(k) ==> (found.contains(k) <==> keys.contains(k)),
    ensures
        unlisted(spread(c, keys), found) == spread_parts(c, keys),
    decreases c,
{
    c.lemma_entries();
    assert(seq![c].drop_last() =~= Seq::<Tree>::empty());
    assert(seq![c].last() == c);
    assert(unlisted(Seq::<Tree>::empty(), found) =~= Seq::<Tree>::empty());
    match c {
        Tree::Leaf { key, .. } => {
            if any_enters(keys, c) {
                let i = choose|i: int| 0 <= i < keys.len() && enters(#[trigger] keys[i], c);
                lemma_enters(keys[i], c);
                assert(keys.contains(key));
            }
            if keys.contains(key) {
                let i = choose|i: int| 0 <= i < keys.len() && keys[i] == key;
                lemma_enters(keys[i], c);
                assert(enters(keys[i], c));
            }
            assert(unlisted(seq![c], found) =~= spread_parts(c, keys));
        },
        Tree::Branch { left, right, .. } => {
            if any_enters(keys, c) {
                lemma_side_keys(c);
                lemma_spread_parts(*left, keys, found);
                lemma_spread_parts(*right, keys, found);
                lemma_unlisted_add(spread(*left, keys), spread(*right, keys), found);
            } else {
                assert(unlisted(seq![c], found) =~= seq![c]);
            }
        },
    }
}

/// The walks for keys cut a valid tree into subtrees that make it up, more
/// than one for a branch. The leaf of each key that the tree has is among
/// them, and the walk for a key that the tree does not have comes into
/// none of them. Without the leaves of the keys found they are the
/// subtrees without the leaves into which a walk comes.
pub proof fn lemma_cut_all(t: Tree, keys: Seq<Seq<u8>>, found: Set<Seq<u8>>)
    requires
        t.valid(),
        forall|i: int| 0 <= i < keys.len() ==> (#[trigger] keys[i]).len() == 32,
        forall|k: Seq<u8>| #[trigger]
            t.entries().contains_key(k) ==> (found.contains(k) <==> keys.contains(k)),
    ensures
        frontier_ok(cut_all(t, keys), t),
        cut_all(t, keys).len() >= 2 || t is Leaf,
        unlisted(cut_all(t, keys), found) == cut_parts(t, keys),
        forall|i: int|
            0 <= i < keys.len() && t.entries().contains_key(#[trigger] keys[i]) ==> exists|p: int|
                0 <= p < cut_all(t, keys).len() && #[trigger] cut_all(t, keys)[p] == (Tree::Leaf {
                    key: keys[i],
                    hash: t.entries()[keys[i]],
                }),
        forall|i: int, p: int|
            0 <= i < keys.len() && !t.entries().contains_key(#[trigger] keys[i]) && 0 <= p
                < cut_all(t, keys).len() ==> diverge(
                (#[trigger] cut_all(t, keys)[p]).first_key(),
                keys[i],
                0,
                cut_all(t, keys)[p].end(),
            ) < cut_all(t, keys)[p].end(),
{
    let f = cut_all(t, keys);
    match t {
        Tree::Leaf { .. } => {
            lemma_spread_parts(t, keys, found);
            assert forall|i: int|
                0 <= i < keys.len() && t.entries().contains_key(
                    #[trigger] keys[i],
                ) implies exists|p: int|
                0 <= p < f.len() && #[trigger] f[p] == (Tree::Leaf {
                    key: keys[i],
                    hash: t.entries()[keys[i]],
                }) by {
                lemma_spread_found(t, keys, i);
            }
            assert forall|i: int, p: int|
                0 <= i < keys.len() && !t.entries().contains_key(#[trigger] keys[i]) && 0 <= p
                    < f.len() implies diverge((#[trigger] f[p]).first_key(), keys[i], 0, f[p].end())
                < f[p].end() by {
                lemma_spread_missing(t, keys, i);
            }
        },
        Tree::Branch { left, right, .. } => {
            let a = spread(*left, keys);
            let b = spread(*right, keys);
            t.lemma_sides();
            lemma_spread_frontier(*left, keys);
            lemma_spread_frontier(*right, keys);
            lemma_frontier_join(a, b, t);
            lemma_side_keys(t);
            lemma_spread_parts(*left, keys, found);
            lemma_spread_parts(*right, keys, found);
            lemma_unlisted_add(a, b, found);
            assert forall|i: int|
                0 <= i < keys.len() && t.entries().contains_key(
                    #[trigger] keys[i],
                ) implies exists|p: int|
                0 <= p < f.len() && #[trigger] f[p] == (Tree::Leaf {
                    key: keys[i],
                    hash: t.entries()[keys[i]],
                }) by {
                let k = keys[i];
                let leaf = Tree::Leaf { key: k, hash: t.entries()[k] };
                if left.entries().contains_key(k) {
                    lemma_spread_found(*left, keys, i);
                    let p = choose|p: int| 0 <= p < a.len() && #[trigger] a[p] == leaf;
                    assert(f[p] == leaf);
                } else {
                    lemma_spread_found(*right, keys, i);
                    let p = choose|p: int| 0 <= p < b.len() && #[trigger] b[p] == leaf;
                    assert(f[a.len() + p] == leaf);
                }
            }
            assert forall|i: int, p: int|
                0 <= i < keys.len() && !t.entries().contains_key(#[trigger] keys[i]) && 0 <= p
                    < f.len() implies diverge((#[trigger] f[p]).first_key(), keys[i], 0, f[p].end())
                < f[p].end() by {
                lemma_spread_missing(*left, keys, i);
                lemma_spread_missing(*right, keys, i);
                if p < a.len() {
                    assert(f[p] == a[p]);
                } else {
                    assert(f[p] == b[p - a.len()]);
                }
            }
        },
    }
}

} // verus!
