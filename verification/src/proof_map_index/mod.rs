//! A Merkelized map: a Merkle Patricia tree over 256-bit keys.
//!
//! The map keeps two families of keys in its view. Under the 34 bytes of a
//! path lies a node of the tree: the hash of the value for a leaf, the
//! branch for a branch. Under a tag byte followed by a key of the map lies
//! the value of that key.

pub mod key;
pub mod node;
pub mod map_proof;
pub mod contents;
pub mod prover;
pub mod tree;

use core::marker::PhantomData;
use vstd::prelude::*;
use vstd::view::View as _;

use crate::address::{AddressModel, IndexAddress};
use crate::changes::ViewChanges;
use crate::hash::{hash, hashable, sha256};
use crate::index_metadata::{IndexMetadata, IndexType};
use crate::keys::{key_bytes, StorageKey};
use crate::bits::key_bit;
use crate::db::lookup;
use crate::lex::{lemma_lex_total, lex_le};
use crate::listing::is_listing;
use crate::proof_map_index::key::{
    BitsRange, ChildKind, ProofMapKey, ProofPath, BRANCH_KEY_PREFIX, LEAF_KEY_PREFIX,
    PROOF_PATH_SIZE, VALUE_KEY_PREFIX,
};
use crate::proof_map_index::node::{is_branch_image, BranchNode, Node};
use crate::proof_map_index::tree::{
    agree, diverge, is_path_key, join, leaf_key, lemma_diverge, lemma_diverge_is,
    lemma_same_stored_form, lemma_stored_form, lemma_stored_twice, raw_of, Tree,
};
use crate::values::StorageValue;
use crate::views::{opened, rest_of, ChangeSet, IndexAccess, Recorder, IndexBuilder, Iter, View};

verus! {

/// The key of the view under which the value of `key` lies.
pub open spec fn value_key(key: Seq<u8>) -> Seq<u8> {
    seq![VALUE_KEY_PREFIX] + key
}

/// Whether `x` is a key of the view under which a value lies.
pub open spec fn is_value_key(x: Seq<u8>) -> bool {
    x.len() > 0 && x[0] == VALUE_KEY_PREFIX
}

/// Whether `x` is a key of the view under which a node lies.
pub open spec fn is_node_key(x: Seq<u8>) -> bool {
    x.len() == PROOF_PATH_SIZE && (x[0] == BRANCH_KEY_PREFIX || x[0] == LEAF_KEY_PREFIX) && (x[0]
        == LEAF_KEY_PREFIX ==> x[33] == 0) && crate::proof_map_index::key::stored_form(x) == x
}

/// Whether `e` is the entry of `m` with the least key.
pub open spec fn is_first(m: Map<Seq<u8>, Seq<u8>>, e: (Seq<u8>, Seq<u8>)) -> bool {
    &&& m.contains_key(e.0)
    &&& m[e.0] == e.1
    &&& forall|x: Seq<u8>| #[trigger] m.contains_key(x) ==> lex_le(e.0, x)
}

/// The root of the tree kept in `m`: the entry with the least key, if that
/// is a leaf with a hash or a branch.
pub open spec fn root_entry(m: Map<Seq<u8>, Seq<u8>>) -> Option<(Seq<u8>, Seq<u8>)> {
    if exists|e: (Seq<u8>, Seq<u8>)| is_first(m, e) {
        let e = choose|e: (Seq<u8>, Seq<u8>)| is_first(m, e);
        if is_node_key(e.0) && (if e.0[0] == LEAF_KEY_PREFIX {
            e.1.len() == 32
        } else {
            is_branch_image(e.1)
        }) {
            Some(e)
        } else {
            None
        }
    } else {
        None
    }
}

/// The root hash of the tree kept in `m`: zeros for no tree, the hash of
/// path and value hash for a single leaf, the hash of the branch else.
pub open spec fn root_hash_of(m: Map<Seq<u8>, Seq<u8>>) -> Seq<u8> {
    match root_entry(m) {
        None => crate::hash::Hash::zero_view(),
        Some(e) => if e.0[0] == LEAF_KEY_PREFIX {
            sha256(e.0 + e.1)
        } else {
            sha256(e.1)
        },
    }
}

/// A map has one entry with the least key at most.
pub proof fn lemma_first_unique(m: Map<Seq<u8>, Seq<u8>>, a: (Seq<u8>, Seq<u8>), b: (Seq<u8>, Seq<u8>))
    requires
        is_first(m, a),
        is_first(m, b),
    ensures
        a == b,
{
    lemma_lex_total(a.0, b.0);
}

/// Whether the store `store` holds the tree `t` with the values of its
/// keys, and nothing else: under every key of the store lies a node of the
/// tree, or the value of a key of the tree; every node of the tree lies in
/// the store; and the tree has for each of its keys the hash that `hash_of`
/// gives for the value stored.
pub open spec fn store_holds(
    store: Map<Seq<u8>, Seq<u8>>,
    t: Tree,
    hash_of: spec_fn(Seq<u8>) -> Seq<u8>,
) -> bool {
    &&& t.valid()
    &&& forall|x: Seq<u8>|
        #[trigger] store.contains_key(x) ==> (t.nodes().contains_key(x) && t.nodes()[x]
            == store[x]) || (is_value_key(x) && t.entries().contains_key(x.skip(1)))
    &&& forall|x: Seq<u8>|
        #[trigger] t.nodes().contains_key(x) ==> store.contains_key(x) && store[x] == t.nodes()[x]
    &&& forall|k: Seq<u8>|
        #[trigger] t.entries().contains_key(k) ==> store.contains_key(value_key(k)) && hash_of(
            store[value_key(k)],
        ) == t.entries()[k]
}

/// Whether a store holds a map: nothing at all, or the tree of the keys
/// with their values.
pub open spec fn valid_store(store: Map<Seq<u8>, Seq<u8>>, hash_of: spec_fn(Seq<u8>) -> Seq<u8>) -> bool {
    store == Map::<Seq<u8>, Seq<u8>>::empty() || exists|t: Tree| store_holds(store, t, hash_of)
}

/// The root hash of a store that holds nothing is the hash of zeros.
pub proof fn lemma_blank_root(store: Map<Seq<u8>, Seq<u8>>)
    requires
        store == Map::<Seq<u8>, Seq<u8>>::empty(),
    ensures
        root_hash_of(store) == crate::hash::Hash::zero_view(),
{
    assert forall|e: (Seq<u8>, Seq<u8>)| !is_first(store, e) by {}
}

/// The root hash of a map is determined by what the map holds: two stores
/// that hold maps with the same values under the same keys have the same
/// root hash, whatever the order in which the keys came, and whatever was
/// put and taken out again on the way.
pub proof fn lemma_root_hash_by_contents(
    a: Map<Seq<u8>, Seq<u8>>,
    b: Map<Seq<u8>, Seq<u8>>,
    hash_of: spec_fn(Seq<u8>) -> Seq<u8>,
)
    requires
        valid_store(a, hash_of),
        valid_store(b, hash_of),
        forall|k: Seq<u8>| lookup(a, value_key(k)) == lookup(b, value_key(k)),
    ensures
        root_hash_of(a) == root_hash_of(b),
{
    let blank = Map::<Seq<u8>, Seq<u8>>::empty();
    if a == blank && b == blank {
    } else if a == blank {
        let tb = choose|t: Tree| store_holds(b, t, hash_of);
        tb.lemma_entries();
        assert(lookup(a, value_key(tb.first_key())) == lookup(b, value_key(tb.first_key())));
        assert(false);
    } else if b == blank {
        let ta = choose|t: Tree| store_holds(a, t, hash_of);
        ta.lemma_entries();
        assert(lookup(a, value_key(ta.first_key())) == lookup(b, value_key(ta.first_key())));
        assert(false);
    } else {
        let ta = choose|t: Tree| store_holds(a, t, hash_of);
        let tb = choose|t: Tree| store_holds(b, t, hash_of);
        lemma_one_tree(a, ta, b, tb, hash_of);
    }
}

/// In a store that holds a tree the root of the tree is the first entry.
pub proof fn lemma_holds_root(
    store: Map<Seq<u8>, Seq<u8>>,
    t: Tree,
    hash_of: spec_fn(Seq<u8>) -> Seq<u8>,
)
    requires
        store_holds(store, t, hash_of),
    ensures
        root_entry(store) == Some((t.node_key(), t.node_value())),
        is_node_key(t.node_key()),
        t.node_key()[0] == LEAF_KEY_PREFIX <==> t is Leaf,
        root_hash_of(store) == t.root_hash(),
{
    t.lemma_nodes();
    t.lemma_root_first();
    t.lemma_entries();
    let e = (t.node_key(), t.node_value());
    lemma_stored_form(t.raw_path());
    assert forall|x: Seq<u8>| #[trigger] store.contains_key(x) implies lex_le(e.0, x) by {
        if t.nodes().contains_key(x) {
        } else {
            crate::lex::lemma_first_byte(e.0, x);
        }
    }
    assert(is_first(store, e));
    let c = choose|c: (Seq<u8>, Seq<u8>)| is_first(store, c);
    lemma_first_unique(store, c, e);
    match t {
        Tree::Leaf { key, hash } => {},
        Tree::Branch { .. } => {
            t.lemma_image();
        },
    }
}

/// The keys of a tree that a store holds are the keys under which the
/// store has values.
pub proof fn lemma_holds_keys(
    store: Map<Seq<u8>, Seq<u8>>,
    t: Tree,
    hash_of: spec_fn(Seq<u8>) -> Seq<u8>,
)
    requires
        store_holds(store, t, hash_of),
    ensures
        forall|k: Seq<u8>| t.entries().contains_key(k) <==> #[trigger] store.contains_key(value_key(k)),
{
    t.lemma_nodes();
    assert forall|k: Seq<u8>| #[trigger] store.contains_key(value_key(k)) implies t.entries().contains_key(
        k,
    ) by {
        let x = value_key(k);
        assert(x.skip(1) =~= k);
        if t.nodes().contains_key(x) {
            assert(is_path_key(x));
        }
    }
}

/// Two stores that hold trees and have the same values under the same keys
/// hold the same tree, and so have the same root hash.
pub proof fn lemma_one_tree(
    a: Map<Seq<u8>, Seq<u8>>,
    ta: Tree,
    b: Map<Seq<u8>, Seq<u8>>,
    tb: Tree,
    hash_of: spec_fn(Seq<u8>) -> Seq<u8>,
)
    requires
        store_holds(a, ta, hash_of),
        store_holds(b, tb, hash_of),
        forall|k: Seq<u8>| lookup(a, value_key(k)) == lookup(b, value_key(k)),
    ensures
        ta == tb,
        root_hash_of(a) == root_hash_of(b),
{
    lemma_holds_keys(a, ta, hash_of);
    lemma_holds_keys(b, tb, hash_of);
    assert forall|k: Seq<u8>| ta.entries().contains_key(k) == tb.entries().contains_key(k) by {
        assert(lookup(a, value_key(k)) == lookup(b, value_key(k)));
    }
    assert forall|k: Seq<u8>| ta.entries().contains_key(k) implies ta.entries()[k]
        == tb.entries()[k] by {
        assert(lookup(a, value_key(k)) == lookup(b, value_key(k)));
    }
    assert(ta.entries() =~= tb.entries());
    ta.lemma_unique(tb);
    lemma_holds_root(a, ta, hash_of);
    lemma_holds_root(b, tb, hash_of);
}

/// What removing a key from the part of the tree under a branch has come
/// to.
pub enum RemoveAction {
    /// The key is not in that part of the tree.
    KeyNotFound,
    /// The child was the leaf of the key; it is gone.
    Leaf,
    /// The child was a branch that is left with one child, of the given
    /// path and hash; the branch is gone.
    Branch(ProofPath, crate::hash::Hash),
    /// The child is still there, with the given hash.
    UpdateHash(crate::hash::Hash),
}

/// A Merkelized map from 32-byte keys to values, with proofs that a key is
/// or is not in it.
pub struct ProofMapIndex<C: ChangeSet, K, V> {
    /// The view under the map.
    pub base: View<C>,
    /// Marks the type of the keys.
    pub _k: PhantomData<K>,
    /// Marks the type of the values.
    pub _v: PhantomData<V>,
}

/// An iterator over the entries of a `ProofMapIndex`, in ascending order of
/// the keys.
pub struct ProofMapIndexIter<K, V> {
    base_iter: Iter<Vec<u8>, V>,
    _k: PhantomData<K>,
}

/// An iterator over the keys of a `ProofMapIndex`, in ascending order.
pub struct ProofMapIndexKeys<K> {
    base_iter: Iter<Vec<u8>, Vec<u8>>,
    _k: PhantomData<K>,
}

/// An iterator over the values of a `ProofMapIndex`, in ascending order of
/// their keys.
pub struct ProofMapIndexValues<V> {
    base_iter: Iter<Vec<u8>, V>,
}

/// Returns the key of the view under which the value of `key` lies.
pub fn to_value_path<K: StorageKey>(key: &K) -> (r: Vec<u8>)
    ensures
        r@ == value_key(key.spec_bytes()),
{
    let mut buf: Vec<u8> = Vec::new();
    buf.push(VALUE_KEY_PREFIX);
    let raw = key_bytes(key);
    buf.extend_from_slice(raw.as_slice());
    assert(buf@ =~= value_key(key.spec_bytes()));
    buf
}

/// Returns the key of `path` without the tag byte in front of it; `None`
/// where `buffer` is no key under which a value lies, or where what follows
/// the tag is the encoding of no key.
pub fn from_value_path<K: StorageKey>(buffer: &[u8]) -> (r: Option<K>)
    ensures
        r is Some <==> (is_value_key(buffer@) && K::is_encoding(buffer@.skip(1))),
        r matches Some(k) ==> value_key(k.spec_bytes()) == buffer@,
{
    if buffer.len() == 0 || buffer[0] != VALUE_KEY_PREFIX {
        return None;
    }
    let rest = vstd::slice::slice_subrange(buffer, 1, buffer.len());
    assert(rest@ =~= buffer@.skip(1));
    let r = K::read(rest);
    proof {
        if r is Some {
            assert(value_key(r->0.spec_bytes()) =~= buffer@);
        }
    }
    r
}

/// Returns the key of the view under which the node of `path` lies.
pub fn path_key(path: &ProofPath) -> (r: Vec<u8>)
    ensures
        r@ == path.spec_serialize(),
        r@.len() == PROOF_PATH_SIZE,
        r@[0] == path.raw()[0],
{
    let mut buf: Vec<u8> = crate::values::zeros(PROOF_PATH_SIZE);
    path.write(buf.as_mut_slice());
    buf
}

/// Returns `true` if the kind byte of `path` is that of a branch or of a
/// leaf.
pub fn kind_is_known(path: &ProofPath) -> (r: bool)
    ensures
        r == (path.raw()[0] == BRANCH_KEY_PREFIX || path.raw()[0] == LEAF_KEY_PREFIX),
{
    let bytes = path.as_bytes();
    bytes[0] == BRANCH_KEY_PREFIX || bytes[0] == LEAF_KEY_PREFIX
}

impl<C: ChangeSet, K: ProofMapKey, V: StorageValue> ProofMapIndex<C, K, V> {
    /// The view under the map.
    pub open spec fn view(&self) -> View<C> {
        self.base
    }

    /// The value stored for `key`.
    pub open spec fn entry(&self, key: Seq<u8>) -> Option<Seq<u8>> {
        self.view().read(value_key(key))
    }

    /// What the map holds: the stored value of each key.
    pub open spec fn contents(&self) -> Map<Seq<u8>, Seq<u8>> {
        Map::new(|k: Seq<u8>| self.entry(k) is Some, |k: Seq<u8>| self.entry(k)->0)
    }

    /// The root hash of the tree that the view holds.
    pub open spec fn spec_root_hash(&self) -> Seq<u8> {
        root_hash_of(self.view().contents())
    }

    /// The hash that a leaf has for the stored value `bytes`.
    pub open spec fn hash_of() -> spec_fn(Seq<u8>) -> Seq<u8> {
        |bytes: Seq<u8>| V::spec_hash(bytes)
    }

    /// Whether the view holds the tree `t` with the values of its keys,
    /// and nothing else.
    pub open spec fn holds(&self, t: Tree) -> bool {
        store_holds(self.view().contents(), t, Self::hash_of())
    }

    /// Whether the view holds nothing at all.
    pub open spec fn is_blank(&self) -> bool {
        self.view().contents() == Map::<Seq<u8>, Seq<u8>>::empty()
    }

    /// Whether the view holds a map: nothing at all, or the tree of the
    /// keys with their values.
    pub open spec fn valid(&self) -> bool {
        self.is_blank() || exists|t: Tree| self.holds(t)
    }

    /// The tree that a valid map with keys holds.
    pub open spec fn tree(&self) -> Tree {
        choose|t: Tree| self.holds(t)
    }

    /// Two valid maps that hold the same have the same root hash: the root
    /// hash does not depend on the order in which the keys were put.
    pub proof fn lemma_order_independent<C2: ChangeSet>(&self, other: &ProofMapIndex<C2, K, V>)
        requires
            self.valid(),
            other.valid(),
            self.contents() == other.contents(),
        ensures
            self.spec_root_hash() == other.spec_root_hash(),
    {
        assert forall|k: Seq<u8>|
            lookup(self.view().contents(), value_key(k)) == lookup(
                other.view().contents(),
                value_key(k),
            ) by {
            assert(self.contents().contains_key(k) == other.contents().contains_key(k));
            if self.contents().contains_key(k) {
                assert(self.contents()[k] == other.contents()[k]);
            }
        }
        if !self.is_blank() {
            let t = choose|t: Tree| self.holds(t);
            assert(store_holds(self.view().contents(), t, Self::hash_of()));
        }
        if !other.is_blank() {
            let t = choose|t: Tree| other.holds(t);
            assert(store_holds(other.view().contents(), t, Self::hash_of()));
        }
        lemma_root_hash_by_contents(
            self.view().contents(),
            other.view().contents(),
            Self::hash_of(),
        );
    }

    /// A map that was opened on an empty store, with nothing recorded for
    /// it, holds nothing.
    pub proof fn lemma_fresh(&self)
        requires
            self.view().base() == Map::<Seq<u8>, Map<Seq<u8>, Seq<u8>>>::empty(),
            self.view().recorded() is None || self.view().recorded() == Some(
                crate::changes::ChangesModel::pristine(),
            ),
        ensures
            self.is_blank(),
            self.valid(),
    {
        assert(self.view().contents() =~= Map::<Seq<u8>, Seq<u8>>::empty());
    }

    /// A map that was just opened on a store without it holds nothing, so
    /// its root hash is the hash of zeros.
    pub proof fn lemma_unused_is_zero(&self)
        requires
            self.is_blank(),
        ensures
            self.valid(),
            self.spec_root_hash() == crate::hash::Hash::zero_view(),
            self.contents() == Map::<Seq<u8>, Seq<u8>>::empty(),
    {
        lemma_blank_root(self.view().contents());
        assert(self.contents() =~= Map::<Seq<u8>, Seq<u8>>::empty()) by {
            assert forall|k: Seq<u8>| !self.contents().contains_key(k) by {
                if self.entry(k) is Some {
                    assert(self.view().contents().contains_key(value_key(k)));
                }
            }
        }
    }

    /// The metadata under which a map at `address` is registered.
    pub open spec fn metadata_for(address: AddressModel) -> IndexMetadata {
        IndexMetadata { index_type: IndexType::ProofMap, has_parent: address.bytes is Some }
    }

    /// Opens the map named `index_name` on `view`.
    pub fn new<T: IndexAccess<Changes = C>>(index_name: &str, view: T) -> (r: ProofMapIndex<
        C,
        K,
        V,
    >)
        requires
            crate::index_metadata::metadata_matches(
                view,
                AddressModel { name: index_name@, bytes: None },
                Self::metadata_for(AddressModel { name: index_name@, bytes: None }),
            ),
        ensures
            r.view().addr() == (AddressModel { name: index_name@, bytes: None }),
            r.view().base() == view.base(),
            r.view().recorded() == view.recorded(AddressModel { name: index_name@, bytes: None }),
            opened(r.view().changes, view, (AddressModel { name: index_name@, bytes: None }), Self::metadata_for((AddressModel { name: index_name@, bytes: None }))),
            *final(r.view().changes.lender()) == *final(view.lender()),
    {
        let builder = IndexBuilder::from_view(view).index_type(IndexType::ProofMap).index_name(
            index_name,
        );
        ProofMapIndex { base: builder.build(), _k: PhantomData, _v: PhantomData }
    }

    /// Opens the member `index_id` of the family of maps named
    /// `family_name` on `view`.
    pub fn new_in_family<T: IndexAccess<Changes = C>, I: StorageKey>(
        family_name: &str,
        index_id: &I,
        view: T,
    ) -> (r: ProofMapIndex<C, K, V>)
        requires
            crate::index_metadata::metadata_matches(
                view,
                AddressModel { name: family_name@, bytes: Some(index_id.spec_bytes()) },
                Self::metadata_for(
                    AddressModel { name: family_name@, bytes: Some(index_id.spec_bytes()) },
                ),
            ),
        ensures
            r.view().addr() == (AddressModel {
                name: family_name@,
                bytes: Some(index_id.spec_bytes()),
            }),
            r.view().base() == view.base(),
            r.view().recorded() == view.recorded(
                AddressModel { name: family_name@, bytes: Some(index_id.spec_bytes()) },
            ),
            opened(r.view().changes, view, (AddressModel {
                name: family_name@,
                bytes: Some(index_id.spec_bytes()),
            }), Self::metadata_for((AddressModel {
                name: family_name@,
                bytes: Some(index_id.spec_bytes()),
            }))),
            *final(r.view().changes.lender()) == *final(view.lender()),
    {
        let builder = IndexBuilder::from_view(view).index_type(IndexType::ProofMap).index_name(
            family_name,
        ).family_id(index_id);
        proof {
            assert(Seq::<u8>::empty() + index_id.spec_bytes() =~= index_id.spec_bytes());
        }
        ProofMapIndex { base: builder.build(), _k: PhantomData, _v: PhantomData }
    }

    /// Opens the map at `address` on `access` without asking what is
    /// registered there.
    pub fn create_from<T: IndexAccess<Changes = C>>(address: IndexAddress, access: T) -> (r:
        ProofMapIndex<C, K, V>)
        ensures
            r.view().addr() == address@,
            r.view().base() == access.base(),
            r.view().recorded() == access.recorded(address@),
            access.writes() ==> *r.view().changes.lender() == *access.lender()
                && r.view().changes.rest() == rest_of(*access.lender(), address@),
            *final(r.view().changes.lender()) == *final(access.lender()),
    {
        ProofMapIndex { base: View::new(access, address), _k: PhantomData, _v: PhantomData }
    }

    /// Opens the map at `address` on `access`; `None` unless a map is
    /// registered there.
    pub fn get_from<T: IndexAccess<Changes = C> + Copy>(address: IndexAddress, access: T) -> (r: Option<
        ProofMapIndex<C, K, V>,
    >)
        ensures
            r is Some <==> crate::index_metadata::registered(
                access,
                address@,
                Self::metadata_for(address@),
            ),
            r matches Some(s) ==> s.view().addr() == address@ && s.view().base() == access.base()
                && s.view().recorded() == access.recorded(address@),
    {
        let metadata = IndexMetadata {
            index_type: IndexType::ProofMap,
            has_parent: address.bytes().is_some(),
        };
        if crate::index_metadata::is_registered(access, &address, &metadata) {
            Some(Self::create_from(address, access))
        } else {
            None
        }
    }

    /// Gives up the map for the view under it.
    pub fn into_view(self) -> (r: View<C>)
        ensures
            r == self.view(),
    {
        self.base
    }

    /// Returns the path of the root of the tree: the first key of the view,
    /// if that is the key of a node.
    pub fn get_root_path(&self) -> (r: Option<ProofPath>)
        ensures
            r matches Some(p) ==> (p.wf() && p.spec_start() == 0 && is_node_key(p.raw())
                && p.spec_serialize() == p.raw() && self.view().read(p.raw()) is Some && is_first(
                self.view().contents(),
                (p.raw(), self.view().read(p.raw())->0),
            )),
            r is None ==> !(exists|e: (Seq<u8>, Seq<u8>)|
                is_first(self.view().contents(), e) && is_node_key(e.0)),
    {
        let empty: [u8; 0] = [];
        assert(empty@ =~= Seq::<u8>::empty());
        let first = self.base.first_from(empty.as_slice());
        proof {
            assert forall|x: Seq<u8>| lex_le(empty@, x) by {
                assert(x.subrange(0, 0) =~= empty@);
                crate::lex::lemma_prefix_le(x, empty@);
            }
        }
        match first {
            Some((k, v)) => {
                proof {
                    assert(is_first(self.view().contents(), (k@, v@)));
                    assert forall|e: (Seq<u8>, Seq<u8>)|
                        is_first(self.view().contents(), e) implies e == (k@, v@) by {
                        lemma_first_unique(self.view().contents(), e, (k@, v@));
                    }
                }
                match ProofPath::try_read(k.as_slice()) {
                    Some(p) => {
                        let stored = path_key(&p);
                        if kind_is_known(&p) && crate::lex::bytes_eq(stored.as_slice(), k.as_slice()) {
                            Some(p)
                        } else {
                            None
                        }
                    },
                    None => None,
                }
            },
            None => {
                proof {
                    assert forall|e: (Seq<u8>, Seq<u8>)|
                        !is_first(self.view().contents(), e) by {
                        if self.view().contents().contains_key(e.0) {
                            assert(self.view().read(e.0) is Some);
                        }
                    }
                }
                None
            },
        }
    }

    /// Returns the node stored under `path`: `None` where nothing is stored
    /// there, or where what is stored is no node of the kind of the path.
    pub fn get_node(&self, path: &ProofPath) -> (r: Option<Node>)
        ensures
            match self.view().read(path.spec_serialize()) {
                Some(b) => if path.is_leaf_spec() {
                    if b.len() == 32 {
                        r matches Some(Node::Leaf(h)) && h@ == b
                    } else {
                        r is None
                    }
                } else {
                    if is_branch_image(b) {
                        r matches Some(Node::Branch(n)) && n.image() == b && n.wf()
                    } else {
                        r is None
                    }
                },
                None => r is None,
            },
    {
        let key = path_key(path);
        match self.base.get_bytes(key.as_slice()) {
            Some(bytes) => {
                if path.is_leaf() {
                    match crate::hash::Hash::from_slice(bytes.as_slice()) {
                        Some(h) => Some(Node::Leaf(h)),
                        None => None,
                    }
                } else {
                    match BranchNode::from_bytes(bytes.as_slice()) {
                        Some(b) => Some(Node::Branch(b)),
                        None => None,
                    }
                }
            },
            None => None,
        }
    }

    /// Returns the root of the tree with its path.
    pub fn get_root_node(&self) -> (r: Option<(ProofPath, Node)>)
        ensures
            r matches Some(e) ==> (e.0.wf() && e.0.spec_start() == 0 && is_node_key(e.0.raw())
                && root_entry(self.view().contents()) == Some(
                (e.0.raw(), self.view().read(e.0.raw())->0),
            ) && (match e.1 {
                Node::Leaf(h) => e.0.is_leaf_spec() && Some(h@) == self.view().read(e.0.raw()),
                Node::Branch(b) => !e.0.is_leaf_spec() && b.wf() && Some(b.image())
                    == self.view().read(e.0.raw()),
            })),
            r is None ==> root_entry(self.view().contents()) is None,
    {
        match self.get_root_path() {
            Some(path) => {
                proof {
                    let m = self.view().contents();
                    let e = (path.raw(), self.view().read(path.raw())->0);
                    assert(is_first(m, e));
                    let c = choose|c: (Seq<u8>, Seq<u8>)| is_first(m, c);
                    lemma_first_unique(m, c, e);
                }
                match self.get_node(&path) {
                    Some(node) => Some((path, node)),
                    None => None,
                }
            },
            None => {
                proof {
                    let m = self.view().contents();
                    if exists|e: (Seq<u8>, Seq<u8>)| is_first(m, e) {
                        let c = choose|c: (Seq<u8>, Seq<u8>)| is_first(m, c);
                        assert(!is_node_key(c.0));
                    }
                }
                None
            },
        }
    }

    /// Returns the root hash of the map: zeros for an empty map, the hash
    /// of path and value hash for a map of one key, and the hash of the
    /// root branch else.
    pub fn merkle_root(&self) -> (r: crate::hash::Hash)
        ensures
            r@ == self.spec_root_hash(),
            self.is_blank() ==> r@ == crate::hash::Hash::zero_view(),
            forall|t: Tree| #[trigger] self.holds(t) ==> r@ == t.root_hash(),
    {
        proof {
            if self.is_blank() {
                lemma_blank_root(self.view().contents());
            }
            assert forall|t: Tree| #[trigger] self.holds(t) implies self.spec_root_hash()
                == t.root_hash() by {
                lemma_holds_root(self.view().contents(), t, Self::hash_of());
            }
        }
        match self.get_root_node() {
            Some((path, Node::Leaf(h))) => {
                let mut bytes: Vec<u8> = vstd::slice::slice_to_vec(path.as_bytes());
                bytes.extend_from_slice(h.as_bytes());
                proof {
                    h.lemma_view();
                    assert(bytes@ =~= path.raw() + h@);
                }
                hash(bytes.as_slice())
            },
            Some((_, Node::Branch(branch))) => branch.hash(),
            None => crate::hash::Hash::zero(),
        }
    }

    /// Returns the value of `key`: `None` where the map has none, or where
    /// what is stored is no encoding of a `V`.
    pub fn get(&self, key: &K) -> (r: Option<V>)
        ensures
            r is Some <==> (self.entry(key.spec_bytes()) matches Some(b) && V::is_encoding(b)),
            r matches Some(v) ==> Some(v.spec_bytes()) == self.entry(key.spec_bytes()),
    {
        let path = to_value_path(key);
        match self.base.get_bytes(path.as_slice()) {
            Some(bytes) => V::from_bytes(bytes.as_slice()),
            None => None,
        }
    }

    /// Returns `true` if the map has a value for `key`.
    pub fn contains(&self, key: &K) -> (r: bool)
        ensures
            r == self.contents().contains_key(key.spec_bytes()),
    {
        let path = to_value_path(key);
        self.base.contains_raw_key(path.as_slice())
    }

    /// Returns an iterator over the entries of the map, in ascending order
    /// of the keys.
    pub fn iter(&self) -> (r: ProofMapIndexIter<K, V>)
        ensures
            r.wf(),
            is_listing(r.pending(), self.view().contents(), seq![VALUE_KEY_PREFIX]),
    {
        ProofMapIndexIter { base_iter: self.base.iter(&VALUE_KEY_PREFIX), _k: PhantomData }
    }

    /// Returns an iterator over the keys of the map, in ascending order.
    pub fn keys(&self) -> (r: ProofMapIndexKeys<K>)
        ensures
            r.wf(),
            is_listing(r.pending(), self.view().contents(), seq![VALUE_KEY_PREFIX]),
    {
        ProofMapIndexKeys { base_iter: self.base.iter(&VALUE_KEY_PREFIX), _k: PhantomData }
    }

    /// Returns an iterator over the values of the map, in ascending order
    /// of their keys.
    pub fn values(&self) -> (r: ProofMapIndexValues<V>)
        ensures
            r.wf(),
            is_listing(r.pending(), self.view().contents(), seq![VALUE_KEY_PREFIX]),
    {
        ProofMapIndexValues { base_iter: self.base.iter(&VALUE_KEY_PREFIX) }
    }

    /// Returns an iterator over the entries of the map from the key `from`
    /// on, in ascending order of the keys.
    pub fn iter_from(&self, from: &K) -> (r: ProofMapIndexIter<K, V>)
        ensures
            r.wf(),
            is_listing(r.pending(), self.view().contents(), value_key(from.spec_bytes())),
    {
        let start = to_value_path(from);
        ProofMapIndexIter {
            base_iter: self.base.iter_from(&VALUE_KEY_PREFIX, &start),
            _k: PhantomData,
        }
    }

    /// Returns an iterator over the keys of the map from the key `from` on,
    /// in ascending order.
    pub fn keys_from(&self, from: &K) -> (r: ProofMapIndexKeys<K>)
        ensures
            r.wf(),
            is_listing(r.pending(), self.view().contents(), value_key(from.spec_bytes())),
    {
        let start = to_value_path(from);
        ProofMapIndexKeys {
            base_iter: self.base.iter_from(&VALUE_KEY_PREFIX, &start),
            _k: PhantomData,
        }
    }

    /// Returns an iterator over the values of the map from the key `from`
    /// on, in ascending order of their keys.
    pub fn values_from(&self, from: &K) -> (r: ProofMapIndexValues<V>)
        ensures
            r.wf(),
            is_listing(r.pending(), self.view().contents(), value_key(from.spec_bytes())),
    {
        let start = to_value_path(from);
        ProofMapIndexValues { base_iter: self.base.iter_from(&VALUE_KEY_PREFIX, &start) }
    }
}

/// Whether the part of the tree under the child of `parent` on the side of
/// the first bit of `path` is the valid tree `c`, all of it in the store,
/// with the key of `path` sharing the bits of its first key up to and with
/// that bit, and the leaf of the key written already with the hash `h`.
pub open spec fn grafted(
    store: Map<Seq<u8>, Seq<u8>>,
    parent: BranchNode,
    path: ProofPath,
    h: Seq<u8>,
    c: Tree,
) -> bool {
    let side = ChildKind::of_bit(key_bit(path.key(), path.spec_start()));
    &&& c.valid()
    &&& path.wf()
    &&& parent.wf()
    &&& h.len() == 32
    &&& path.key().len() == 32
    &&& path.is_leaf_spec()
    &&& c.end() > path.spec_start()
    &&& agree(path.key(), c.first_key(), path.spec_start() + 1)
    &&& parent.spec_child_path(side) == c.node_key()
    &&& parent.spec_child_hash(side) == c.node_hash()
    &&& forall|x: Seq<u8>|
        #[trigger] c.nodes().contains_key(x) ==> store.contains_key(x) && (store[x] == c.nodes()[x]
            || x == leaf_key(path.key()))
    &&& store.contains_key(leaf_key(path.key()))
    &&& store[leaf_key(path.key())] == h
}

/// Two maps that hold the same under every key are the same map.
pub proof fn lemma_lookup_ext(a: Map<Seq<u8>, Seq<u8>>, b: Map<Seq<u8>, Seq<u8>>)
    requires
        forall|x: Seq<u8>| lookup(a, x) == lookup(b, x),
    ensures
        a == b,
{
    assert forall|x: Seq<u8>| a.contains_key(x) == b.contains_key(x) by {
        assert(lookup(a, x) == lookup(b, x));
    }
    assert forall|x: Seq<u8>| a.contains_key(x) implies a[x] == b[x] by {
        assert(lookup(a, x) == lookup(b, x));
    }
    assert(a =~= b);
}

/// A path whose bytes are the key of the root of a valid tree has the end
/// and the kind of that root, is stored under those bytes, and has the bits
/// of the first key of the tree before its end.
pub proof fn lemma_path_of_node(p: ProofPath, c: Tree)
    requires
        p.wf(),
        p.raw() == c.node_key(),
        c.valid(),
    ensures
        p.spec_end() == c.end(),
        p.is_leaf_spec() == (c is Leaf),
        p.raw()[0] == BRANCH_KEY_PREFIX || p.raw()[0] == LEAF_KEY_PREFIX,
        p.spec_serialize() == c.node_key(),
        agree(p.key(), c.first_key(), c.end()),
        p.key().len() == 32,
{
    c.lemma_entries();
    lemma_stored_form(c.raw_path());
    lemma_stored_twice(c.raw_path());
    assert(c.raw_path().subrange(1, 33) =~= c.first_key());
}

/// The leaf path of a key is stored under the leaf key of that key.
pub proof fn lemma_leaf_path(p: ProofPath)
    requires
        p.wf(),
        p.is_leaf_spec(),
    ensures
        p.spec_serialize() == leaf_key(p.key()),
        p.key().len() == 32,
{
    let a = p.raw();
    let b = raw_of(LEAF_KEY_PREFIX, p.key(), 0);
    assert(a =~= b);
}

/// A branch path that ends where the root of a valid branch ends, over a
/// key with the bits of the first key of the tree before that end, is
/// stored under the key of that root.
pub proof fn lemma_new_branch_key(p: ProofPath, t: Tree)
    requires
        p.wf(),
        t.valid(),
        t is Branch,
        p.spec_end() == t.end(),
        p.raw()[0] == BRANCH_KEY_PREFIX || p.raw()[0] == LEAF_KEY_PREFIX,
        agree(p.key(), t.first_key(), t.end()) || agree(t.first_key(), p.key(), t.end()),
    ensures
        p.spec_serialize() == t.node_key(),
{
    t.lemma_entries();
    let a = p.raw();
    let b = t.raw_path();
    assert(b.subrange(1, 33) =~= t.first_key());
    assert(a[33] == b[33]);
    lemma_same_stored_form(a, b);
}

/// Two valid trees whose roots end at the same bit, with first keys that
/// share the bits before that end, have their roots under the same key.
pub proof fn lemma_same_node_key(a: Tree, b: Tree)
    requires
        a.valid(),
        b.valid(),
        a.end() == b.end(),
        agree(b.first_key(), a.first_key(), a.end()),
    ensures
        a.node_key() == b.node_key(),
{
    a.lemma_entries();
    b.lemma_entries();
    assert(a.raw_path().subrange(1, 33) =~= a.first_key());
    assert(b.raw_path().subrange(1, 33) =~= b.first_key());
    lemma_same_stored_form(b.raw_path(), a.raw_path());
}

/// A store that held a tree holds the tree with a key put into it once the
/// value of the key, the leaf of the key and the nodes of the new tree are
/// written.
pub proof fn lemma_put_holds(
    store: Map<Seq<u8>, Seq<u8>>,
    fin: Map<Seq<u8>, Seq<u8>>,
    t: Tree,
    k: Seq<u8>,
    vb: Seq<u8>,
    h: Seq<u8>,
    hash_of: spec_fn(Seq<u8>) -> Seq<u8>,
)
    requires
        store_holds(store, t, hash_of),
        k.len() == 32,
        h.len() == 32,
        hash_of(vb) == h,
        fin == store.insert(value_key(k), vb).insert(leaf_key(k), h).union_prefer_right(
            t.insert(k, h).nodes(),
        ),
    ensures
        store_holds(fin, t.insert(k, h), hash_of),
{
    let t2 = t.insert(k, h);
    t.lemma_insert(k, h);
    t.lemma_insert_nodes(k, h);
    t.lemma_nodes();
    t2.lemma_nodes();
    lemma_value_key_injective(k, k);
    assert(value_key(k).skip(1) =~= k);
    assert forall|x: Seq<u8>| #[trigger] fin.contains_key(x) implies (t2.nodes().contains_key(x)
        && t2.nodes()[x] == fin[x]) || (is_value_key(x) && t2.entries().contains_key(
        x.skip(1),
    )) by {
        if !t2.nodes().contains_key(x) {
            if x != value_key(k) {
                assert(store.contains_key(x));
            }
        }
    }
    assert forall|q: Seq<u8>| #[trigger] t2.entries().contains_key(q) implies fin.contains_key(
        value_key(q),
    ) && hash_of(fin[value_key(q)]) == t2.entries()[q] by {
        lemma_value_key_injective(q, k);
        if t2.nodes().contains_key(value_key(q)) {
            assert(is_path_key(value_key(q)));
        }
        if leaf_key(k) == value_key(q) {
            assert(t2.nodes().contains_key(value_key(q)));
        }
    }
}

/// Once the value and the leaf of a key are written, a store that held a
/// tree still has every node of the tree, but for the leaf of that key.
pub proof fn lemma_store_kept(
    store: Map<Seq<u8>, Seq<u8>>,
    store1: Map<Seq<u8>, Seq<u8>>,
    t: Tree,
    k: Seq<u8>,
    vb: Seq<u8>,
    h: Seq<u8>,
    hash_of: spec_fn(Seq<u8>) -> Seq<u8>,
)
    requires
        store_holds(store, t, hash_of),
        k.len() == 32,
        store1 == store.insert(value_key(k), vb).insert(leaf_key(k), h),
    ensures
        forall|x: Seq<u8>|
            #[trigger] t.nodes().contains_key(x) ==> store1.contains_key(x) && (store1[x]
                == t.nodes()[x] || x == leaf_key(k)),
        store1.contains_key(leaf_key(k)),
        store1[leaf_key(k)] == h,
{
    t.lemma_nodes();
    lemma_value_key_injective(k, k);
    assert forall|x: Seq<u8>| #[trigger] t.nodes().contains_key(x) implies store1.contains_key(x)
        && (store1[x] == t.nodes()[x] || x == leaf_key(k)) by {
        assert(store.contains_key(x));
        assert(is_path_key(x));
    }
}

/// A store with the value and the leaf of one key, and nothing else, holds
/// the tree of that key.
pub proof fn lemma_first_leaf(
    fin: Map<Seq<u8>, Seq<u8>>,
    k: Seq<u8>,
    vb: Seq<u8>,
    h: Seq<u8>,
    hash_of: spec_fn(Seq<u8>) -> Seq<u8>,
)
    requires
        k.len() == 32,
        h.len() == 32,
        hash_of(vb) == h,
        fin == Map::<Seq<u8>, Seq<u8>>::empty().insert(value_key(k), vb).insert(leaf_key(k), h),
    ensures
        store_holds(fin, Tree::Leaf { key: k, hash: h }, hash_of),
{
    let leaf = Tree::Leaf { key: k, hash: h };
    assert(leaf.nodes() =~= Map::<Seq<u8>, Seq<u8>>::empty().insert(leaf_key(k), h));
    assert(leaf.entries() =~= Map::<Seq<u8>, Seq<u8>>::empty().insert(k, h));
    lemma_value_key_injective(k, k);
    assert(value_key(k).skip(1) =~= k);
    leaf.lemma_nodes();
    assert(is_path_key(leaf_key(k)));
}

/// Where a walk stands at the child `c` of a branch: the key shares with
/// the first key of `c` all bits up to the start of the walk and `i` bits
/// more, and parts from it there unless the path of `c` ends there.
pub proof fn lemma_walk(child_path: ProofPath, proof_path: ProofPath, c: Tree, i: int)
    requires
        child_path.wf(),
        proof_path.wf(),
        c.valid(),
        child_path.raw() == c.node_key(),
        child_path.spec_start() == proof_path.spec_start(),
        proof_path.is_leaf_spec(),
        proof_path.key().len() == 32,
        agree(proof_path.key(), c.first_key(), proof_path.spec_start()),
        proof_path.spec_start() <= c.end(),
        i == child_path.spec_common_prefix(&proof_path),
    ensures
        diverge(c.first_key(), proof_path.key(), 0, c.end()) == proof_path.spec_start() + i,
        agree(c.first_key(), proof_path.key(), proof_path.spec_start() + i),
        child_path.spec_len() == c.end() - proof_path.spec_start(),
        proof_path.spec_start() + i < c.end() ==> key_bit(
            child_path.key(),
            proof_path.spec_start() + i,
        ) == key_bit(c.first_key(), proof_path.spec_start() + i) && key_bit(
            c.first_key(),
            proof_path.spec_start() + i,
        ) != key_bit(proof_path.key(), proof_path.spec_start() + i),
{
    let k = proof_path.key();
    let start = proof_path.spec_start();
    lemma_path_of_node(child_path, c);
    c.lemma_entries();
    crate::proof_map_index::key::lemma_common_prefix_diverge(child_path, proof_path);
    lemma_diverge(child_path.key(), k, start, c.end());
    assert forall|p: int| 0 <= p < start + i implies key_bit(c.first_key(), p) == key_bit(k, p) by {
        if p >= start {
            assert(key_bit(child_path.key(), p) == key_bit(k, p));
        }
    }
    if start + i < c.end() {
        assert(key_bit(child_path.key(), start + i) != key_bit(k, start + i));
    }
    lemma_diverge_is(c.first_key(), k, 0, c.end(), start + i);
}

/// The image of a branch with the given children is the value of the node
/// of the tree with those children.
pub proof fn lemma_image_of(branch: BranchNode, t: Tree)
    requires
        branch.wf(),
        t is Branch,
        branch.spec_child_hash(ChildKind::Left) == t->left.node_hash(),
        branch.spec_child_hash(ChildKind::Right) == t->right.node_hash(),
        branch.spec_child_path(ChildKind::Left) == t->left.node_key(),
        branch.spec_child_path(ChildKind::Right) == t->right.node_key(),
    ensures
        branch.image() == t.node_value(),
        crate::hash::digest(branch.image()) == t.node_hash(),
{
    branch.lemma_image();
}

/// Writing the new branch over a store that has the nodes of `c` and the
/// leaf of the key gives the store with the nodes of `c` with the key put
/// into it, where the key parts from `c` before the end of its root.
pub proof fn lemma_graft_split(
    store: Map<Seq<u8>, Seq<u8>>,
    fin: Map<Seq<u8>, Seq<u8>>,
    c: Tree,
    k: Seq<u8>,
    h: Seq<u8>,
)
    requires
        c.valid(),
        k.len() == 32,
        h.len() == 32,
        diverge(c.first_key(), k, 0, c.end()) < c.end(),
        forall|x: Seq<u8>|
            #[trigger] c.nodes().contains_key(x) ==> store.contains_key(x) && (store[x]
                == c.nodes()[x] || x == leaf_key(k)),
        store.contains_key(leaf_key(k)),
        store[leaf_key(k)] == h,
        fin == store.insert(c.insert(k, h).node_key(), c.insert(k, h).node_value()),
    ensures
        fin == store.union_prefer_right(c.insert(k, h).nodes()),
{
    let d = diverge(c.first_key(), k, 0, c.end());
    let c2 = c.insert(k, h);
    c.lemma_entries();
    assert(c2 == join(d, c, Tree::Leaf { key: k, hash: h }, key_bit(k, d)));
    c.lemma_join_nodes(k, h, d);
    assert forall|x: Seq<u8>| lookup(fin, x) == lookup(store.union_prefer_right(c2.nodes()), x) by {
        assert(lookup(c2.nodes(), x) == (if x == c2.node_key() {
            Some(c2.node_value())
        } else if x == leaf_key(k) {
            Some(h)
        } else {
            lookup(c.nodes(), x)
        }));
        if c.nodes().contains_key(x) {
            assert(store.contains_key(x));
        }
    }
    lemma_lookup_ext(fin, store.union_prefer_right(c2.nodes()));
}

/// Writing the branch anew over a store that has the nodes of `c`, after
/// the nodes of the subtree with the key put into it were written, gives
/// the store with the nodes of `c` with the key put into it.
pub proof fn lemma_graft_replace(
    store: Map<Seq<u8>, Seq<u8>>,
    mid: Map<Seq<u8>, Seq<u8>>,
    fin: Map<Seq<u8>, Seq<u8>>,
    c: Tree,
    k: Seq<u8>,
    h: Seq<u8>,
)
    requires
        c.valid(),
        c is Branch,
        k.len() == 32,
        h.len() == 32,
        diverge(c.first_key(), k, 0, c.end()) == c.end(),
        forall|x: Seq<u8>|
            #[trigger] c.nodes().contains_key(x) ==> store.contains_key(x) && (store[x]
                == c.nodes()[x] || x == leaf_key(k)),
        mid == store.union_prefer_right(c.side(key_bit(k, c.end())).insert(k, h).nodes()),
        fin == mid.insert(c.node_key(), c.insert(k, h).node_value()),
    ensures
        fin == store.union_prefer_right(c.insert(k, h).nodes()),
        c.insert(k, h) == c.with_side(
            key_bit(k, c.end()),
            c.side(key_bit(k, c.end())).insert(k, h),
        ),
        c.insert(k, h).node_key() == c.node_key(),
{
    let on_right = key_bit(k, c.end());
    let cc = c.side(on_right);
    let cc2 = cc.insert(k, h);
    let c2 = c.insert(k, h);
    c.lemma_entries();
    c.lemma_descend(k, h);
    cc.lemma_insert(k, h);
    cc.lemma_insert_nodes(k, h);
    assert(c2 == c.with_side(on_right, cc2));
    assert forall|p: int| 0 <= p < c.end() + 1 implies key_bit(cc2.first_key(), p) == key_bit(
        cc.first_key(),
        p,
    ) by {
        assert(key_bit(cc2.first_key(), p) == key_bit(k, p));
    }
    c.lemma_replace(on_right, cc2);
    c.lemma_replace_nodes(on_right, cc2);
    assert forall|x: Seq<u8>| lookup(fin, x) == lookup(store.union_prefer_right(c2.nodes()), x) by {
        assert(lookup(c2.nodes(), x) == (if x == c.node_key() {
            Some(c2.node_value())
        } else if cc2.nodes().contains_key(x) {
            Some(cc2.nodes()[x])
        } else {
            lookup(c.nodes(), x)
        }));
        if c.nodes().contains_key(x) {
            assert(store.contains_key(x));
        }
    }
    lemma_lookup_ext(fin, store.union_prefer_right(c2.nodes()));
}

/// What the child of a branch is once a key was put into the part of the
/// tree under it: the new subtree has the hash returned, and lies under the
/// path that the branch now has for it.
pub proof fn lemma_child_after(cc: Tree, k: Seq<u8>, h: Seq<u8>, start: int)
    requires
        cc.valid(),
        k.len() == 32,
        h.len() == 32,
        agree(k, cc.first_key(), start + 1),
        cc.end() > start,
    ensures
        cc.insert(k, h).valid(),
        cc.insert(k, h).end() > start,
        agree(cc.insert(k, h).first_key(), k, cc.insert(k, h).end()),
        cc.insert(k, h).end() == cc.end() ==> cc.insert(k, h).node_key() == cc.node_key(),
        cc.insert(k, h).end() < cc.end() ==> cc.insert(k, h) is Branch,
{
    cc.lemma_insert(k, h);
    cc.lemma_entries();
    lemma_diverge(cc.first_key(), k, 0, cc.end());
    let d = diverge(cc.first_key(), k, 0, cc.end());
    if d <= start {
        assert(key_bit(cc.first_key(), d) == key_bit(k, d));
    }
    if cc.insert(k, h).end() == cc.end() {
        lemma_same_node_key(cc, cc.insert(k, h));
    }
    cc.insert(k, h).lemma_entries();
}

/// The nodes of what is left of a tree: none where nothing is left.
pub open spec fn nodes_of(r: Option<Tree>) -> Map<Seq<u8>, Seq<u8>> {
    match r {
        Some(t) => t.nodes(),
        None => Map::empty(),
    }
}

/// The store once the key `k` was taken out of the part `c` of the tree:
/// the value of the key is gone if `c` had the key, the nodes of `c` have
/// made way for the nodes of what is left of it, and all else is as it
/// was.
pub open spec fn after_remove(store: Map<Seq<u8>, Seq<u8>>, c: Tree, k: Seq<u8>) -> Map<
    Seq<u8>,
    Seq<u8>,
> {
    Map::new(
        |x: Seq<u8>|
            if x == value_key(k) && c.entries().contains_key(k) {
                false
            } else if c.nodes().contains_key(x) {
                nodes_of(c.remove(k)).contains_key(x)
            } else {
                store.contains_key(x)
            },
        |x: Seq<u8>|
            if c.nodes().contains_key(x) {
                nodes_of(c.remove(k))[x]
            } else {
                store[x]
            },
    )
}

/// Whether `action` says what taking the key `k` out of the part `c` of the
/// tree has come to.
pub open spec fn action_for(c: Tree, k: Seq<u8>, action: RemoveAction) -> bool {
    match c.remove(k) {
        None => action is Leaf,
        Some(c2) => if c2 == c {
            action is KeyNotFound
        } else if c2.end() > c.end() {
            action matches RemoveAction::Branch(p, h) && p.wf() && p.spec_start() == 0 && p.raw()
                == c2.node_key() && h@ == c2.node_hash()
        } else {
            action matches RemoveAction::UpdateHash(h) && h@ == c2.node_hash()
        },
    }
}

/// Whether the part of the tree under the child of `parent` on the side of
/// the first bit of `path` is the valid tree `c`, all of it in the store,
/// with the key of `path` sharing the bits of its first key up to and with
/// that bit.
pub open spec fn planted(
    store: Map<Seq<u8>, Seq<u8>>,
    parent: BranchNode,
    path: ProofPath,
    c: Tree,
) -> bool {
    let side = ChildKind::of_bit(key_bit(path.key(), path.spec_start()));
    &&& c.valid()
    &&& path.wf()
    &&& parent.wf()
    &&& path.key().len() == 32
    &&& path.is_leaf_spec()
    &&& c.end() > path.spec_start()
    &&& agree(path.key(), c.first_key(), path.spec_start() + 1)
    &&& parent.spec_child_path(side) == c.node_key()
    &&& parent.spec_child_hash(side) == c.node_hash()
    &&& forall|x: Seq<u8>|
        #[trigger] c.nodes().contains_key(x) ==> store.contains_key(x) && store[x] == c.nodes()[x]
    &&& !c.nodes().contains_key(value_key(path.key()))
}

/// Taking a key out of a part of the tree that does not have it leaves
/// the store as it was.
pub proof fn lemma_after_not_found(store: Map<Seq<u8>, Seq<u8>>, c: Tree, k: Seq<u8>)
    requires
        c.valid(),
        k.len() == 32,
        c.remove(k) == Some(c),
        forall|x: Seq<u8>|
            #[trigger] c.nodes().contains_key(x) ==> store.contains_key(x) && store[x] == c.nodes()[x],
    ensures
        after_remove(store, c, k) == store,
        !c.entries().contains_key(k),
{
    c.lemma_remove(k);
    assert(after_remove(store, c, k) =~= store);
}

/// Taking the key of a leaf out: the leaf and the value are gone.
pub proof fn lemma_after_leaf(
    store: Map<Seq<u8>, Seq<u8>>,
    fin: Map<Seq<u8>, Seq<u8>>,
    c: Tree,
    k: Seq<u8>,
)
    requires
        c.valid(),
        c is Leaf,
        c.first_key() == k,
        fin == store.remove(leaf_key(k)).remove(value_key(k)),
    ensures
        fin == after_remove(store, c, k),
        c.remove(k) is None,
{
    assert(c.nodes() =~= Map::<Seq<u8>, Seq<u8>>::empty().insert(leaf_key(k), c->hash));
    assert(c.entries() =~= Map::<Seq<u8>, Seq<u8>>::empty().insert(k, c->hash));
    c.lemma_nodes();
    lemma_value_key_injective(k, k);
    assert(is_path_key(leaf_key(k)));
    assert(fin =~= after_remove(store, c, k));
}

/// Taking out the key whose leaf hangs under the branch `c`: the leaf, the
/// value and the branch are gone, and the other subtree is left.
pub proof fn lemma_after_collapse(
    store: Map<Seq<u8>, Seq<u8>>,
    fin1: Map<Seq<u8>, Seq<u8>>,
    fin: Map<Seq<u8>, Seq<u8>>,
    c: Tree,
    k: Seq<u8>,
)
    requires
        c.valid(),
        c is Branch,
        k.len() == 32,
        diverge(c.first_key(), k, 0, c.end()) == c.end(),
        c.side(key_bit(k, c.end())).remove(k) is None,
        forall|x: Seq<u8>|
            #[trigger] c.nodes().contains_key(x) ==> store.contains_key(x) && store[x] == c.nodes()[x],
        fin1 == after_remove(store, c.side(key_bit(k, c.end())), k),
        fin == fin1.remove(c.node_key()),
    ensures
        fin == after_remove(store, c, k),
        c.remove(k) == Some(c.side(!key_bit(k, c.end()))),
        c.side(!key_bit(k, c.end())).end() > c.end(),
{
    let on_right = key_bit(k, c.end());
    let cc = c.side(on_right);
    let sib = c.side(!on_right);
    c.lemma_remove(k);
    cc.lemma_remove(k);
    c.lemma_branch_nodes();
    c.lemma_nodes();
    c.lemma_sides();
    cc.lemma_entries();
    assert(c.entries().contains_key(k)) by {
        assert(cc.entries().contains_key(cc.first_key()));
    }
    assert(cc.entries().contains_key(k));
    lemma_value_key_injective(k, k);
    assert forall|x: Seq<u8>| lookup(fin, x) == lookup(after_remove(store, c, k), x) by {
        if c.nodes().contains_key(x) {
            assert(is_path_key(x));
        }
        if cc.nodes().contains_key(x) {
            assert(c.nodes().contains_key(x));
        }
        if sib.nodes().contains_key(x) {
            assert(c.nodes().contains_key(x));
            assert(!cc.nodes().contains_key(x));
        }
    }
    lemma_lookup_ext(fin, after_remove(store, c, k));
}

/// Taking a key out of the part of the tree under one side of the branch
/// `c`, where something is left on that side: the branch is written anew
/// over what the walk below has left.
pub proof fn lemma_after_replace(
    store: Map<Seq<u8>, Seq<u8>>,
    fin1: Map<Seq<u8>, Seq<u8>>,
    fin: Map<Seq<u8>, Seq<u8>>,
    c: Tree,
    k: Seq<u8>,
)
    requires
        c.valid(),
        c is Branch,
        k.len() == 32,
        diverge(c.first_key(), k, 0, c.end()) == c.end(),
        c.side(key_bit(k, c.end())).remove(k) is Some,
        c.side(key_bit(k, c.end())).remove(k) != Some(c.side(key_bit(k, c.end()))),
        forall|x: Seq<u8>|
            #[trigger] c.nodes().contains_key(x) ==> store.contains_key(x) && store[x] == c.nodes()[x],
        !c.nodes().contains_key(value_key(k)),
        fin1 == after_remove(store, c.side(key_bit(k, c.end())), k),
        fin == fin1.insert(c.node_key(), c.remove(k)->0.node_value()),
    ensures
        fin == after_remove(store, c, k),
        c.remove(k) == Some(
            c.with_side(key_bit(k, c.end()), c.side(key_bit(k, c.end())).remove(k)->0),
        ),
        c.remove(k)->0 != c,
        c.remove(k)->0.end() == c.end(),
{
    let on_right = key_bit(k, c.end());
    let cc = c.side(on_right);
    let cc2 = cc.remove(k)->0;
    let c2 = c.with_side(on_right, cc2);
    c.lemma_remove(k);
    cc.lemma_remove(k);
    c.lemma_branch_nodes();
    c.lemma_nodes();
    c.lemma_sides();
    assert forall|i: int| 0 <= i < c.end() + 1 implies key_bit(cc2.first_key(), i) == key_bit(
        cc.first_key(),
        i,
    ) by {}
    c.lemma_swap_nodes(on_right, cc2);
    assert(cc.entries().contains_key(k));
    assert(c.entries().contains_key(k));
    if c2 == c {
        assert(cc2 == cc);
    }
    assert forall|x: Seq<u8>| lookup(fin, x) == lookup(after_remove(store, c, k), x) by {
        assert(lookup(c2.nodes(), x) == (if x == c.node_key() {
            Some(c2.node_value())
        } else if cc2.nodes().contains_key(x) {
            Some(cc2.nodes()[x])
        } else if cc.nodes().contains_key(x) {
            None
        } else {
            lookup(c.nodes(), x)
        }));
        if cc.nodes().contains_key(x) {
            assert(c.nodes().contains_key(x));
        }
        if cc2.nodes().contains_key(x) {
            assert(cc.nodes().contains_key(x));
        }
    }
    lemma_lookup_ext(fin, after_remove(store, c, k));
}

/// A store that held a tree holds what is left of the tree once a key was
/// taken out, or nothing at all where the key was the only one.
pub proof fn lemma_remove_holds(
    store: Map<Seq<u8>, Seq<u8>>,
    fin: Map<Seq<u8>, Seq<u8>>,
    t: Tree,
    k: Seq<u8>,
    hash_of: spec_fn(Seq<u8>) -> Seq<u8>,
)
    requires
        store_holds(store, t, hash_of),
        k.len() == 32,
        fin == after_remove(store, t, k),
    ensures
        t.remove(k) is None ==> fin == Map::<Seq<u8>, Seq<u8>>::empty(),
        t.remove(k) matches Some(t2) ==> store_holds(fin, t2, hash_of),
        !fin.contains_key(value_key(k)),
{
    t.lemma_remove(k);
    t.lemma_nodes();
    t.lemma_entries();
    lemma_holds_keys(store, t, hash_of);
    lemma_value_key_injective(k, k);
    assert(value_key(k).skip(1) =~= k);
    if t.nodes().contains_key(value_key(k)) {
        assert(is_path_key(value_key(k)));
    }
    match t.remove(k) {
        None => {
            assert forall|x: Seq<u8>| !fin.contains_key(x) by {
                if store.contains_key(x) && !t.nodes().contains_key(x) {
                    assert(t.entries().contains_key(x.skip(1)));
                    assert(t.entries().remove(k).contains_key(x.skip(1)) || x.skip(1) == k);
                    assert(x =~= value_key(x.skip(1)));
                }
            }
            assert(fin =~= Map::<Seq<u8>, Seq<u8>>::empty());
        },
        Some(t2) => {
            t2.lemma_nodes();
            assert forall|x: Seq<u8>| #[trigger] fin.contains_key(x) implies (
            t2.nodes().contains_key(x) && t2.nodes()[x] == fin[x]) || (is_value_key(x)
                && t2.entries().contains_key(x.skip(1))) by {
                if !t.nodes().contains_key(x) {
                    assert(store.contains_key(x));
                    assert(x =~= value_key(x.skip(1)));
                }
            }
            assert forall|q: Seq<u8>| #[trigger] t2.entries().contains_key(q) implies fin.contains_key(
                value_key(q),
            ) && hash_of(fin[value_key(q)]) == t2.entries()[q] by {
                lemma_value_key_injective(q, k);
                if t.nodes().contains_key(value_key(q)) {
                    assert(is_path_key(value_key(q)));
                }
            }
        },
    }
}

/// Whether `after` holds under every key of a value what `before` holds
/// there.
pub open spec fn values_kept<C: ChangeSet>(before: View<C>, after: View<C>) -> bool {
    &&& after.addr() == before.addr()
    &&& after.base() == before.base()
    &&& forall|x: Seq<u8>| is_value_key(x) ==> #[trigger] after.read(x) == before.read(x)
}

impl<C: Recorder, K: ProofMapKey, V: StorageValue> ProofMapIndex<C, K, V> {
    /// Stores `hash` as the node of the leaf `proof_path`.
    fn insert_leaf(&mut self, proof_path: &ProofPath, hash: &crate::hash::Hash)
        requires
            proof_path.is_leaf_spec(),
        ensures
            values_kept(old(self).view(), final(self).view()),
            final(self).view().contents() == old(self).view().contents().insert(
                proof_path.spec_serialize(),
                hash@,
            ),
            final(self).view().changes.rest() == old(self).view().changes.rest(),
            *final(final(self).view().changes.lender())
                == *final(old(self).view().changes.lender()),
    {
        let key = path_key(proof_path);
        self.base.put_bytes(key, hash.to_vec());
    }

    /// Stores `branch` as the node of `path`.
    fn put_node(&mut self, path: &ProofPath, branch: &BranchNode)
        requires
            path.raw()[0] == BRANCH_KEY_PREFIX || path.raw()[0] == LEAF_KEY_PREFIX,
        ensures
            values_kept(old(self).view(), final(self).view()),
            final(self).view().contents() == old(self).view().contents().insert(
                path.spec_serialize(),
                branch.image(),
            ),
            final(self).view().changes.rest() == old(self).view().changes.rest(),
            *final(final(self).view().changes.lender())
                == *final(old(self).view().changes.lender()),
    {
        let key = path_key(path);
        self.base.put_bytes(key, branch.to_bytes());
    }

    /// Takes the node of `path` out of the view.
    fn remove_node_at(&mut self, path: &ProofPath)
        requires
            path.raw()[0] == BRANCH_KEY_PREFIX || path.raw()[0] == LEAF_KEY_PREFIX,
        ensures
            values_kept(old(self).view(), final(self).view()),
            final(self).view().contents() == old(self).view().contents().remove(
                path.spec_serialize(),
            ),
            final(self).view().changes.rest() == old(self).view().changes.rest(),
            *final(final(self).view().changes.lender())
                == *final(old(self).view().changes.lender()),
    {
        let key = path_key(path);
        self.base.remove_bytes(key);
    }

    /// Takes the leaf `proof_path` and the value of `key` out of the view.
    fn remove_leaf(&mut self, proof_path: &ProofPath, key: &K)
        requires
            proof_path.is_leaf_spec(),
        ensures
            final(self).view().addr() == old(self).view().addr(),
            final(self).view().base() == old(self).view().base(),
            final(self).view().contents() == old(self).view().contents().remove(
                proof_path.spec_serialize(),
            ).remove(value_key(key.spec_bytes())),
            forall|k: Seq<u8>|
                #[trigger] final(self).entry(k) == if k == key.spec_bytes() {
                    None
                } else {
                    old(self).entry(k)
                },
            final(self).view().changes.rest() == old(self).view().changes.rest(),
            *final(final(self).view().changes.lender())
                == *final(old(self).view().changes.lender()),
    {
        let node = path_key(proof_path);
        self.base.remove_bytes(node);
        let value = to_value_path(key);
        self.base.remove_bytes(value);
        proof {
            assert forall|k: Seq<u8>| #[trigger]
                self.entry(k) == if k == key.spec_bytes() {
                    None
                } else {
                    old(self).entry(k)
                } by {
                lemma_value_key_injective(k, key.spec_bytes());
            }
        }
    }

    /// Puts the leaf of `proof_path`, with the hash `leaf_hash`, into the
    /// part of the tree under the child of `parent` on the side of the
    /// first bit of `proof_path`, which starts where the path of `parent`
    /// ends. Returns the hash of that child as it is now, and the length of
    /// its path from that start on if the child is a new branch; `None`
    /// where the stored tree makes no sense.
    ///
    /// Where that part of the tree is the valid tree `c`, the nodes of `c`
    /// with the key put into it lie in the store afterwards, and nothing
    /// else has changed.
    #[verifier::rlimit(60)]
    fn insert_branch(
        &mut self,
        parent: &BranchNode,
        proof_path: &ProofPath,
        leaf_hash: &crate::hash::Hash,
        Ghost(c): Ghost<Tree>,
    ) -> (r: Option<(Option<u16>, crate::hash::Hash)>)
        requires
            proof_path.is_leaf_spec(),
            proof_path.spec_start() < 256,
        ensures
            values_kept(old(self).view(), final(self).view()),
            r matches Some(e) ==> (e.0 matches Some(j) ==> 0 <= j < proof_path.spec_len()),
            grafted(
                old(self).view().contents(),
                *parent,
                *proof_path,
                leaf_hash@,
                c,
            ) ==> (r matches Some(e) && {
                let c2 = c.insert(proof_path.key(), leaf_hash@);
                &&& final(self).view().contents() == old(
                    self,
                ).view().contents().union_prefer_right(c2.nodes())
                &&& e.1@ == c2.node_hash()
                &&& match e.0 {
                    Some(j) => proof_path.spec_start() + j == c2.end() && c2.end() < c.end(),
                    None => c2.end() == c.end(),
                }
            }),
            final(self).view().changes.rest() == old(self).view().changes.rest(),
            *final(final(self).view().changes.lender())
                == *final(old(self).view().changes.lender()),
        decreases 256 - proof_path.spec_start(),
    {
        proof {
            use_type_invariant(proof_path);
            use_type_invariant(parent);
            leaf_hash.lemma_view();
        }
        let ghost store = self.view().contents();
        let ghost k = proof_path.key();
        let ghost h = leaf_hash@;
        let ghost good = grafted(store, *parent, *proof_path, h, c);
        let ghost c2 = c.insert(k, h);
        let start: u16 = proof_path.start();
        let side = proof_path.bit(0);
        let stored = parent.child_path(side);
        proof {
            if good {
                lemma_path_of_node(stored, c);
            }
        }
        if start > stored.end() || !kind_is_known(&stored) {
            return None;
        }
        let child_path = stored.start_from(start);
        let i: u16 = child_path.common_prefix_len(proof_path);
        proof {
            if good {
                lemma_path_of_node(child_path, c);
                lemma_walk(child_path, *proof_path, c, i as int);
                lemma_child_after(c, k, h, start as int);
                c.lemma_insert(k, h);
                c.lemma_entries();
            }
        }
        if child_path.len() == i {
            if child_path.is_leaf() {
                // The leaf of the key itself: its hash has changed.
                proof {
                    if good {
                        assert(c2 == Tree::Leaf { key: k, hash: h });
                        assert(c2.nodes() =~= Map::<Seq<u8>, Seq<u8>>::empty().insert(
                            leaf_key(k),
                            h,
                        ));
                        assert(store =~= store.union_prefer_right(c2.nodes()));
                    }
                }
                return Some((None, *leaf_hash));
            }
            if i == 0 {
                return None;
            }
            let ghost on_right = key_bit(k, c.end());
            let ghost cc = c.side(on_right);
            proof {
                if good {
                    c.lemma_image();
                    c.lemma_descend(k, h);
                    c.lemma_branch_nodes();
                    c.lemma_nodes();
                    lemma_child_after(cc, k, h, c.end());
                }
            }
            match self.get_node(&child_path) {
                Some(Node::Branch(mut branch)) => {
                    let deeper = proof_path.suffix(i);
                    let ghost before = branch;
                    proof {
                        if good {
                            assert(branch.image() == c.node_value());
                            assert(grafted(store, branch, deeper, h, cc));
                        }
                    }
                    match self.insert_branch(&branch, &deeper, leaf_hash, Ghost(cc)) {
                        Some((j, h2)) => {
                            let ghost mid = self.view().contents();
                            let bit = proof_path.bit(i);
                            match j {
                                Some(j) => {
                                    let child = deeper.prefix(j);
                                    proof {
                                        if good {
                                            lemma_new_branch_key(child, cc.insert(k, h));
                                        }
                                    }
                                    branch.set_child(bit, &child, &h2);
                                },
                                None => {
                                    branch.set_child_hash(bit, &h2);
                                },
                            }
                            let hash = branch.hash();
                            proof {
                                if good {
                                    assert(bit == ChildKind::of_bit(on_right));
                                    assert(c2 == c.with_side(on_right, cc.insert(k, h)));
                                    lemma_image_of(branch, c2);
                                }
                            }
                            self.put_node(&child_path, &branch);
                            proof {
                                if good {
                                    lemma_graft_replace(
                                        store,
                                        mid,
                                        self.view().contents(),
                                        c,
                                        k,
                                        h,
                                    );
                                }
                            }
                            Some((None, hash))
                        },
                        None => None,
                    }
                },
                _ => None,
            }
        } else {
            // The key parts from the child within the path of the child: a
            // new branch takes the place of the child, with the child and
            // the new leaf under it.
            let suffix_path = proof_path.suffix(i);
            let mut new_branch = BranchNode::empty();
            let new_side = suffix_path.bit(0);
            let old_side = child_path.bit(i);
            let old_path = child_path.suffix(i);
            let old_hash = parent.child_hash(side);
            new_branch.set_child(new_side, &suffix_path, leaf_hash);
            new_branch.set_child(old_side, &old_path, &old_hash);
            let hash = new_branch.hash();
            let new_path = proof_path.prefix(i);
            proof {
                if good {
                    let d = start + i;
                    c.lemma_join(k, h, d);
                    assert(c2 == join(d, c, Tree::Leaf { key: k, hash: h }, key_bit(k, d)));
                    lemma_leaf_path(suffix_path);
                    lemma_path_of_node(old_path, c);
                    lemma_new_branch_key(new_path, c2);
                    assert(new_side == ChildKind::of_bit(key_bit(k, d)));
                    assert(old_side == new_side.spec_not());
                    lemma_image_of(new_branch, c2);
                }
            }
            self.put_node(&new_path, &new_branch);
            proof {
                if good {
                    lemma_graft_split(store, self.view().contents(), c, k, h);
                }
            }
            Some((Some(i), hash))
        }
    }

    /// Holds `value` under `key` from now on.
    ///
    /// A valid map stays a valid map: the tree that it holds afterwards is
    /// the tree of its keys, with the hash of `value` for `key`.
    #[verifier::rlimit(60)]
    pub fn put(&mut self, key: &K, value: V)
        requires
            hashable(value.spec_bytes().len()),
        ensures
            final(self).view().addr() == old(self).view().addr(),
            final(self).view().base() == old(self).view().base(),
            forall|k: Seq<u8>|
                #[trigger] final(self).entry(k) == if k == key.spec_bytes() {
                    Some(value.spec_bytes())
                } else {
                    old(self).entry(k)
                },
            final(self).contents() == old(self).contents().insert(
                key.spec_bytes(),
                value.spec_bytes(),
            ),
            V::is_encoding(value.spec_bytes()),
            old(self).is_blank() ==> final(self).holds(
                Tree::Leaf { key: key.spec_bytes(), hash: V::spec_hash(value.spec_bytes()) },
            ),
            forall|t: Tree|
                old(self).holds(t) ==> #[trigger] final(self).holds(
                    t.insert(key.spec_bytes(), V::spec_hash(value.spec_bytes())),
                ),
            old(self).valid() ==> final(self).valid(),
            final(self).view().changes.rest() == old(self).view().changes.rest(),
            *final(final(self).view().changes.lender())
                == *final(old(self).view().changes.lender()),
            old(self).all_readable() ==> final(self).all_readable(),
    {
        proof {
            key.lemma_key_size();
            value.lemma_encoding();
        }
        let proof_path = ProofPath::new(key);
        let root = self.get_root_node();
        let leaf_hash = value.hash();
        let ghost vb = value.spec_bytes();
        let ghost k = key.spec_bytes();
        let ghost h = leaf_hash@;
        let ghost store = self.view().contents();
        let ghost blank = self.is_blank();
        let ghost has_tree = exists|t: Tree| self.holds(t);
        let ghost t = self.tree();
        let ghost t2 = t.insert(k, h);
        proof {
            leaf_hash.lemma_view();
            lemma_leaf_path(proof_path);
            if has_tree {
                lemma_holds_root(store, t, Self::hash_of());
                lemma_child_after(t, k, h, -1);
                t.lemma_insert(k, h);
                t.lemma_entries();
            }
            if blank {
                assert forall|e: (Seq<u8>, Seq<u8>)| !is_first(store, e) by {}
                assert(root_entry(store) is None);
            }
        }
        self.base.put_bytes(to_value_path(key), value.into_bytes());
        let ghost written = *self;
        proof {
            assert forall|x: Seq<u8>| #[trigger]
                written.entry(x) == if x == key.spec_bytes() {
                    Some(vb)
                } else {
                    old(self).entry(x)
                } by {
                lemma_value_key_injective(x, key.spec_bytes());
            }
        }
        let ghost store0 = self.view().contents();
        self.insert_leaf(&proof_path, &leaf_hash);
        let ghost store1 = self.view().contents();
        proof {
            assert(store0 == store.insert(value_key(k), vb));
            assert(store1 == store0.insert(leaf_key(k), h));
            if has_tree {
                lemma_store_kept(store, store1, t, k, vb, h, Self::hash_of());
            }
        }
        match root {
            Some((prefix, Node::Leaf(prefix_data))) => {
                let i: u16 = prefix.common_prefix_len(&proof_path);
                proof {
                    if has_tree {
                        lemma_path_of_node(prefix, t);
                        lemma_walk(prefix, proof_path, t, i as int);
                    }
                }
                if i < 256 {
                    let mut branch = BranchNode::empty();
                    let new_side = proof_path.bit(i);
                    let old_side = prefix.bit(i);
                    let new_child = proof_path.suffix(i);
                    let old_child = prefix.suffix(i);
                    branch.set_child(new_side, &new_child, &leaf_hash);
                    branch.set_child(old_side, &old_child, &prefix_data);
                    let new_prefix = proof_path.prefix(i);
                    proof {
                        if has_tree {
                            let d = i as int;
                            t.lemma_join(k, h, d);
                            assert(t2 == join(d, t, Tree::Leaf { key: k, hash: h }, key_bit(k, d)));
                            lemma_leaf_path(new_child);
                            lemma_path_of_node(old_child, t);
                            lemma_new_branch_key(new_prefix, t2);
                            assert(old_side == new_side.spec_not());
                            lemma_image_of(branch, t2);
                        }
                    }
                    self.put_node(&new_prefix, &branch);
                    proof {
                        if has_tree {
                            lemma_graft_split(store1, self.view().contents(), t, k, h);
                        }
                    }
                } else {
                    proof {
                        if has_tree {
                            assert(t2 == Tree::Leaf { key: k, hash: h });
                            assert(t2.nodes() =~= Map::<Seq<u8>, Seq<u8>>::empty().insert(
                                leaf_key(k),
                                h,
                            ));
                            assert(store1 =~= store1.union_prefer_right(t2.nodes()));
                        }
                    }
                }
            },
            Some((prefix, Node::Branch(branch))) => {
                let mut branch = branch;
                let i: u16 = prefix.common_prefix_len(&proof_path);
                proof {
                    if has_tree {
                        lemma_path_of_node(prefix, t);
                        lemma_walk(prefix, proof_path, t, i as int);
                        t.lemma_image();
                        assert(branch.image() == t.node_value());
                    }
                }
                if i == prefix.len() {
                    let suffix_path = proof_path.suffix(i);
                    let ghost on_right = key_bit(k, t.end());
                    let ghost c = t.side(on_right);
                    proof {
                        if has_tree {
                            t.lemma_descend(k, h);
                            t.lemma_branch_nodes();
                            lemma_child_after(c, k, h, t.end());
                            assert(grafted(store1, branch, suffix_path, h, c));
                        }
                    }
                    match self.insert_branch(&branch, &suffix_path, &leaf_hash, Ghost(c)) {
                        Some((j, h2)) => {
                            let ghost mid = self.view().contents();
                            let bit = suffix_path.bit(0);
                            match j {
                                Some(j) => {
                                    let child = suffix_path.prefix(j);
                                    proof {
                                        if has_tree {
                                            lemma_new_branch_key(child, c.insert(k, h));
                                        }
                                    }
                                    branch.set_child(bit, &child, &h2);
                                },
                                None => {
                                    branch.set_child_hash(bit, &h2);
                                },
                            }
                            proof {
                                if has_tree {
                                    assert(bit == ChildKind::of_bit(on_right));
                                    assert(t2 == t.with_side(on_right, c.insert(k, h)));
                                    lemma_image_of(branch, t2);
                                }
                            }
                            self.put_node(&prefix, &branch);
                            proof {
                                if has_tree {
                                    lemma_graft_replace(
                                        store1,
                                        mid,
                                        self.view().contents(),
                                        t,
                                        k,
                                        h,
                                    );
                                }
                            }
                        },
                        None => {},
                    }
                } else {
                    let mut new_branch = BranchNode::empty();
                    let old_side = prefix.bit(i);
                    let new_side = proof_path.bit(i);
                    let old_child = prefix.suffix(i);
                    let new_child = proof_path.suffix(i);
                    new_branch.set_child(old_side, &old_child, &branch.hash());
                    new_branch.set_child(new_side, &new_child, &leaf_hash);
                    let new_prefix = prefix.prefix(i);
                    proof {
                        if has_tree {
                            let d = i as int;
                            t.lemma_join(k, h, d);
                            assert(t2 == join(d, t, Tree::Leaf { key: k, hash: h }, key_bit(k, d)));
                            lemma_leaf_path(new_child);
                            lemma_path_of_node(old_child, t);
                            assert forall|p: int| 0 <= p < d implies key_bit(new_prefix.key(), p)
                                == key_bit(t2.first_key(), p) by {
                                assert(key_bit(prefix.key(), p) == key_bit(t.first_key(), p));
                                assert(key_bit(t2.first_key(), p) == key_bit(t.first_key(), p));
                            }
                            lemma_new_branch_key(new_prefix, t2);
                            assert(old_side == new_side.spec_not());
                            lemma_image_of(new_branch, t2);
                        }
                    }
                    self.put_node(&new_prefix, &new_branch);
                    proof {
                        if has_tree {
                            lemma_graft_split(store1, self.view().contents(), t, k, h);
                        }
                    }
                }
            },
            None => {},
        }
        proof {
            assert forall|x: Seq<u8>| #[trigger]
                self.entry(x) == if x == key.spec_bytes() {
                    Some(vb)
                } else {
                    old(self).entry(x)
                } by {
                assert(is_value_key(value_key(x)));
                assert(self.entry(x) == written.entry(x));
            }
            assert(self.contents() =~= old(self).contents().insert(key.spec_bytes(), vb));
            let fin = self.view().contents();
            if blank {
                lemma_first_leaf(fin, k, vb, h, Self::hash_of());
                assert(self.holds(Tree::Leaf { key: k, hash: h }));
                assert(self.valid());
            }
            if has_tree {
                assert(fin == store1.union_prefer_right(t2.nodes()));
                lemma_put_holds(store, fin, t, k, vb, h, Self::hash_of());
                assert(self.holds(t2));
                assert(self.valid());
                assert forall|t0: Tree| old(self).holds(t0) implies #[trigger] self.holds(
                    t0.insert(k, h),
                ) by {
                    lemma_one_tree(store, t0, store, t, Self::hash_of());
                }
            } else {
                assert forall|t0: Tree| old(self).holds(t0) implies #[trigger] self.holds(
                    t0.insert(k, h),
                ) by {}
            }
        }
        proof {
            if old(self).all_readable() {
                assert forall|q: Seq<u8>| #[trigger] self.readable(q) by {
                    assert(old(self).readable(q));
                }
            }
        }
    }

    /// Takes `key` out of the part of the tree under the child of `parent`
    /// on the side of the first bit of `proof_path`, which starts where the
    /// path of `parent` ends.
    ///
    /// Where that part of the tree is the valid tree `c`, the store is left
    /// with the nodes of `c` without the key in place of the nodes of `c`,
    /// and the action returned says what has become of `c`.
    #[verifier::rlimit(60)]
    fn remove_node(
        &mut self,
        parent: &BranchNode,
        proof_path: &ProofPath,
        key: &K,
        Ghost(c): Ghost<Tree>,
    ) -> (r: RemoveAction)
        requires
            proof_path.is_leaf_spec(),
            proof_path.spec_start() < 256,
            proof_path.key() == key.spec_bytes(),
        ensures
            final(self).view().addr() == old(self).view().addr(),
            final(self).view().base() == old(self).view().base(),
            forall|k: Seq<u8>|
                k != key.spec_bytes() ==> #[trigger] final(self).entry(k) == old(self).entry(k),
            final(self).entry(key.spec_bytes()) is None || final(self).entry(key.spec_bytes())
                == old(self).entry(key.spec_bytes()),
            r matches RemoveAction::Branch(p, _) ==> p.wf() && p.spec_start() == 0,
            planted(old(self).view().contents(), *parent, *proof_path, c) ==> (final(self).view().contents()
                == after_remove(old(self).view().contents(), c, key.spec_bytes()) && action_for(
                c,
                key.spec_bytes(),
                r,
            )),
            final(self).view().changes.rest() == old(self).view().changes.rest(),
            *final(final(self).view().changes.lender())
                == *final(old(self).view().changes.lender()),
        decreases 256 - proof_path.spec_start(),
    {
        proof {
            use_type_invariant(proof_path);
            use_type_invariant(parent);
        }
        let ghost store = self.view().contents();
        let ghost k = key.spec_bytes();
        let ghost good = planted(store, *parent, *proof_path, c);
        let start: u16 = proof_path.start();
        let stored = parent.child_path(proof_path.bit(0));
        proof {
            if good {
                lemma_path_of_node(stored, c);
            }
        }
        if start > stored.end() || !kind_is_known(&stored) {
            return RemoveAction::KeyNotFound;
        }
        let child_path = stored.start_from(start);
        let i: u16 = child_path.common_prefix_len(proof_path);
        proof {
            if good {
                lemma_path_of_node(child_path, c);
                lemma_walk(child_path, *proof_path, c, i as int);
                c.lemma_entries();
                c.lemma_nodes();
                c.lemma_remove(k);
            }
        }
        if i == child_path.len() {
            if child_path.is_leaf() {
                proof {
                    if good {
                        crate::proof_map_index::tree::lemma_key_ext(c.first_key(), k);
                        lemma_leaf_path(*proof_path);
                    }
                }
                match self.get_node(&child_path) {
                    Some(Node::Leaf(_)) => {
                        self.remove_leaf(proof_path, key);
                        proof {
                            if good {
                                lemma_after_leaf(store, self.view().contents(), c, k);
                            }
                        }
                        return RemoveAction::Leaf;
                    },
                    _ => {
                        return RemoveAction::KeyNotFound;
                    },
                }
            }
            if i == 0 {
                return RemoveAction::KeyNotFound;
            }
            let ghost on_right = key_bit(k, c.end());
            let ghost cc = c.side(on_right);
            let ghost sib = c.side(!on_right);
            proof {
                if good {
                    c.lemma_image();
                    c.lemma_descend(k, crate::hash::Hash::zero_view());
                    c.lemma_branch_nodes();
                    cc.lemma_remove(k);
                    cc.lemma_nodes();
                    sib.lemma_nodes();
                    sib.lemma_entries();
                }
            }
            match self.get_node(&child_path) {
                Some(Node::Branch(mut branch)) => {
                    let suffix_path = proof_path.suffix(i);
                    let side = suffix_path.bit(0);
                    proof {
                        if good {
                            assert(branch.image() == c.node_value());
                            assert(planted(store, branch, suffix_path, cc)) by {
                                if cc.nodes().contains_key(value_key(k)) {
                                    assert(c.nodes().contains_key(value_key(k)));
                                }
                            }
                        }
                    }
                    let action = self.remove_node(&branch, &suffix_path, key, Ghost(cc));
                    let ghost mid = *self;
                    let ghost fin1 = self.view().contents();
                    let result = match action {
                        RemoveAction::Leaf => {
                            let child = side.not();
                            let key = branch.child_path(child);
                            let hash = branch.child_hash(child);
                            self.remove_node_at(&child_path);
                            proof {
                                if good {
                                    lemma_after_collapse(
                                        store,
                                        fin1,
                                        self.view().contents(),
                                        c,
                                        k,
                                    );
                                    assert(side == ChildKind::of_bit(on_right));
                                }
                            }
                            RemoveAction::Branch(key, hash)
                        },
                        RemoveAction::Branch(key, hash) => {
                            if suffix_path.start() > key.end() {
                                proof {
                                    if good {
                                        lemma_path_of_node(key, cc.remove(k)->0);
                                    }
                                }
                                RemoveAction::KeyNotFound
                            } else {
                                let new_child_path = key.start_from(suffix_path.start());
                                proof {
                                    if good {
                                        lemma_path_of_node(new_child_path, cc.remove(k)->0);
                                    }
                                }
                                branch.set_child(side, &new_child_path, &hash);
                                let h = branch.hash();
                                proof {
                                    if good {
                                        assert(side == ChildKind::of_bit(on_right));
                                        lemma_image_of(
                                            branch,
                                            c.with_side(on_right, cc.remove(k)->0),
                                        );
                                    }
                                }
                                self.put_node(&child_path, &branch);
                                proof {
                                    if good {
                                        lemma_after_replace(
                                            store,
                                            fin1,
                                            self.view().contents(),
                                            c,
                                            k,
                                        );
                                    }
                                }
                                RemoveAction::UpdateHash(h)
                            }
                        },
                        RemoveAction::UpdateHash(hash) => {
                            branch.set_child_hash(side, &hash);
                            let h = branch.hash();
                            proof {
                                if good {
                                    assert(side == ChildKind::of_bit(on_right));
                                    lemma_same_node_key(cc, cc.remove(k)->0);
                                    lemma_image_of(branch, c.with_side(on_right, cc.remove(k)->0));
                                }
                            }
                            self.put_node(&child_path, &branch);
                            proof {
                                if good {
                                    lemma_after_replace(
                                        store,
                                        fin1,
                                        self.view().contents(),
                                        c,
                                        k,
                                    );
                                }
                            }
                            RemoveAction::UpdateHash(h)
                        },
                        RemoveAction::KeyNotFound => {
                            proof {
                                if good {
                                    lemma_after_not_found(store, cc, k);
                                    assert(c.with_side(on_right, cc) == c);
                                    lemma_after_not_found(store, c, k);
                                }
                            }
                            RemoveAction::KeyNotFound
                        },
                    };
                    proof {
                        assert forall|q: Seq<u8>| #[trigger] self.entry(q) == mid.entry(q) by {
                            assert(is_value_key(value_key(q)));
                        }
                    }
                    return result;
                },
                _ => {
                    return RemoveAction::KeyNotFound;
                },
            }
        }
        proof {
            if good {
                assert(c.remove(k) == Some(c)) by {
                    if c is Leaf {
                        assert(c.first_key() != k);
                    }
                }
                lemma_after_not_found(store, c, k);
            }
        }
        RemoveAction::KeyNotFound
    }

    /// Takes the value and the leaf of `key` out of the view, and brings
    /// the branches on the way to the leaf in line: what is left under a
    /// branch with one child moves up, and the hashes of the others are
    /// set anew.
    #[verifier::rlimit(80)]
    fn remove_from_tree(&mut self, key: &K)
        ensures
            final(self).view().addr() == old(self).view().addr(),
            final(self).view().base() == old(self).view().base(),
            forall|k: Seq<u8>|
                k != key.spec_bytes() ==> #[trigger] final(self).entry(k) == old(self).entry(k),
            final(self).entry(key.spec_bytes()) is None || final(self).entry(key.spec_bytes())
                == old(self).entry(key.spec_bytes()),
            old(self).is_blank() ==> final(self).view().contents() == old(self).view().contents(),
            forall|t: Tree|
                #[trigger] old(self).holds(t) ==> final(self).view().contents() == after_remove(
                    old(self).view().contents(),
                    t,
                    key.spec_bytes(),
                ),
            final(self).view().changes.rest() == old(self).view().changes.rest(),
            *final(final(self).view().changes.lender())
                == *final(old(self).view().changes.lender()),
    {
        proof {
            key.lemma_key_size();
        }
        let proof_path = ProofPath::new(key);
        let ghost k = key.spec_bytes();
        let ghost store = self.view().contents();
        let ghost blank = self.is_blank();
        let ghost has_tree = exists|t: Tree| self.holds(t);
        let ghost t = self.tree();
        proof {
            lemma_leaf_path(proof_path);
            if has_tree {
                lemma_holds_root(store, t, Self::hash_of());
                t.lemma_entries();
                t.lemma_nodes();
                t.lemma_remove(k);
                lemma_value_key_injective(k, k);
                if t.nodes().contains_key(value_key(k)) {
                    assert(is_path_key(value_key(k)));
                }
            }
            if blank {
                assert forall|e: (Seq<u8>, Seq<u8>)| !is_first(store, e) by {}
                assert(root_entry(store) is None);
            }
        }
        match self.get_root_node() {
            Some((prefix, Node::Leaf(_))) => {
                let i: u16 = prefix.common_prefix_len(&proof_path);
                proof {
                    if has_tree {
                        lemma_path_of_node(prefix, t);
                        lemma_walk(prefix, proof_path, t, i as int);
                    }
                }
                if i == 256 {
                    proof {
                        if has_tree {
                            crate::proof_map_index::tree::lemma_key_ext(t.first_key(), k);
                        }
                    }
                    self.remove_leaf(&proof_path, key);
                    proof {
                        if has_tree {
                            lemma_after_leaf(store, self.view().contents(), t, k);
                        }
                    }
                } else {
                    proof {
                        if has_tree {
                            assert(t.first_key() != k);
                            lemma_after_not_found(store, t, k);
                        }
                    }
                }
            },
            Some((prefix, Node::Branch(branch))) => {
                let mut branch = branch;
                let i: u16 = prefix.common_prefix_len(&proof_path);
                proof {
                    if has_tree {
                        lemma_path_of_node(prefix, t);
                        lemma_walk(prefix, proof_path, t, i as int);
                        t.lemma_image();
                        assert(branch.image() == t.node_value());
                    }
                }
                if i == prefix.len() {
                    let suffix_path = proof_path.suffix(i);
                    let side = suffix_path.bit(0);
                    let ghost on_right = key_bit(k, t.end());
                    let ghost c = t.side(on_right);
                    proof {
                        if has_tree {
                            t.lemma_descend(k, crate::hash::Hash::zero_view());
                            t.lemma_branch_nodes();
                            c.lemma_remove(k);
                            c.lemma_nodes();
                            assert(planted(store, branch, suffix_path, c)) by {
                                if c.nodes().contains_key(value_key(k)) {
                                    assert(t.nodes().contains_key(value_key(k)));
                                }
                            }
                        }
                    }
                    let action = self.remove_node(&branch, &suffix_path, key, Ghost(c));
                    let ghost mid = *self;
                    let ghost fin1 = self.view().contents();
                    match action {
                        RemoveAction::Leaf => {
                            self.remove_node_at(&prefix);
                            proof {
                                if has_tree {
                                    lemma_after_collapse(
                                        store,
                                        fin1,
                                        self.view().contents(),
                                        t,
                                        k,
                                    );
                                }
                            }
                        },
                        RemoveAction::Branch(key, hash) => {
                            proof {
                                if has_tree {
                                    lemma_path_of_node(key, c.remove(k)->0);
                                }
                            }
                            if suffix_path.start() <= key.end() {
                                let new_child_path = key.start_from(suffix_path.start());
                                proof {
                                    if has_tree {
                                        lemma_path_of_node(new_child_path, c.remove(k)->0);
                                    }
                                }
                                branch.set_child(side, &new_child_path, &hash);
                                proof {
                                    if has_tree {
                                        assert(side == ChildKind::of_bit(on_right));
                                        lemma_image_of(
                                            branch,
                                            t.with_side(on_right, c.remove(k)->0),
                                        );
                                    }
                                }
                                self.put_node(&prefix, &branch);
                                proof {
                                    if has_tree {
                                        lemma_after_replace(
                                            store,
                                            fin1,
                                            self.view().contents(),
                                            t,
                                            k,
                                        );
                                    }
                                }
                            }
                        },
                        RemoveAction::UpdateHash(hash) => {
                            branch.set_child_hash(side, &hash);
                            proof {
                                if has_tree {
                                    assert(side == ChildKind::of_bit(on_right));
                                    lemma_same_node_key(c, c.remove(k)->0);
                                    lemma_image_of(branch, t.with_side(on_right, c.remove(k)->0));
                                }
                            }
                            self.put_node(&prefix, &branch);
                            proof {
                                if has_tree {
                                    lemma_after_replace(
                                        store,
                                        fin1,
                                        self.view().contents(),
                                        t,
                                        k,
                                    );
                                }
                            }
                        },
                        RemoveAction::KeyNotFound => {
                            proof {
                                if has_tree {
                                    lemma_after_not_found(store, c, k);
                                    assert(t.with_side(on_right, c) == t);
                                    lemma_after_not_found(store, t, k);
                                }
                            }
                        },
                    }
                    proof {
                        assert forall|q: Seq<u8>| #[trigger] self.entry(q) == mid.entry(q) by {
                            assert(is_value_key(value_key(q)));
                        }
                    }
                } else {
                    proof {
                        if has_tree {
                            assert(t.remove(k) == Some(t));
                            lemma_after_not_found(store, t, k);
                        }
                    }
                }
            },
            None => {},
        }
        proof {
            let fin = self.view().contents();
            if has_tree {
                assert(fin == after_remove(store, t, k));
                assert forall|t0: Tree| #[trigger] old(self).holds(t0) implies fin == after_remove(
                    store,
                    t0,
                    k,
                ) by {
                    lemma_one_tree(store, t0, store, t, Self::hash_of());
                }
            } else {
                assert forall|t0: Tree| #[trigger] old(self).holds(t0) implies fin == after_remove(
                    store,
                    t0,
                    k,
                ) by {}
                if blank {
                    assert(fin == store);
                }
            }
        }
    }

    /// Holds nothing under `key` from now on. A key that the map does not
    /// hold is left alone.
    ///
    /// A valid map stays a valid map: it holds what is left of its tree
    /// without the key, or nothing at all where the key was the only one.
    #[verifier::rlimit(60)]
    pub fn remove(&mut self, key: &K)
        ensures
            final(self).view().addr() == old(self).view().addr(),
            final(self).view().base() == old(self).view().base(),
            forall|k: Seq<u8>|
                k != key.spec_bytes() ==> #[trigger] final(self).entry(k) == old(self).entry(k),
            final(self).entry(key.spec_bytes()) is None || final(self).entry(key.spec_bytes())
                == old(self).entry(key.spec_bytes()),
            old(self).valid() ==> final(self).valid() && final(self).entry(key.spec_bytes()) is None
                && final(self).contents() == old(self).contents().remove(key.spec_bytes()),
            forall|t: Tree|
                #[trigger] old(self).holds(t) ==> (match t.remove(key.spec_bytes()) {
                    Some(t2) => final(self).holds(t2),
                    None => final(self).is_blank(),
                }),
            final(self).view().changes.rest() == old(self).view().changes.rest(),
            *final(final(self).view().changes.lender())
                == *final(old(self).view().changes.lender()),
            old(self).all_readable() ==> final(self).all_readable(),
    {
        let ghost k = key.spec_bytes();
        let ghost store = self.view().contents();
        let ghost blank = self.is_blank();
        let ghost has_tree = exists|t: Tree| self.holds(t);
        let ghost t = self.tree();
        proof {
            key.lemma_key_size();
        }
        self.remove_from_tree(key);
        proof {
            let fin = self.view().contents();
            if has_tree {
                assert(fin == after_remove(store, t, k));
                lemma_remove_holds(store, fin, t, k, Self::hash_of());
                lemma_holds_keys(store, t, Self::hash_of());
                match t.remove(k) {
                    Some(t2) => {
                        assert(self.holds(t2));
                        assert(self.valid());
                    },
                    None => {
                        assert(self.valid());
                    },
                }
                assert forall|t0: Tree| #[trigger] old(self).holds(t0) implies (match t0.remove(k) {
                    Some(t2) => self.holds(t2),
                    None => self.is_blank(),
                }) by {
                    lemma_one_tree(store, t0, store, t, Self::hash_of());
                }
                assert(self.entry(k) is None);
            } else {
                assert forall|t0: Tree| #[trigger] old(self).holds(t0) implies (match t0.remove(k) {
                    Some(t2) => self.holds(t2),
                    None => self.is_blank(),
                }) by {}
                if blank {
                    assert(fin == store);
                    assert(!fin.contains_key(value_key(k)));
                    assert(self.entry(k) is None);
                }
            }
            if old(self).valid() {
                assert(self.contents() =~= old(self).contents().remove(k));
            }
        }
        proof {
            if old(self).all_readable() {
                assert forall|q: Seq<u8>| #[trigger] self.readable(q) by {
                    assert(old(self).readable(q));
                }
            }
        }
    }

    /// Takes every key out of the map.
    pub fn clear(&mut self)
        ensures
            final(self).view().addr() == old(self).view().addr(),
            final(self).view().base() == old(self).view().base(),
            final(self).contents() == Map::<Seq<u8>, Seq<u8>>::empty(),
            final(self).view().contents() == Map::<Seq<u8>, Seq<u8>>::empty(),
            final(self).view().changes.rest() == old(self).view().changes.rest(),
            *final(final(self).view().changes.lender())
                == *final(old(self).view().changes.lender()),
            final(self).all_readable(),
    {
        self.base.clear();
        assert(self.contents() =~= Map::<Seq<u8>, Seq<u8>>::empty());
    }
}

/// Different keys have their values under different keys of the view.
pub proof fn lemma_value_key_injective(a: Seq<u8>, b: Seq<u8>)
    ensures
        (value_key(a) == value_key(b)) == (a == b),
        is_value_key(value_key(a)),
        !is_node_key(value_key(a)),
{
    if value_key(a) == value_key(b) {
        assert(a =~= value_key(a).skip(1));
        assert(b =~= value_key(b).skip(1));
    }
}

/// A raw key begins with the prefix of values if and only if it is a key
/// under which a value lies.
pub proof fn lemma_value_prefix(key: Seq<u8>)
    ensures
        crate::lex::has_prefix(key, seq![VALUE_KEY_PREFIX]) == is_value_key(key),
{
    if is_value_key(key) {
        assert(key.subrange(0, 1) =~= seq![VALUE_KEY_PREFIX]);
    }
    if crate::lex::has_prefix(key, seq![VALUE_KEY_PREFIX]) {
        assert(key.subrange(0, 1)[0] == key[0]);
    }
}

impl<K: ProofMapKey, V: StorageValue> ProofMapIndexIter<K, V> {
    /// The raw entries that the iterator has not looked at yet.
    pub closed spec fn pending(&self) -> Seq<(Seq<u8>, Seq<u8>)> {
        self.base_iter.pending()
    }

    /// What every iterator of a map satisfies: it ends where the values
    /// end.
    pub closed spec fn wf(&self) -> bool {
        self.base_iter.spec_prefix() == seq![VALUE_KEY_PREFIX]
    }

    /// Whether the iterator hands out its next raw entry: there is one, it
    /// lies under the key of a value, and its key and its value can be
    /// decoded.
    pub open spec fn hands_out(&self) -> bool {
        &&& self.pending().len() > 0
        &&& is_value_key(self.pending()[0].0)
        &&& K::is_encoding(self.pending()[0].0.skip(1))
        &&& V::is_encoding(self.pending()[0].1)
    }

    /// Hands out the next entry; `None` at the end, which is also where an
    /// entry cannot be decoded.
    pub fn next(&mut self) -> (r: Option<(K, V)>)
        requires
            old(self).wf(),
        ensures
            final(self).wf(),
            old(self).hands_out() ==> (r matches Some(e) && final(self).pending() == old(
                self,
            ).pending().drop_first() && value_key(e.0.spec_bytes()) == old(self).pending()[0].0
                && e.1.spec_bytes() == old(self).pending()[0].1),
            !old(self).hands_out() ==> r is None && final(self).pending().len() == 0,
    {
        proof {
            if self.pending().len() > 0 {
                lemma_value_prefix(self.pending()[0].0);
            }
        }
        match self.base_iter.next() {
            Some((raw, v)) => match from_value_path::<K>(raw.as_slice()) {
                Some(k) => Some((k, v)),
                None => {
                    self.base_iter.stop();
                    None
                },
            },
            None => None,
        }
    }
}

impl<K: ProofMapKey> ProofMapIndexKeys<K> {
    /// The raw entries that the iterator has not looked at yet.
    pub closed spec fn pending(&self) -> Seq<(Seq<u8>, Seq<u8>)> {
        self.base_iter.pending()
    }

    /// What every iterator of a map satisfies: it ends where the values
    /// end.
    pub closed spec fn wf(&self) -> bool {
        self.base_iter.spec_prefix() == seq![VALUE_KEY_PREFIX]
    }

    /// Whether the iterator hands out the key of its next raw entry: there
    /// is one, it lies under the key of a value, and its key can be decoded.
    pub open spec fn hands_out(&self) -> bool {
        &&& self.pending().len() > 0
        &&& is_value_key(self.pending()[0].0)
        &&& K::is_encoding(self.pending()[0].0.skip(1))
    }

    /// Hands out the next key; `None` at the end, which is also where a key
    /// cannot be decoded.
    pub fn next(&mut self) -> (r: Option<K>)
        requires
            old(self).wf(),
        ensures
            final(self).wf(),
            old(self).hands_out() ==> (r matches Some(k) && value_key(k.spec_bytes()) == old(
                self,
            ).pending()[0].0 && final(self).pending() == old(self).pending().drop_first()),
            !old(self).hands_out() ==> r is None && final(self).pending().len() == 0,
    {
        proof {
            if self.pending().len() > 0 {
                lemma_value_prefix(self.pending()[0].0);
            }
        }
        match self.base_iter.next() {
            Some((raw, _)) => match from_value_path::<K>(raw.as_slice()) {
                Some(k) => Some(k),
                None => {
                    self.base_iter.stop();
                    None
                },
            },
            None => None,
        }
    }
}

impl<V: StorageValue> ProofMapIndexValues<V> {
    /// The raw entries that the iterator has not looked at yet.
    pub closed spec fn pending(&self) -> Seq<(Seq<u8>, Seq<u8>)> {
        self.base_iter.pending()
    }

    /// What every iterator of a map satisfies: it ends where the values
    /// end.
    pub closed spec fn wf(&self) -> bool {
        self.base_iter.spec_prefix() == seq![VALUE_KEY_PREFIX]
    }

    /// Whether the iterator hands out the value of its next raw entry:
    /// there is one, it lies under the key of a value, and its value can be
    /// decoded.
    pub open spec fn hands_out(&self) -> bool {
        &&& self.pending().len() > 0
        &&& is_value_key(self.pending()[0].0)
        &&& V::is_encoding(self.pending()[0].1)
    }

    /// Hands out the next value; `None` at the end, which is also where a
    /// value cannot be decoded.
    pub fn next(&mut self) -> (r: Option<V>)
        requires
            old(self).wf(),
        ensures
            final(self).wf(),
            old(self).hands_out() ==> (r matches Some(v) && v.spec_bytes() == old(
                self,
            ).pending()[0].1 && final(self).pending() == old(self).pending().drop_first()),
            !old(self).hands_out() ==> r is None && final(self).pending().len() == 0,
    {
        proof {
            if self.pending().len() > 0 {
                lemma_value_prefix(self.pending()[0].0);
            }
        }
        match self.base_iter.next() {
            Some((_, v)) => Some(v),
            None => None,
        }
    }
}

} // verus!
