//! Building proofs from a map: the walk for a key through the tree, with
//! the subtrees beside it as the parts of the proof.

use vstd::prelude::*;
use vstd::view::View as _;

use crate::bits::key_bit;
use crate::proof_map_index::key::{BitsRange, ChildKind, ProofMapKey, ProofPath};
use crate::proof_map_index::map_proof::{combine, found_keys, key_seq, stands_for, MapProof};
use crate::proof_map_index::node::{BranchNode, Node};
use crate::proof_map_index::tree::{
    any_enters, cut_all, cut_parts, diverge, enters, lemma_cut_all, lemma_diverge, lemma_key_ext,
    lemma_walk_begins, lemma_walk_step, spread_parts, walk_at, walk_ends, Tree,
};
use crate::proof_map_index::{
    is_first, kind_is_known, lemma_holds_keys, lemma_holds_root, lemma_leaf_path, lemma_one_tree,
    lemma_path_of_node, lemma_walk, to_value_path, value_key, ProofMapIndex,
};
use crate::hash::hashable;
use crate::values::StorageValue;
use crate::views::ChangeSet;

verus! {

/// A branch whose image is the value of the root of a valid tree has for
/// each side the key and the hash of the subtree on that side, which is
/// valid and ends beyond the root.
pub proof fn lemma_children(branch: BranchNode, n: Tree, right: bool)
    requires
        n.valid(),
        n is Branch,
        branch.image() == n.node_value(),
    ensures
        branch.spec_child_path(ChildKind::of_bit(right)) == n.side(right).node_key(),
        branch.spec_child_hash(ChildKind::of_bit(right)) == n.side(right).node_hash(),
        n.side(right).valid(),
        n.side(right).end() > n.end(),
{
    n.lemma_image();
}

/// Parts that are subtrees, with one more part that is one more subtree,
/// are those subtrees.
pub proof fn lemma_stands_push(
    items: Seq<(ProofPath, crate::hash::Hash)>,
    f: Seq<Tree>,
    part: (ProofPath, crate::hash::Hash),
    s: Tree,
)
    requires
        stands_for(items, f),
        part.0.wf(),
        part.0.spec_start() == 0,
        part.0.raw() == s.node_key(),
        part.1@ == s.node_hash(),
    ensures
        stands_for(items.push(part), f.push(s)),
{
}

/// Parts to the left and, from right to left, parts to the right that are
/// subtrees are, put together from left to right, those subtrees.
pub proof fn lemma_stands_combine(
    left: Seq<(ProofPath, crate::hash::Hash)>,
    gl: Seq<Tree>,
    right: Seq<(ProofPath, crate::hash::Hash)>,
    gr: Seq<Tree>,
)
    requires
        stands_for(left, gl),
        stands_for(right, gr),
    ensures
        stands_for(left + right.reverse(), gl + gr.reverse()),
{
}

/// The keys `ks`, each once, where it first stands among them.
pub open spec fn first_of_each(ks: Seq<Seq<u8>>) -> Seq<Seq<u8>>
    decreases ks.len(),
{
    if ks.len() == 0 {
        Seq::empty()
    } else {
        let d = first_of_each(ks.drop_last());
        if d.contains(ks.last()) {
            d
        } else {
            d.push(ks.last())
        }
    }
}

/// Among the keys taken once no key stands twice; each of the keys is
/// among them, and each of them is one of the keys.
pub proof fn lemma_first_of_each(ks: Seq<Seq<u8>>)
    ensures
        forall|i: int, j: int|
            0 <= i < j < first_of_each(ks).len() ==> first_of_each(ks)[i] != first_of_each(ks)[j],
        forall|i: int| 0 <= i < ks.len() ==> first_of_each(ks).contains(#[trigger] ks[i]),
        forall|i: int|
            0 <= i < first_of_each(ks).len() ==> ks.contains(#[trigger] first_of_each(ks)[i]),
    decreases ks.len(),
{
    if ks.len() > 0 {
        let rest = ks.drop_last();
        let d = first_of_each(rest);
        let r = first_of_each(ks);
        lemma_first_of_each(rest);
        assert forall|i: int| 0 <= i < ks.len() implies r.contains(#[trigger] ks[i]) by {
            if i < rest.len() {
                assert(rest[i] == ks[i]);
                let j = choose|j: int| 0 <= j < d.len() && d[j] == rest[i];
                assert(r[j] == ks[i]);
            } else if d.contains(ks.last()) {
            } else {
                assert(r[d.len() as int] == ks[i]);
            }
        }
        assert forall|i: int| 0 <= i < r.len() implies ks.contains(#[trigger] r[i]) by {
            if i < d.len() {
                assert(r[i] == d[i]);
                let j = choose|j: int| 0 <= j < rest.len() && rest[j] == d[i];
                assert(ks[j] == r[i]);
            } else {
                assert(ks[ks.len() - 1] == r[i]);
            }
        }
        assert forall|i: int, j: int| 0 <= i < j < r.len() implies r[i] != r[j] by {
            if j < d.len() {
                assert(r[i] == d[i] && r[j] == d[j]);
            } else {
                assert(r[i] == d[i]);
                assert(d.contains(d[i]));
            }
        }
    }
}

/// Whether one of `paths` has the bytes of `p`.
pub open spec fn holds_key(paths: Seq<ProofPath>, p: ProofPath) -> bool {
    exists|j: int| 0 <= j < paths.len() && (#[trigger] paths[j]).raw() == p.raw()
}

/// Returns `true` if one of `paths` has the bytes of `p`.
pub fn has_key(paths: &Vec<ProofPath>, p: &ProofPath) -> (r: bool)
    ensures
        r == holds_key(paths@, *p),
{
    let n: usize = paths.len();
    let mut i: usize = 0;
    while i < n
        invariant
            i <= n,
            n == paths@.len(),
            forall|j: int| 0 <= j < i ==> (#[trigger] paths@[j]).raw() != p.raw(),
        decreases n - i,
    {
        if crate::lex::bytes_eq(paths[i].as_bytes(), p.as_bytes()) {
            return true;
        }
        i += 1;
    }
    false
}

/// Whether `paths` are the leaf paths of `keys`, one for one.
pub open spec fn searched(paths: Seq<ProofPath>, keys: Seq<Seq<u8>>) -> bool {
    &&& paths.len() == keys.len()
    &&& forall|i: int|
        0 <= i < paths.len() ==> (#[trigger] paths[i]).wf() && paths[i].spec_start() == 0
            && paths[i].is_leaf_spec() && paths[i].key() == keys[i]
}

/// Returns `true` if one of `paths` begins with the path `child`.
pub fn enters_any(paths: &Vec<ProofPath>, child: &ProofPath) -> (r: bool)
    requires
        child.spec_start() == 0,
        forall|i: int| 0 <= i < paths@.len() ==> (#[trigger] paths@[i]).spec_start() == 0,
    ensures
        r == exists|i: int|
            0 <= i < paths@.len() && child.spec_common_prefix(&#[trigger] paths@[i])
                == child.spec_len(),
{
    let n: usize = paths.len();
    let mut i: usize = 0;
    while i < n
        invariant
            i <= n,
            n == paths@.len(),
            forall|j: int|
                0 <= j < i ==> child.spec_common_prefix(&#[trigger] paths@[j]) != child.spec_len(),
        decreases n - i,
    {
        if child.common_prefix(&paths[i]) == child.len() {
            return true;
        }
        i += 1;
    }
    false
}

/// A leaf path begins with the path of a valid subtree if and only if the
/// walk for its key comes into the subtree.
pub proof fn lemma_enters_any(paths: Seq<ProofPath>, keys: Seq<Seq<u8>>, child: ProofPath, c: Tree)
    requires
        searched(paths, keys),
        child.wf(),
        child.spec_start() == 0,
        c.valid(),
        child.raw() == c.node_key(),
    ensures
        any_enters(keys, c) == exists|i: int|
            0 <= i < paths.len() && child.spec_common_prefix(&#[trigger] paths[i])
                == child.spec_len(),
        forall|i: int| 0 <= i < keys.len() ==> (#[trigger] keys[i]).len() == 32,
{
    assert forall|i: int| 0 <= i < paths.len() implies (enters(keys[i], c)
        <==> child.spec_common_prefix(&#[trigger] paths[i]) == child.spec_len()) && keys[i].len()
        == 32 by {
        crate::proof_map_index::lemma_leaf_path(paths[i]);
        lemma_walk(child, paths[i], c, child.spec_common_prefix(&paths[i]) as int);
    }
    if any_enters(keys, c) {
        let i = choose|i: int| 0 <= i < keys.len() && enters(#[trigger] keys[i], c);
        assert(child.spec_common_prefix(&paths[i]) == child.spec_len());
    }
    if exists|i: int|
        0 <= i < paths.len() && child.spec_common_prefix(&#[trigger] paths[i]) == child.spec_len() {
        let i = choose|i: int|
            0 <= i < paths.len() && child.spec_common_prefix(&#[trigger] paths[i])
                == child.spec_len();
        assert(enters(keys[i], c));
    }
}

impl<C: ChangeSet, K: ProofMapKey, V: StorageValue> ProofMapIndex<C, K, V> {
    /// Whether every value stored can be read and hashed. A map that holds
    /// nothing has it so, and `put`, `remove` and `clear` keep it so.
    pub open spec fn all_readable(&self) -> bool {
        forall|k: Seq<u8>| #[trigger] self.readable(k)
    }

    /// Whether the value stored for `key`, if there is one, can be read
    /// and hashed.
    pub open spec fn readable(&self, key: Seq<u8>) -> bool {
        self.entry(key) matches Some(v) ==> V::is_encoding(v) && hashable(v.len())
    }

    /// Returns the proof that `key` is in the map with its value, or that
    /// it is not in the map: the walk for the key in the tree, with the
    /// subtrees beside it as the parts.
    ///
    /// The proof for a key in a map that holds a tree shows the key in
    /// that tree, cut by the walk; in a map that holds nothing it shows
    /// nothing.
    #[verifier::rlimit(60)]
    pub fn get_proof(&self, key: K) -> (r: MapProof<K, V>)
        ensures
            r.spec_entries().len() == 1,
            r.spec_entries()[0].0 == key.spec_bytes(),
            r.spec_entries()[0].1 is Some ==> r.spec_entries()[0].1 == self.entry(key.spec_bytes()),
            self.valid() ==> r.spec_entries()[0].1 == self.entry(key.spec_bytes()),
            self.is_blank() ==> r.shows_nothing(),
            forall|t: Tree| #[trigger]
                self.holds(t) && self.readable(key.spec_bytes()) ==> r.walks(t) && r.shows(
                    t.cut(key.spec_bytes()),
                    t,
                ),
    {
        let ghost k = key.spec_bytes();
        let ghost store = self.view().contents();
        let ghost good = exists|t: Tree| self.holds(t);
        let ghost t = self.tree();
        proof {
            key.lemma_key_size();
            if good {
                lemma_holds_root(store, t, Self::hash_of());
                lemma_holds_keys(store, t, Self::hash_of());
                t.lemma_cut(k);
                lemma_walk_begins(t, k);
            }
            if self.is_blank() {
                assert(!store.contains_key(value_key(k)));
                assert forall|e: (Seq<u8>, Seq<u8>)| !is_first(store, e) by {}
            }
        }
        let searched = ProofPath::new(&key);
        let mut left: Vec<(ProofPath, crate::hash::Hash)> = Vec::new();
        let mut right: Vec<(ProofPath, crate::hash::Hash)> = Vec::new();
        let mut found: bool = false;
        let ghost mut gl: Seq<Tree> = Seq::empty();
        let ghost mut gr: Seq<Tree> = Seq::empty();
        match self.get_root_node() {
            Some((root_path, Node::Branch(root_branch))) => {
                let mut branch = root_branch;
                let mut node_len: u16 = root_path.len();
                let mut going: bool = true;
                let ghost mut n: Tree = t;
                proof {
                    if good {
                        lemma_path_of_node(root_path, t);
                    }
                }
                while going
                    invariant
                        searched.wf(),
                        searched.spec_start() == 0,
                        searched.is_leaf_spec(),
                        searched.key() == k,
                        k == key.spec_bytes(),
                        k.len() == 32,
                        store == self.view().contents(),
                        going ==> node_len < 256 && !found,
                        found ==> self.entry(key.spec_bytes()) is Some,
                        good ==> self.holds(t) && stands_for(left@, gl) && stands_for(right@, gr),
                        good && going ==> n.valid() && n is Branch && node_len == n.end()
                            && branch.image() == n.node_value() && walk_at(t, n, k, gl, gr)
                            && forall|x: Seq<u8>| #[trigger]
                            n.nodes().contains_key(x) ==> store.contains_key(x) && store[x]
                                == n.nodes()[x],
                        good && !going ==> walk_ends(t, k, gl, gr, found),
                    decreases 256 - node_len, going as int,
                {
                    let next_bit = searched.bit(node_len);
                    let child = branch.child_path(next_bit);
                    let other = next_bit.not();
                    let sibling = (branch.child_path(other), branch.child_hash(other));
                    let ghost bit = key_bit(k, node_len as int);
                    let ghost c = n.side(bit);
                    let ghost o = n.side(!bit);
                    proof {
                        if good {
                            lemma_holds_keys(store, t, Self::hash_of());
                            t.lemma_cut(k);
                            lemma_children(branch, n, bit);
                            lemma_children(branch, n, !bit);
                            n.lemma_branch_nodes();
                            c.lemma_nodes();
                            lemma_walk_step(t, n, k, gl, gr);
                            lemma_path_of_node(child, c);
                            lemma_walk(child, searched, c, child.spec_common_prefix(&searched) as int);
                        }
                    }
                    let ghost left_before = left@;
                    let ghost right_before = right@;
                    match other {
                        ChildKind::Left => {
                            left.push(sibling);
                        },
                        ChildKind::Right => {
                            right.push(sibling);
                        },
                    }
                    let ghost gl1 = if bit {
                        gl.push(o)
                    } else {
                        gl
                    };
                    let ghost gr1 = if bit {
                        gr
                    } else {
                        gr.push(o)
                    };
                    proof {
                        if good {
                            if bit {
                                lemma_stands_push(left_before, gl, sibling, o);
                            } else {
                                lemma_stands_push(right_before, gr, sibling, o);
                            }
                        }
                    }
                    let child_len = child.len();
                    let matched = child.common_prefix(&searched);
                    let mut descend: Option<BranchNode> = None;
                    let mut at_leaf: bool = false;
                    if matched == child_len && child_len > node_len && kind_is_known(&child) {
                        if child.is_leaf() {
                            proof {
                                if good {
                                    lemma_diverge(c.first_key(), k, 0, 256);
                                    lemma_key_ext(c.first_key(), k);
                                    assert(t.found(k));
                                }
                            }
                            at_leaf = self.contains(&key);
                        } else {
                            proof {
                                if good {
                                    c.lemma_image();
                                    assert(store.contains_key(c.node_key()));
                                    assert(self.view().read(c.node_key()) == Some(c.node_value()));
                                }
                            }
                            match self.get_node(&child) {
                                Some(Node::Branch(b)) => {
                                    descend = Some(b);
                                },
                                _ => {},
                            }
                        }
                    }
                    if at_leaf {
                        found = true;
                        going = false;
                        proof {
                            gl = gl1;
                            gr = gr1;
                        }
                    } else {
                        match descend {
                            Some(b) => {
                                branch = b;
                                node_len = child_len;
                                proof {
                                    gl = gl1;
                                    gr = gr1;
                                    n = c;
                                }
                            },
                            None => {
                                // The key is in neither child: both go into
                                // the proof.
                                let hidden = (child, branch.child_hash(next_bit));
                                let ghost left_mid = left@;
                                let ghost right_mid = right@;
                                match next_bit {
                                    ChildKind::Left => {
                                        left.push(hidden);
                                    },
                                    ChildKind::Right => {
                                        right.push(hidden);
                                    },
                                }
                                proof {
                                    if good {
                                        if bit {
                                            lemma_stands_push(right_mid, gr1, hidden, c);
                                        } else {
                                            lemma_stands_push(left_mid, gl1, hidden, c);
                                        }
                                    }
                                    gl = gl.push(*n->left);
                                    gr = gr.push(*n->right);
                                }
                                going = false;
                            },
                        }
                    }
                }
            },
            Some((root_path, Node::Leaf(root_hash))) => {
                proof {
                    if good {
                        lemma_path_of_node(root_path, t);
                        lemma_walk(
                            root_path,
                            searched,
                            t,
                            root_path.spec_common_prefix(&searched) as int,
                        );
                        lemma_diverge(t.first_key(), k, 0, 256);
                        if diverge(t.first_key(), k, 0, 256) == 256 {
                            lemma_key_ext(t.first_key(), k);
                        }
                    }
                }
                if root_path.common_prefix(&searched) == 256 && self.contains(&key) {
                    found = true;
                } else {
                    left.push((root_path, root_hash));
                    proof {
                        if good {
                            lemma_stands_push(Seq::empty(), Seq::empty(), (root_path, root_hash), t);
                            gl = gl.push(t);
                            assert(gl =~= seq![t]);
                        }
                    }
                }
                proof {
                    if good {
                        assert(gr.reverse() =~= Seq::<Tree>::empty());
                    }
                }
            },
            None => {},
        }
        let proof = combine(left, right);
        let value: Option<Vec<u8>> = if found {
            let path = to_value_path(&key);
            self.base.get_bytes(path.as_slice())
        } else {
            None
        };
        let r = MapProof::from_parts(key, value, proof);
        proof {
            assert(store.contains_key(value_key(k)) == (self.entry(k) is Some));
            assert(found ==> self.entry(k) is Some);
            if good {
                lemma_holds_keys(store, t, Self::hash_of());
                t.lemma_cut(k);
                assert(t.found(k) == t.entries().contains_key(k));
                assert(t.entries().contains_key(k) == store.contains_key(value_key(k)));
                lemma_stands_combine(left@, gl, right@, gr);
                assert(walk_ends(t, k, gl, gr, found));
                if self.readable(k) {
                    assert(r.walks(t));
                    r.lemma_walk_shows(t);
                }
                assert forall|t1: Tree| #[trigger] self.holds(t1) implies t1 == t by {
                    lemma_one_tree(store, t1, store, t, Self::hash_of());
                }
            }
        }
        r
    }

    /// Whether the view holds every node of the valid subtree `c`.
    pub open spec fn sees(&self, c: Tree) -> bool {
        &&& c.valid()
        &&& forall|x: Seq<u8>| #[trigger]
            c.nodes().contains_key(x) ==> self.view().read(x) == Some(c.nodes()[x])
    }

    /// Adds to `parts` what the child of a branch with the path `child`
    /// and the hash `child_hash` gives to a proof for the keys of `paths`.
    /// A leaf is added unless it is the leaf of one of the keys. A branch
    /// through which the walk for no key goes is added as it is; else what
    /// its two children give is added, the left one first. `node_len` is
    /// where the path of the parent ends.
    fn spread_child(
        &self,
        child: ProofPath,
        child_hash: crate::hash::Hash,
        node_len: u16,
        paths: &Vec<ProofPath>,
        parts: &mut Vec<(ProofPath, crate::hash::Hash)>,
        Ghost(c): Ghost<Tree>,
        Ghost(keys): Ghost<Seq<Seq<u8>>>,
        Ghost(acc): Ghost<Seq<Tree>>,
    )
        requires
            child.wf(),
            child.spec_start() == 0,
            node_len <= 256,
            searched(paths@, keys),
        ensures
            self.sees(c) && child.raw() == c.node_key() && child_hash@ == c.node_hash() && c.end()
                > node_len && stands_for(old(parts)@, acc) ==> stands_for(
                final(parts)@,
                acc + spread_parts(c, keys),
            ),
        decreases 256 - node_len,
    {
        let ghost good = self.sees(c) && child.raw() == c.node_key() && child_hash@
            == c.node_hash() && c.end() > node_len && stands_for(old(parts)@, acc);
        let ghost before = parts@;
        proof {
            if good {
                lemma_path_of_node(child, c);
                lemma_enters_any(paths@, keys, child, c);
                assert(acc + Seq::<Tree>::empty() =~= acc);
                assert(acc + seq![c] =~= acc.push(c));
                lemma_stands_push(before, acc, (child, child_hash), c);
            }
        }
        let entered = enters_any(paths, &child);
        let child_len = child.len();
        if child.is_leaf() {
            if !entered {
                parts.push((child, child_hash));
            }
            return ;
        }
        if entered && child_len > node_len {
            proof {
                if good {
                    c.lemma_nodes();
                    c.lemma_image();
                    assert(self.view().read(c.node_key()) == Some(c.node_value()));
                }
            }
            match self.get_node(&child) {
                Some(Node::Branch(b)) => {
                    proof {
                        if good {
                            lemma_children(b, c, false);
                            lemma_children(b, c, true);
                            c.lemma_branch_nodes();
                            assert(self.sees(*c->left));
                            assert(self.sees(*c->right));
                            assert((acc + spread_parts(*c->left, keys)) + spread_parts(
                                *c->right,
                                keys,
                            ) =~= acc + spread_parts(c, keys));
                        }
                    }
                    self.spread_child(
                        b.child_path(ChildKind::Left),
                        b.child_hash(ChildKind::Left),
                        child_len,
                        paths,
                        parts,
                        Ghost(*c->left),
                        Ghost(keys),
                        Ghost(acc),
                    );
                    self.spread_child(
                        b.child_path(ChildKind::Right),
                        b.child_hash(ChildKind::Right),
                        child_len,
                        paths,
                        parts,
                        Ghost(*c->right),
                        Ghost(keys),
                        Ghost(acc + spread_parts(*c->left, keys)),
                    );
                    return ;
                },
                _ => {},
            }
        }
        parts.push((child, child_hash));
    }

    /// Returns the parts of the proof for the keys of `paths`: the
    /// subtrees beside the walks for the keys, from left to right.
    fn spread_root(&self, paths: &Vec<ProofPath>, Ghost(keys): Ghost<Seq<Seq<u8>>>) -> (r: Vec<
        (ProofPath, crate::hash::Hash),
    >)
        requires
            searched(paths@, keys),
        ensures
            self.is_blank() ==> r@.len() == 0,
            forall|t: Tree| #[trigger] self.holds(t) ==> stands_for(r@, cut_parts(t, keys)),
    {
        let ghost store = self.view().contents();
        let ghost good = exists|t: Tree| self.holds(t);
        let ghost t = self.tree();
        proof {
            if good {
                lemma_holds_root(store, t, Self::hash_of());
                assert(self.sees(t)) by {
                    assert forall|x: Seq<u8>| #[trigger] t.nodes().contains_key(x) implies self.view().read(
                        x,
                    ) == Some(t.nodes()[x]) by {
                        assert(store.contains_key(x));
                    }
                }
                assert forall|t1: Tree| #[trigger] self.holds(t1) implies t1 == t by {
                    lemma_one_tree(store, t1, store, t, Self::hash_of());
                }
            }
            if self.is_blank() {
                assert forall|e: (Seq<u8>, Seq<u8>)| !is_first(store, e) by {}
            }
        }
        let mut parts: Vec<(ProofPath, crate::hash::Hash)> = Vec::new();
        match self.get_root_node() {
            Some((root_path, Node::Branch(branch))) => {
                let node_len = root_path.len();
                proof {
                    if good {
                        lemma_path_of_node(root_path, t);
                        lemma_children(branch, t, false);
                        lemma_children(branch, t, true);
                        t.lemma_branch_nodes();
                        assert(self.sees(*t->left));
                        assert(self.sees(*t->right));
                        assert(Seq::<Tree>::empty() + spread_parts(*t->left, keys) =~= spread_parts(
                            *t->left,
                            keys,
                        ));
                    }
                }
                self.spread_child(
                    branch.child_path(ChildKind::Left),
                    branch.child_hash(ChildKind::Left),
                    node_len,
                    paths,
                    &mut parts,
                    Ghost(*t->left),
                    Ghost(keys),
                    Ghost(Seq::empty()),
                );
                self.spread_child(
                    branch.child_path(ChildKind::Right),
                    branch.child_hash(ChildKind::Right),
                    node_len,
                    paths,
                    &mut parts,
                    Ghost(*t->right),
                    Ghost(keys),
                    Ghost(spread_parts(*t->left, keys)),
                );
            },
            Some((root_path, Node::Leaf(root_hash))) => {
                proof {
                    if good {
                        lemma_path_of_node(root_path, t);
                        lemma_enters_any(paths@, keys, root_path, t);
                        lemma_stands_push(Seq::empty(), Seq::empty(), (root_path, root_hash), t);
                        assert(Seq::<Tree>::empty().push(t) =~= seq![t]);
                    }
                }
                if !enters_any(paths, &root_path) {
                    parts.push((root_path, root_hash));
                }
            },
            None => {},
        }
        parts
    }

    /// The encodings of `keys`, one for one.
    pub open spec fn encodings(keys: Seq<K>) -> Seq<Seq<u8>> {
        Seq::new(keys.len(), |i: int| keys[i].spec_bytes())
    }

    /// Returns the proof for each of `keys` that it is in the map with its
    /// value, or that it is not in the map, all in one: the keys with
    /// their values as they are stored, each key once, where it first
    /// stands among `keys`; and the subtrees beside the walks for the keys,
    /// from left to right.
    ///
    /// In a map that holds a tree the proof shows the keys in that tree,
    /// cut by the walks; in a map that holds nothing it shows nothing.
    pub fn get_multiproof(&self, keys: Vec<K>) -> (r: MapProof<K, V>)
        ensures
            key_seq(r.spec_entries()) == first_of_each(Self::encodings(keys@)),
            forall|i: int|
                0 <= i < r.spec_entries().len() ==> (#[trigger] r.spec_entries()[i]).1
                    == self.entry(r.spec_entries()[i].0),
            forall|j: int|
                0 <= j < keys@.len() ==> key_seq(r.spec_entries()).contains(
                    #[trigger] keys@[j].spec_bytes(),
                ),
            forall|i: int, j: int|
                0 <= i < j < r.spec_entries().len() ==> (#[trigger] r.spec_entries()[i]).0 != (
                #[trigger] r.spec_entries()[j]).0,
            self.is_blank() ==> r.shows_nothing(),
            forall|t: Tree| #[trigger]
                self.holds(t) && (forall|i: int|
                    0 <= i < keys@.len() ==> self.readable(#[trigger] keys@[i].spec_bytes()))
                    ==> r.shows(cut_all(t, key_seq(r.spec_entries())), t),
    {
        let ghost wanted = keys@;
        let ghost ks = Self::encodings(wanted);
        let n: usize = keys.len();
        // The paths of the keys, each once, and for each key whether it is
        // the first of its kind.
        let mut paths: Vec<ProofPath> = Vec::new();
        let mut fresh: Vec<bool> = Vec::new();
        let mut i: usize = 0;
        while i < n
            invariant
                i <= n,
                n == keys@.len(),
                keys@ == wanted,
                ks == Self::encodings(wanted),
                fresh@.len() == i,
                searched(paths@, first_of_each(ks.subrange(0, i as int))),
                forall|j: int|
                    0 <= j < i ==> #[trigger] fresh@[j] == !first_of_each(
                        ks.subrange(0, j),
                    ).contains(ks[j]),
            decreases n - i,
        {
            let path = ProofPath::new(&keys[i]);
            let ghost before = first_of_each(ks.subrange(0, i as int));
            proof {
                wanted[i as int].lemma_key_size();
                assert(ks.subrange(0, i + 1).drop_last() =~= ks.subrange(0, i as int));
                assert(ks.subrange(0, i + 1).last() == ks[i as int]);
                assert(path.key() == ks[i as int]);
                if holds_key(paths@, path) {
                    let j = choose|j: int|
                        0 <= j < paths@.len() && (#[trigger] paths@[j]).raw() == path.raw();
                    assert(before[j] == ks[i as int]);
                }
                if before.contains(ks[i as int]) {
                    let j = choose|j: int| 0 <= j < before.len() && before[j] == ks[i as int];
                    lemma_leaf_path(paths@[j]);
                    lemma_leaf_path(path);
                    assert(paths@[j].raw() =~= path.raw());
                }
            }
            if has_key(&paths, &path) {
                fresh.push(false);
            } else {
                paths.push(path);
                fresh.push(true);
            }
            i += 1;
        }
        assert(ks.subrange(0, n as int) =~= ks);
        let parts = self.spread_root(&paths, Ghost(first_of_each(ks)));
        let mut all = MapProof::<K, V>::new();
        let mut keys = keys;
        let mut t: usize = 0;
        while t < n
            invariant
                t <= n,
                n == wanted.len(),
                ks == Self::encodings(wanted),
                fresh@.len() == n,
                keys@ == wanted.skip(t as int),
                forall|j: int|
                    0 <= j < n ==> #[trigger] fresh@[j] == !first_of_each(
                        ks.subrange(0, j),
                    ).contains(ks[j]),
                key_seq(all.spec_entries()) == first_of_each(ks.subrange(0, t as int)),
                all.spec_proof().len() == 0,
                forall|i: int|
                    0 <= i < all.spec_entries().len() ==> (#[trigger] all.spec_entries()[i]).1
                        == self.entry(all.spec_entries()[i].0),
            decreases n - t,
        {
            let k = keys.remove(0);
            proof {
                assert(k == wanted[t as int]);
                assert(keys@ =~= wanted.skip(t + 1));
                assert(ks.subrange(0, t + 1).drop_last() =~= ks.subrange(0, t as int));
                assert(ks.subrange(0, t + 1).last() == ks[t as int]);
            }
            if fresh[t] {
                let ghost before = all.spec_entries();
                let path = to_value_path(&k);
                let value = self.base.get_bytes(path.as_slice());
                let single = MapProof::from_parts(k, value, Vec::new());
                all.merge(single);
                proof {
                    let e = all.spec_entries();
                    assert forall|i: int| 0 <= i < e.len() implies (#[trigger] e[i]).1
                        == self.entry(e[i].0) by {
                        if i < before.len() {
                            assert(e[i] == before[i]);
                        }
                    }
                    assert(key_seq(e) =~= key_seq(before).push(ks[t as int]));
                }
            }
            t += 1;
        }
        all.add_parts(parts);
        proof {
            let e = all.spec_entries();
            assert(all.spec_proof() =~= parts@);
            assert(ks.subrange(0, n as int) =~= ks);
            lemma_first_of_each(ks);
            assert forall|j: int| 0 <= j < wanted.len() implies key_seq(e).contains(
                #[trigger] wanted[j].spec_bytes(),
            ) by {
                assert(ks[j] == wanted[j].spec_bytes());
            }
            assert forall|i: int, j: int| 0 <= i < j < e.len() implies (#[trigger] e[i]).0 != (
            #[trigger] e[j]).0 by {
                assert(key_seq(e)[i] == e[i].0);
                assert(key_seq(e)[j] == e[j].0);
            }
            if self.is_blank() {
                assert forall|i: int| 0 <= i < e.len() implies (#[trigger] e[i]).1 is None by {
                    assert(!self.view().contents().contains_key(value_key(e[i].0)));
                }
            }
            assert forall|t: Tree| #[trigger]
                self.holds(t) && (forall|i: int|
                    0 <= i < wanted.len() ==> self.readable(
                        #[trigger] wanted[i].spec_bytes(),
                    )) implies all.shows(cut_all(t, key_seq(e)), t) by {
                assert forall|i: int| 0 <= i < e.len() implies (#[trigger] e[i]).0.len() == 32
                    && e[i].1 == self.entry(e[i].0) && self.readable(e[i].0) by {
                    assert(key_seq(e)[i] == e[i].0);
                    assert(ks.contains(key_seq(e)[i]));
                    let j = choose|j: int| 0 <= j < ks.len() && ks[j] == e[i].0;
                    wanted[j].lemma_key_size();
                    assert(self.readable(wanted[j].spec_bytes()));
                }
                self.lemma_shows_all(all, t);
            }
        }
        all
    }

    /// A proof with the stored values of keys that differ from each
    /// other, and with the subtrees beside the walks for the keys in the
    /// tree that the map holds as its parts, shows the keys in that tree,
    /// cut by the walks.
    pub proof fn lemma_shows_all(&self, p: MapProof<K, V>, t: Tree)
        requires
            self.holds(t),
            stands_for(p.spec_proof(), cut_parts(t, key_seq(p.spec_entries()))),
            forall|i: int|
                0 <= i < p.spec_entries().len() ==> (#[trigger] p.spec_entries()[i]).0.len() == 32
                    && p.spec_entries()[i].1 == self.entry(p.spec_entries()[i].0) && self.readable(
                    p.spec_entries()[i].0,
                ),
            forall|i: int, j: int|
                0 <= i < j < p.spec_entries().len() ==> (#[trigger] p.spec_entries()[i]).0 != (
                #[trigger] p.spec_entries()[j]).0,
        ensures
            p.shows(cut_all(t, key_seq(p.spec_entries())), t),
    {
        let e = p.spec_entries();
        let ks = key_seq(e);
        let found = found_keys(e, 0);
        let store = self.view().contents();
        let f = cut_all(t, ks);
        lemma_holds_keys(store, t, Self::hash_of());
        assert forall|k: Seq<u8>| #[trigger] t.entries().contains_key(k) implies (found.contains(k)
            <==> ks.contains(k)) by {
            assert(store.contains_key(value_key(k)));
            if ks.contains(k) {
                let i = choose|i: int| 0 <= i < ks.len() && ks[i] == k;
                assert(e[i].0 == k && e[i].1 is Some);
            }
            if found.contains(k) {
                let i = choose|i: int| 0 <= i < e.len() && (#[trigger] e[i]).0 == k && e[i].1 is Some;
                assert(ks[i] == k);
            }
        }
        assert forall|i: int| 0 <= i < ks.len() implies (#[trigger] ks[i]).len() == 32 by {
            assert(e[i].0.len() == 32);
        }
        lemma_cut_all(t, ks, found);
        assert forall|i: int| 0 <= i < e.len() implies match (#[trigger] e[i]).1 {
            Some(v) => V::is_encoding(v) && hashable(v.len()) && exists|p: int|
                0 <= p < f.len() && #[trigger] f[p] == (Tree::Leaf {
                    key: e[i].0,
                    hash: V::spec_hash(v),
                }),
            None => forall|p: int|
                0 <= p < f.len() ==> diverge((#[trigger] f[p]).first_key(), e[i].0, 0, f[p].end())
                    < f[p].end(),
        } by {
            let k = e[i].0;
            assert(ks[i] == k);
            assert(store.contains_key(value_key(k)) == (self.entry(k) is Some));
            assert(t.entries().contains_key(k) == store.contains_key(value_key(k)));
            match e[i].1 {
                Some(v) => {
                    assert(t.entries().contains_key(ks[i]));
                    assert(t.entries()[k] == V::spec_hash(v));
                },
                None => {
                    assert(!t.entries().contains_key(ks[i]));
                    assert forall|p: int| 0 <= p < f.len() implies diverge(
                        (#[trigger] f[p]).first_key(),
                        e[i].0,
                        0,
                        f[p].end(),
                    ) < f[p].end() by {
                        assert(diverge(f[p].first_key(), ks[i], 0, f[p].end()) < f[p].end());
                    }
                },
            }
        }
    }
}

} // verus!
