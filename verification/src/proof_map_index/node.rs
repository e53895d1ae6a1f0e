//! Nodes of the Merkle Patricia tree.
//!
//! A branch is a record of 132 bytes: the hashes of its left and right
//! child, then the paths of the left and right child as they are stored.

use vstd::prelude::*;

use crate::hash::{hash, sha256};
use crate::keys::copy_bytes;
use crate::proof_map_index::key::{ChildKind, ProofPath, LEAF_KEY_PREFIX};

verus! {

/// Size in bytes of a branch as it is stored.
pub const BRANCH_NODE_SIZE: usize = 132;

/// Where the hash of the child on the side `kind` begins in a branch.
pub open spec fn hash_offset(kind: ChildKind) -> int {
    match kind {
        ChildKind::Left => 0,
        ChildKind::Right => 32,
    }
}

/// Where the path of the child on the side `kind` begins in a branch.
pub open spec fn path_offset(kind: ChildKind) -> int {
    match kind {
        ChildKind::Left => 64,
        ChildKind::Right => 98,
    }
}

/// Whether 132 bytes are a branch: a child path that is a leaf has length
/// byte 0.
pub open spec fn is_branch_image(raw: Seq<u8>) -> bool {
    &&& raw.len() == BRANCH_NODE_SIZE
    &&& (raw[64] == LEAF_KEY_PREFIX ==> raw[97] == 0)
    &&& (raw[98] == LEAF_KEY_PREFIX ==> raw[131] == 0)
}

/// The 132 bytes of a branch with the given children.
pub open spec fn branch_image(
    left_hash: Seq<u8>,
    right_hash: Seq<u8>,
    left_path: Seq<u8>,
    right_path: Seq<u8>,
) -> Seq<u8> {
    left_hash + right_hash + left_path + right_path
}

/// What is stored under the path of a node.
#[derive(Debug)]
pub enum Node {
    /// Under a leaf path: the hash of the value.
    Leaf(crate::hash::Hash),
    /// Under a branch path: the branch.
    Branch(BranchNode),
}

/// A branch of the tree: the paths and the hashes of its two children.
#[derive(Clone, Copy, Debug)]
pub struct BranchNode {
    raw: [u8; 132],
}

impl BranchNode {
    /// The 132 bytes of the branch.
    pub closed spec fn image(&self) -> Seq<u8> {
        self.raw@
    }

    /// The hash of the child on the side `kind`.
    pub open spec fn spec_child_hash(&self, kind: ChildKind) -> Seq<u8> {
        self.image().subrange(hash_offset(kind), hash_offset(kind) + 32)
    }

    /// The stored path of the child on the side `kind`.
    pub open spec fn spec_child_path(&self, kind: ChildKind) -> Seq<u8> {
        self.image().subrange(path_offset(kind), path_offset(kind) + 34)
    }

    /// What every branch satisfies.
    pub open spec fn wf(&self) -> bool {
        is_branch_image(self.image())
    }

    #[verifier::type_invariant]
    pub open spec fn inv(self) -> bool {
        self.wf()
    }

    /// Creates a branch of zeros.
    pub fn empty() -> (r: BranchNode)
        ensures
            r.wf(),
            forall|i: int| 0 <= i < 132 ==> r.image()[i] == 0u8,
    {
        let mut raw: [u8; 132] = [0u8; 132];
        let mut i: usize = 0;
        while i < 132
            invariant
                i <= 132,
                forall|j: int| 0 <= j < i ==> raw@[j] == 0u8,
            decreases 132 - i,
        {
            raw[i] = 0;
            i += 1;
        }
        BranchNode { raw }
    }

    /// Returns the hash of the child on the side `kind`.
    pub fn child_hash(&self, kind: ChildKind) -> (r: crate::hash::Hash)
        ensures
            r@ == self.spec_child_hash(kind),
    {
        let from: usize = match kind {
            ChildKind::Right => 32,
            ChildKind::Left => 0,
        };
        let mut out = [0u8; 32];
        let mut i: usize = 0;
        while i < 32
            invariant
                i <= 32,
                from == hash_offset(kind),
                forall|j: int| 0 <= j < i ==> out@[j] == self.raw@[from + j],
            decreases 32 - i,
        {
            out[i] = self.raw[from + i];
            i += 1;
        }
        assert(out@ =~= self.spec_child_hash(kind));
        crate::hash::Hash::new(out)
    }

    /// Returns the path of the child on the side `kind`, as it was stored:
    /// it starts at bit 0.
    pub fn child_path(&self, kind: ChildKind) -> (r: ProofPath)
        ensures
            r.wf(),
            r.raw() == self.spec_child_path(kind),
            r.spec_start() == 0,
    {
        proof {
            use_type_invariant(self);
        }
        let from: usize = match kind {
            ChildKind::Right => 98,
            ChildKind::Left => 64,
        };
        let mut out = [0u8; 34];
        let mut i: usize = 0;
        while i < 34
            invariant
                i <= 34,
                from == path_offset(kind),
                forall|j: int| 0 <= j < i ==> out@[j] == self.raw@[from + j],
            decreases 34 - i,
        {
            out[i] = self.raw[from + i];
            i += 1;
        }
        assert(out@ =~= self.spec_child_path(kind));
        ProofPath::from_raw(out)
    }

    /// Stores `prefix` as the path of the child on the side `kind`.
    pub fn set_child_path(&mut self, kind: ChildKind, prefix: &ProofPath)
        ensures
            final(self).wf(),
            final(self).spec_child_path(kind) == prefix.spec_serialize(),
            final(self).spec_child_path(kind.spec_not()) == old(self).spec_child_path(
                kind.spec_not(),
            ),
            final(self).spec_child_hash(ChildKind::Left) == old(self).spec_child_hash(
                ChildKind::Left,
            ),
            final(self).spec_child_hash(ChildKind::Right) == old(self).spec_child_hash(
                ChildKind::Right,
            ),
    {
        proof {
            use_type_invariant(&*self);
            use_type_invariant(prefix);
        }
        let from: usize = match kind {
            ChildKind::Right => 98,
            ChildKind::Left => 64,
        };
        let mut written = [0u8; 34];
        prefix.write(&mut written);
        let mut raw: [u8; 132] = self.raw;
        let mut i: usize = 0;
        while i < 34
            invariant
                i <= 34,
                from == path_offset(kind),
                forall|j: int| 0 <= j < i ==> raw@[from + j] == written@[j],
                forall|j: int| 0 <= j < 132 && !(from <= j < from + i) ==> raw@[j] == self.raw@[j],
            decreases 34 - i,
        {
            raw[from + i] = written[i];
            i += 1;
        }
        proof {
            let r = raw@;
            assert(r.subrange(path_offset(kind), path_offset(kind) + 34) =~= written@);
            assert(r.subrange(
                path_offset(kind.spec_not()),
                path_offset(kind.spec_not()) + 34,
            ) =~= old(self).spec_child_path(kind.spec_not()));
            assert(r.subrange(0, 32) =~= old(self).spec_child_hash(ChildKind::Left));
            assert(r.subrange(32, 64) =~= old(self).spec_child_hash(ChildKind::Right));
            assert(written@[0] == prefix.raw()[0]);
            assert(written@[33] == prefix.raw()[33]);
        }
        self.raw = raw;
    }

    /// Stores `hash` as the hash of the child on the side `kind`.
    pub fn set_child_hash(&mut self, kind: ChildKind, hash: &crate::hash::Hash)
        ensures
            final(self).wf(),
            final(self).spec_child_hash(kind) == hash@,
            final(self).spec_child_hash(kind.spec_not()) == old(self).spec_child_hash(
                kind.spec_not(),
            ),
            final(self).spec_child_path(ChildKind::Left) == old(self).spec_child_path(
                ChildKind::Left,
            ),
            final(self).spec_child_path(ChildKind::Right) == old(self).spec_child_path(
                ChildKind::Right,
            ),
    {
        proof {
            use_type_invariant(&*self);
            hash.lemma_view();
        }
        let from: usize = match kind {
            ChildKind::Right => 32,
            ChildKind::Left => 0,
        };
        let bytes = hash.as_bytes();
        let mut raw: [u8; 132] = self.raw;
        let mut i: usize = 0;
        while i < 32
            invariant
                i <= 32,
                from == hash_offset(kind),
                bytes@ == hash@,
                bytes@.len() == 32,
                forall|j: int| 0 <= j < i ==> raw@[from + j] == bytes@[j],
                forall|j: int| 0 <= j < 132 && !(from <= j < from + i) ==> raw@[j] == self.raw@[j],
            decreases 32 - i,
        {
            raw[from + i] = bytes[i];
            i += 1;
        }
        proof {
            let r = raw@;
            assert(r.subrange(hash_offset(kind), hash_offset(kind) + 32) =~= hash@);
            assert(r.subrange(
                hash_offset(kind.spec_not()),
                hash_offset(kind.spec_not()) + 32,
            ) =~= old(self).spec_child_hash(kind.spec_not()));
            assert(r.subrange(64, 98) =~= old(self).spec_child_path(ChildKind::Left));
            assert(r.subrange(98, 132) =~= old(self).spec_child_path(ChildKind::Right));
        }
        self.raw = raw;
    }

    /// Stores both the path and the hash of the child on the side `kind`.
    pub fn set_child(&mut self, kind: ChildKind, prefix: &ProofPath, hash: &crate::hash::Hash)
        ensures
            final(self).wf(),
            final(self).spec_child_path(kind) == prefix.spec_serialize(),
            final(self).spec_child_hash(kind) == hash@,
            final(self).spec_child_path(kind.spec_not()) == old(self).spec_child_path(
                kind.spec_not(),
            ),
            final(self).spec_child_hash(kind.spec_not()) == old(self).spec_child_hash(
                kind.spec_not(),
            ),
    {
        self.set_child_path(kind, prefix);
        self.set_child_hash(kind, hash);
    }

    /// Returns the hash of the branch: the hash of its 132 bytes.
    pub fn hash(&self) -> (h: crate::hash::Hash)
        ensures
            h@ == sha256(self.image()),
            h@ == crate::hash::digest(self.image()),
    {
        hash(self.raw.as_slice())
    }

    /// Returns the 132 bytes of the branch.
    pub fn to_bytes(&self) -> (r: Vec<u8>)
        ensures
            r@ == self.image(),
    {
        vstd::slice::slice_to_vec(self.raw.as_slice())
    }

    /// Reads a branch from its bytes; `None` unless they are a branch.
    pub fn from_bytes(value: &[u8]) -> (r: Option<BranchNode>)
        ensures
            r is Some <==> is_branch_image(value@),
            r matches Some(b) ==> b.image() == value@ && b.wf(),
    {
        if value.len() != BRANCH_NODE_SIZE {
            return None;
        }
        if value[64] == LEAF_KEY_PREFIX && value[97] != 0 {
            return None;
        }
        if value[98] == LEAF_KEY_PREFIX && value[131] != 0 {
            return None;
        }
        let mut raw = [0u8; 132];
        copy_bytes(value, &mut raw);
        Some(BranchNode { raw })
    }

    /// A branch is the image of its two hashes and two paths.
    pub proof fn lemma_image(&self)
        requires
            self.wf(),
        ensures
            self.image() == branch_image(
                self.spec_child_hash(ChildKind::Left),
                self.spec_child_hash(ChildKind::Right),
                self.spec_child_path(ChildKind::Left),
                self.spec_child_path(ChildKind::Right),
            ),
    {
        assert(self.image() =~= branch_image(
            self.spec_child_hash(ChildKind::Left),
            self.spec_child_hash(ChildKind::Right),
            self.spec_child_path(ChildKind::Left),
            self.spec_child_path(ChildKind::Right),
        ));
    }
}

} // verus!
