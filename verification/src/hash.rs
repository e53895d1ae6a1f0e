//! The 256-bit hash that commits to the contents of the store.

use vstd::prelude::*;
use vstd::std_specs::cmp::PartialEqSpecImpl;

use crate::keys::copy_bytes;

verus! {

/// Number of bytes in a hash.
pub const HASH_SIZE: usize = 32;

/// Number of bytes from which on the hasher refuses its input: the length
/// in bits has to fit in 64 bits.
pub const HASH_INPUT_LIMIT: u64 = 0x2000_0000_0000_0000;

/// The SHA-256 digest of `data`.
pub uninterp spec fn sha256(data: Seq<u8>) -> Seq<u8>;

/// The digest of `data` as a hash: the SHA-256 digest, which has 32 bytes.
pub open spec fn digest(data: Seq<u8>) -> Seq<u8> {
    if sha256(data).len() == 32 {
        sha256(data)
    } else {
        Hash::zero_view()
    }
}

/// Whether `len` bytes can be hashed.
pub open spec fn hashable(len: nat) -> bool {
    len < HASH_INPUT_LIMIT
}

/// Computes SHA-256 with `crypto::sha2::Sha256`: one fresh hasher, one
/// `input` of the whole of `data`, then `result`. The digest depends on the
/// bytes of `data` alone and has 32 bytes. The hasher panics on an input of
/// 2^61 bytes or more, which `requires` leaves out.
#[verifier::external_body]
fn sha256_digest(data: &[u8]) -> (out: [u8; 32])
    requires
        hashable(data@.len()),
    ensures
        out@ == sha256(data@),
{
    let mut hasher = crypto::sha2::Sha256::new();
    crypto::digest::Digest::input(&mut hasher, data);
    let mut out = [0u8; 32];
    crypto::digest::Digest::result(&mut hasher, &mut out);
    out
}

/// A 256-bit hash value.
#[derive(Clone, Copy, Debug, Eq)]
pub struct Hash {
    bytes: [u8; 32],
}

impl View for Hash {
    type V = Seq<u8>;

    closed spec fn view(&self) -> Seq<u8> {
        self.bytes@
    }
}

impl PartialEq for Hash {
    fn eq(&self, other: &Hash) -> (r: bool) {
        let mut i: usize = 0;
        while i < 32
            invariant
                i <= 32,
                forall|j: int| 0 <= j < i ==> self.bytes@[j] == other.bytes@[j],
            decreases 32 - i,
        {
            if self.bytes[i] != other.bytes[i] {
                return false;
            }
            i += 1;
        }
        assert(self.bytes@ =~= other.bytes@);
        true
    }
}

impl PartialEqSpecImpl for Hash {
    open spec fn obeys_eq_spec() -> bool {
        true
    }

    open spec fn eq_spec(&self, other: &Hash) -> bool {
        self@ == other@
    }
}

impl Hash {
    /// The view of the hash of all zeros.
    pub open spec fn zero_view() -> Seq<u8> {
        Seq::new(32, |i: int| 0u8)
    }

    /// A hash has 32 bytes, and two hashes of the same bytes are the same.
    pub proof fn lemma_view(&self)
        ensures
            self@.len() == HASH_SIZE,
    {
    }

    /// Two hashes of the same bytes are the same hash.
    pub proof fn lemma_ext(a: Hash, b: Hash)
        requires
            a@ == b@,
        ensures
            a == b,
    {
        vstd::array::axiom_array_ext_equal(a.bytes, b.bytes);
    }

    /// The hash with the bytes `bytes`.
    pub open spec fn spec_from(bytes: Seq<u8>) -> Hash {
        choose|h: Hash| h@ == bytes
    }

    /// A hash is the hash with its bytes.
    pub proof fn lemma_spec_from(h: Hash)
        ensures
            Hash::spec_from(h@) == h,
    {
        Hash::lemma_ext(h, Hash::spec_from(h@));
    }

    /// Makes a hash of the given bytes.
    pub fn new(bytes: [u8; 32]) -> (h: Hash)
        ensures
            h@ == bytes@,
    {
        Hash { bytes }
    }

    /// Returns the hash that consists of zeros: the root hash of an empty
    /// map.
    pub fn zero() -> (h: Hash)
        ensures
            h@ == Hash::zero_view(),
    {
        let mut bytes: [u8; 32] = [0u8; 32];
        let mut i: usize = 0;
        while i < 32
            invariant
                i <= 32,
                forall|j: int| 0 <= j < i ==> bytes@[j] == 0u8,
            decreases 32 - i,
        {
            bytes[i] = 0;
            i += 1;
        }
        let h = Hash { bytes };
        assert(h@ =~= Hash::zero_view());
        h
    }

    /// Makes a hash of the given bytes; `None` unless there are 32 of them.
    pub fn from_slice(bytes: &[u8]) -> (r: Option<Hash>)
        ensures
            r is Some <==> bytes@.len() == HASH_SIZE,
            r matches Some(h) ==> h@ == bytes@,
    {
        if bytes.len() != HASH_SIZE {
            return None;
        }
        let mut data = [0u8; 32];
        copy_bytes(bytes, &mut data);
        Some(Hash { bytes: data })
    }

    /// Returns the bytes of the hash.
    pub fn as_bytes(&self) -> (r: &[u8])
        ensures
            r@ == self@,
    {
        self.bytes.as_slice()
    }

    /// Returns the bytes of the hash as a vector.
    pub fn to_vec(&self) -> (r: Vec<u8>)
        ensures
            r@ == self@,
    {
        let mut out: Vec<u8> = Vec::new();
        let mut i: usize = 0;
        while i < 32
            invariant
                i <= 32,
                out@ == self.bytes@.subrange(0, i as int),
            decreases 32 - i,
        {
            out.push(self.bytes[i]);
            assert(self.bytes@.subrange(0, i + 1) =~= self.bytes@.subrange(0, i as int).push(
                self.bytes@[i as int],
            ));
            i += 1;
        }
        assert(self.bytes@.subrange(0, 32) =~= self.bytes@);
        out
    }
}

/// Computes the hash of `data`.
pub fn hash(data: &[u8]) -> (h: Hash)
    requires
        hashable(data@.len()),
    ensures
        h@ == sha256(data@),
        h@ == digest(data@),
{
    Hash { bytes: sha256_digest(data) }
}

/// Computes the hash of `data`; `None` where `data` is too long to hash.
pub fn try_hash(data: &[u8]) -> (r: Option<Hash>)
    ensures
        r is Some <==> hashable(data@.len()),
        r matches Some(h) ==> h@ == sha256(data@),
{
    if (data.len() as u64) < HASH_INPUT_LIMIT {
        Some(hash(data))
    } else {
        None
    }
}

} // verus!
