//! Paths in the Merkle Patricia tree: bit ranges over 256-bit keys.
//!
//! A path is a range `[start, end)` of the bits of a 32-byte key. Bits are
//! counted from the least significant bit of the first byte. A path that
//! reaches bit 256 is a leaf; a shorter one is a branch.

use vstd::prelude::*;
use vstd::std_specs::bits::axiom_u8_trailing_zeros;
use vstd::std_specs::cmp::PartialEqSpecImpl;

use crate::bits::{
    byte_bit, high_bits, key_bit, lemma_high_bits, lemma_low_bits, lemma_xor_differs,
    lemma_zero_bit, low_bits,
};
use crate::keys::{copy_bytes, StorageKey};

verus! {

/// Kind byte of a branch path.
pub const BRANCH_KEY_PREFIX: u8 = 0;

/// Kind byte of a leaf path.
pub const LEAF_KEY_PREFIX: u8 = 1;

/// First byte of the store key under which a value lies.
pub const VALUE_KEY_PREFIX: u8 = 2;

/// Size in bytes of a key of the map.
pub const KEY_SIZE: usize = 32;

/// Size in bytes of a serialized path.
pub const PROOF_PATH_SIZE: usize = 34;

/// Position of the kind byte in a serialized path.
pub const PROOF_PATH_KIND_POS: usize = 0;

/// Position of the length byte in a serialized path.
pub const PROOF_PATH_LEN_POS: usize = 33;

/// Keys that the map accepts: their encoding has exactly 32 bytes.
pub trait ProofMapKey: StorageKey {
    /// The encoding of a key has `KEY_SIZE` bytes.
    proof fn lemma_key_size(&self)
        ensures
            self.spec_bytes().len() == KEY_SIZE,
    ;
}

impl ProofMapKey for [u8; 32] {
    proof fn lemma_key_size(&self) {
    }
}

impl ProofMapKey for crate::hash::Hash {
    proof fn lemma_key_size(&self) {
        self.lemma_view();
    }
}

/// The side of a branch on which a child hangs: the value of the first bit
/// of the child's path.
#[derive(Debug, Clone, Copy, PartialEq, Eq, Structural)]
pub enum ChildKind {
    Left,
    Right,
}

impl ChildKind {
    /// The other side.
    pub fn not(self) -> (r: ChildKind)
        ensures
            r == self.spec_not(),
    {
        match self {
            ChildKind::Left => ChildKind::Right,
            ChildKind::Right => ChildKind::Left,
        }
    }

    /// The other side.
    pub open spec fn spec_not(self) -> ChildKind {
        match self {
            ChildKind::Left => ChildKind::Right,
            ChildKind::Right => ChildKind::Left,
        }
    }

    /// The side that a bit selects: `Right` for a set bit.
    pub open spec fn of_bit(bit: bool) -> ChildKind {
        if bit {
            ChildKind::Right
        } else {
            ChildKind::Left
        }
    }
}

/// Number of positions, from `i` on, at which `a` and `b` agree before they
/// first differ or one of them ends.
pub open spec fn agree_from(a: Seq<bool>, b: Seq<bool>, i: int) -> nat
    decreases a.len() - i,
{
    if i < 0 || i >= a.len() || i >= b.len() || a[i] != b[i] {
        0
    } else {
        1 + agree_from(a, b, i + 1)
    }
}

/// Length of the longest common prefix of two bit strings.
pub open spec fn common_bits(a: Seq<bool>, b: Seq<bool>) -> nat {
    agree_from(a, b, 0)
}

/// `agree_from` is the distance to the first position at which the two
/// strings differ or one of them ends.
pub proof fn lemma_agree_from(a: Seq<bool>, b: Seq<bool>, i: int, n: int)
    requires
        0 <= i <= n,
        n <= a.len(),
        n <= b.len(),
        forall|j: int| i <= j < n ==> a[j] == b[j],
        n < a.len() && n < b.len() ==> a[n] != b[n],
    ensures
        agree_from(a, b, i) == n - i,
    decreases n - i,
{
    if i < n {
        lemma_agree_from(a, b, i + 1, n);
    }
}

/// `agree_from` never runs past the end of either string, the strings agree
/// on what it counts, and differ right after where both go on.
pub proof fn lemma_agree_from_bounds(a: Seq<bool>, b: Seq<bool>, i: int)
    requires
        0 <= i <= a.len(),
        i <= b.len(),
    ensures
        i + agree_from(a, b, i) <= a.len(),
        i + agree_from(a, b, i) <= b.len(),
        forall|j: int| i <= j < i + agree_from(a, b, i) ==> a[j] == b[j],
        i + agree_from(a, b, i) < a.len() && i + agree_from(a, b, i) < b.len() ==> a[i
            + agree_from(a, b, i)] != b[i + agree_from(a, b, i)],
    decreases a.len() - i,
{
    if i < a.len() && i < b.len() && a[i] == b[i] {
        lemma_agree_from_bounds(a, b, i + 1);
    }
}

/// The 34 bytes under which a path with the bytes `raw` is stored: the
/// same bytes, but for a branch with every key bit at or beyond its end
/// cleared.
pub open spec fn stored_form(raw: Seq<u8>) -> Seq<u8> {
    Seq::new(
        34,
        |i: int|
            if i == 0 || i == 33 || raw[0] == LEAF_KEY_PREFIX {
                raw[i]
            } else {
                low_bits(raw[i], raw[33] as int - 8 * (i - 1))
            },
    )
}

/// The line of text that `format!` makes of a path that starts at `start`
/// and ends at `end`, with the picture `picture` of its bits.
pub uninterp spec fn path_text(start: u16, end: u16, picture: Seq<char>) -> Seq<char>;

/// Formats a path with `format!`, as `ProofPath { start: .., end: ..,
/// bits: ".." }`: the two numbers in decimal, and the picture as a string
/// in quotes, as `Debug` writes a string. The text depends on the two
/// numbers and the characters of the picture alone.
#[verifier::external_body]
fn format_path(start: u16, end: u16, picture: &Vec<char>) -> (r: String)
    ensures
        r@ == path_text(start, end, picture@),
{
    let bits: String = picture.iter().collect();
    format!("ProofPath {{ start: {}, end: {}, bits: {:?} }}", start, end, bits)
}

/// A bit range over a 32-byte key, with its kind and its length byte.
#[derive(Clone, Copy, Debug)]
pub struct ProofPath {
    bytes: [u8; 34],
    start: u16,
}

/// The bits of a path as a range over its key.
pub trait BitsRange: Sized {
    /// Left border of the range.
    spec fn range_start(&self) -> int;

    /// Right border of the range.
    spec fn range_end(&self) -> int;

    /// Returns the left border of the range.
    fn start(&self) -> (r: u16)
        ensures
            r == self.range_start(),
    ;

    /// Returns the right border of the range.
    fn end(&self) -> (r: u16)
        ensures
            r == self.range_end(),
            self.range_start() <= r <= 256,
    ;

    /// Returns the length of the range in bits.
    fn len(&self) -> (r: u16)
        ensures
            r == self.range_end() - self.range_start(),
    ;

    /// Returns `true` if the range has no bits.
    fn is_empty(&self) -> (r: bool)
        ensures
            r == (self.range_end() == self.range_start()),
    ;

    /// Returns the bit at position `idx` of the range.
    fn bit(&self, idx: u16) -> ChildKind
        requires
            self.range_start() + idx < self.range_end(),
    ;

    /// Returns the same range with its left border moved to `idx`.
    fn start_from(&self, idx: u16) -> Self
        requires
            idx <= self.range_end(),
    ;

    /// Returns the first `pos` bits of the range.
    fn prefix(&self, pos: u16) -> Self
        requires
            pos <= self.range_end() - self.range_start(),
    ;

    /// Returns the range without its first `pos` bits.
    fn suffix(&self, pos: u16) -> Self
        requires
            pos <= self.range_end() - self.range_start(),
    ;

    /// Returns `true` if the range begins with the whole of `other`.
    fn starts_with(&self, other: &Self) -> bool;

    /// Returns the number of leading bits that the range shares with `other`.
    fn common_prefix(&self, other: &Self) -> u16;

    /// Returns the 32 bytes of the key under the range.
    fn raw_key(&self) -> &[u8];
}

impl ProofPath {
    /// The 34 bytes held: kind, key, length.
    pub closed spec fn raw(&self) -> Seq<u8> {
        self.bytes@
    }

    /// Left border of the range, in bits.
    pub closed spec fn spec_start(&self) -> int {
        self.start as int
    }

    /// Whether the path reaches the end of the key.
    pub open spec fn is_leaf_spec(&self) -> bool {
        self.raw()[0] == LEAF_KEY_PREFIX
    }

    /// Right border of the range, in bits.
    pub open spec fn spec_end(&self) -> int {
        if self.is_leaf_spec() {
            256
        } else {
            self.raw()[33] as int
        }
    }

    /// Number of bits in the range.
    pub open spec fn spec_len(&self) -> int {
        self.spec_end() - self.spec_start()
    }

    /// The 32 bytes of the key under the range.
    pub open spec fn key(&self) -> Seq<u8> {
        self.raw().subrange(1, 33)
    }

    /// Bit `i` of the range.
    pub open spec fn spec_bit(&self, i: int) -> bool {
        key_bit(self.key(), self.spec_start() + i)
    }

    /// The bits of the range, first to last.
    pub open spec fn bits(&self) -> Seq<bool> {
        Seq::new(self.spec_len() as nat, |i: int| self.spec_bit(i))
    }

    /// What every path satisfies: 34 bytes, a leaf has length byte 0, and
    /// the range is not reversed.
    pub open spec fn wf(&self) -> bool {
        &&& self.raw().len() == 34
        &&& (self.is_leaf_spec() ==> self.raw()[33] == 0)
        &&& 0 <= self.spec_start() <= self.spec_end()
    }

    #[verifier::type_invariant]
    pub open spec fn inv(self) -> bool {
        self.wf()
    }

    /// Length of the longest common prefix of two ranges; 0 where they do
    /// not start at the same bit.
    pub open spec fn spec_common_prefix(&self, other: &ProofPath) -> int {
        if self.spec_start() != other.spec_start() {
            0
        } else {
            common_bits(self.bits(), other.bits()) as int
        }
    }

    /// Whether the range begins with the whole of `other`.
    pub open spec fn spec_starts_with(&self, other: &ProofPath) -> bool {
        self.spec_common_prefix(other) == other.spec_len()
    }

    /// Equality of paths: the same length, and one begins with the other.
    pub open spec fn spec_eq(&self, other: &ProofPath) -> bool {
        self.spec_len() == other.spec_len() && self.spec_starts_with(other)
    }

    /// The 34 bytes under which the path is stored: a branch has every key
    /// bit at or beyond its end cleared.
    pub open spec fn spec_serialize(&self) -> Seq<u8> {
        stored_form(self.raw())
    }

    /// The leaf path of the key with the bytes `key`.
    pub open spec fn spec_new(key: Seq<u8>) -> ProofPath {
        choose|p: ProofPath|
            p.spec_start() == 0 && p.raw() == seq![LEAF_KEY_PREFIX] + key + seq![0u8]
    }

    /// Two paths with the same bytes and the same start are the same.
    pub proof fn lemma_ext(a: ProofPath, b: ProofPath)
        requires
            a.raw() == b.raw(),
            a.spec_start() == b.spec_start(),
        ensures
            a == b,
    {
        vstd::array::axiom_array_ext_equal(a.bytes, b.bytes);
    }

    /// Creates the leaf path of `key`.
    pub fn new<K: ProofMapKey>(key: &K) -> (p: ProofPath)
        ensures
            p == ProofPath::spec_new(key.spec_bytes()),
            p.wf(),
            p.is_leaf_spec(),
            p.spec_start() == 0,
            p.key() == key.spec_bytes(),
            p.raw() == seq![LEAF_KEY_PREFIX] + key.spec_bytes() + seq![0u8],
    {
        proof {
            key.lemma_key_size();
        }
        let mut material = [0u8; 32];
        key.write(&mut material);
        let mut data = [0u8; 34];
        data[0] = LEAF_KEY_PREFIX;
        let mut i: usize = 0;
        while i < 32
            invariant
                i <= 32,
                data@[0] == LEAF_KEY_PREFIX,
                forall|j: int| 0 <= j < i ==> data@[j + 1] == material@[j],
            decreases 32 - i,
        {
            data[i + 1] = material[i];
            i += 1;
        }
        data[PROOF_PATH_LEN_POS] = 0;
        let p = ProofPath::from_raw(data);
        assert(p.key() =~= key.spec_bytes());
        assert(p.raw() =~= seq![LEAF_KEY_PREFIX] + key.spec_bytes() + seq![0u8]);
        proof {
            ProofPath::lemma_ext(p, ProofPath::spec_new(key.spec_bytes()));
        }
        p
    }

    /// Returns `true` if the path is a leaf.
    pub fn is_leaf(&self) -> (r: bool)
        ensures
            r == self.is_leaf_spec(),
    {
        self.bytes[0] == LEAF_KEY_PREFIX
    }

    /// Returns the 34 bytes held, with no bit cleared.
    pub fn as_bytes(&self) -> (r: &[u8])
        ensures
            r@ == self.raw(),
            r@.len() == PROOF_PATH_SIZE,
    {
        self.bytes.as_slice()
    }

    /// Makes a path that starts at bit 0 from its 34 bytes.
    pub fn from_raw(raw: [u8; 34]) -> (p: ProofPath)
        requires
            raw@[0] == LEAF_KEY_PREFIX ==> raw@[33] == 0,
        ensures
            p.wf(),
            p.raw() == raw@,
            p.spec_start() == 0,
    {
        ProofPath { bytes: raw, start: 0 }
    }

    /// Sets the right border of the range, and with it the kind.
    fn set_end(&mut self, end: u16)
        requires
            old(self).spec_start() <= end <= 256,
        ensures
            final(self).wf(),
            final(self).spec_end() == end,
            final(self).spec_start() == old(self).spec_start(),
            final(self).key() == old(self).key(),
            final(self).is_leaf_spec() == (end == 256),
            final(self).raw()[0] == BRANCH_KEY_PREFIX || final(self).raw()[0] == LEAF_KEY_PREFIX,
    {
        proof {
            use_type_invariant(&*self);
        }
        let mut bytes: [u8; 34] = self.bytes;
        if end == 256 {
            bytes[0] = LEAF_KEY_PREFIX;
            bytes[PROOF_PATH_LEN_POS] = 0;
        } else {
            bytes[0] = BRANCH_KEY_PREFIX;
            bytes[PROOF_PATH_LEN_POS] = end as u8;
        }
        assert(bytes@.subrange(1, 33) =~= self.bytes@.subrange(1, 33));
        self.bytes = bytes;
    }

    /// The picture of the key under the path: for each byte its bits, the
    /// most significant first, with `_` for a bit outside the range, and
    /// `|` after the byte.
    pub open spec fn spec_bit_picture(&self) -> Seq<char> {
        Seq::new(
            288,
            |i: int|
                if i % 9 == 8 {
                    '|'
                } else {
                    let pos = (i / 9) * 8 + (7 - i % 9);
                    if pos < self.spec_start() || pos >= self.spec_end() {
                        '_'
                    } else if key_bit(self.key(), pos) {
                        '1'
                    } else {
                        '0'
                    }
                },
        )
    }

    /// Returns the picture of the key under the path.
    pub fn bit_picture(&self) -> (r: Vec<char>)
        ensures
            r@ == self.spec_bit_picture(),
    {
        proof {
            use_type_invariant(self);
        }
        let start: u16 = self.start;
        let end: u16 = self.end();
        let mut out: Vec<char> = Vec::new();
        let mut byte: usize = 0;
        while byte < 32
            invariant
                byte <= 32,
                self.wf(),
                start == self.spec_start(),
                end == self.spec_end(),
                out@.len() == 9 * byte,
                forall|i: int| 0 <= i < 9 * byte ==> out@[i] == self.spec_bit_picture()[i],
            decreases 32 - byte,
        {
            let chunk: u8 = self.bytes[byte + 1];
            let mut k: usize = 0;
            while k < 8
                invariant
                    k <= 8,
                    byte < 32,
                    self.wf(),
                    start == self.spec_start(),
                    end == self.spec_end(),
                    chunk == self.key()[byte as int],
                    out@.len() == 9 * byte + k,
                    forall|i: int| 0 <= i < 9 * byte + k ==> out@[i] == self.spec_bit_picture()[i],
                decreases 8 - k,
            {
                let bit: u8 = (7 - k) as u8;
                let pos: u16 = (byte * 8 + (7 - k)) as u16;
                let value: u8 = (chunk >> bit) & 1u8;
                proof {
                    crate::bits::lemma_bit_is_zero_or_one(chunk, bit);
                    let i = 9 * byte + k;
                    assert(i % 9 == k as int);
                    assert(i / 9 == byte as int);
                    assert(pos as int / 8 == byte as int);
                    assert(pos as int % 8 == bit as int);
                }
                let c: char = if pos < start || pos >= end {
                    '_'
                } else if value != 0 {
                    '1'
                } else {
                    '0'
                };
                out.push(c);
                k += 1;
            }
            proof {
                let i = 9 * byte + 8;
                assert(i % 9 == 8);
            }
            out.push('|');
            byte += 1;
        }
        assert(out@ =~= self.spec_bit_picture());
        out
    }

    /// Returns the path as a line of text for a developer: its start, its
    /// end, and the picture of its bits.
    pub fn debug_string(&self) -> (r: String)
        ensures
            r@ == path_text(
                self.spec_start() as u16,
                self.spec_end() as u16,
                self.spec_bit_picture(),
            ),
    {
        proof {
            use_type_invariant(self);
        }
        let picture = self.bit_picture();
        format_path(self.start(), self.end(), &picture)
    }

    /// Returns the number of leading bits that the path shares with `other`.
    pub fn common_prefix_len(&self, other: &ProofPath) -> (r: u16)
        ensures
            r == self.spec_common_prefix(other),
            r <= self.spec_len(),
            r <= other.spec_len() || self.spec_start() != other.spec_start(),
    {
        self.common_prefix(other)
    }

    /// Number of bytes in a serialized path.
    pub fn size(&self) -> (n: usize)
        ensures
            n == PROOF_PATH_SIZE,
    {
        PROOF_PATH_SIZE
    }

    /// Writes the path as it is stored: the 34 bytes, with the key bits at
    /// or beyond the end of a branch cleared.
    pub fn write(&self, buffer: &mut [u8])
        requires
            old(buffer)@.len() == PROOF_PATH_SIZE,
        ensures
            final(buffer)@ == self.spec_serialize(),
    {
        proof {
            use_type_invariant(self);
        }
        copy_bytes(self.bytes.as_slice(), buffer);
        if !self.is_leaf() {
            let end: u16 = self.end();
            let right: usize = (end as usize + 7) / 8;
            if end % 8 != 0 {
                let keep: u8 = (end % 8) as u8;
                let cut: u8 = buffer[right] & !(255u8 << keep);
                buffer[right] = cut;
            }
            let mut i: usize = right + 1;
            while i < KEY_SIZE + 1
                invariant
                    right + 1 <= i <= KEY_SIZE + 1,
                    right == (end + 7) / 8,
                    end == self.spec_end(),
                    end < 256,
                    buffer@.len() == 34,
                    buffer@[0] == self.raw()[0],
                    buffer@[33] == self.raw()[33],
                    forall|j: int|
                        1 <= j <= right ==> buffer@[j] == low_bits(
                            self.raw()[j],
                            end - 8 * (j - 1),
                        ),
                    forall|j: int| right < j < i ==> buffer@[j] == 0u8,
                    forall|j: int| i <= j < 33 ==> buffer@[j] == self.raw()[j],
                decreases KEY_SIZE + 1 - i,
            {
                buffer[i] = 0;
                i += 1;
            }
        }
        assert(buffer@ =~= self.spec_serialize());
    }

    /// Reads a path from the 34 bytes under which it was stored. The path
    /// starts at bit 0.
    pub fn read(buffer: &[u8]) -> (p: ProofPath)
        requires
            buffer@.len() == PROOF_PATH_SIZE,
            buffer@[0] == LEAF_KEY_PREFIX ==> buffer@[33] == 0,
        ensures
            p.wf(),
            p.raw() == buffer@,
            p.spec_start() == 0,
    {
        let mut data = [0u8; 34];
        copy_bytes(buffer, &mut data);
        ProofPath::from_raw(data)
    }

    /// Reads a path from stored bytes; `None` unless there are 34 of them
    /// and a leaf's length byte is 0.
    pub fn try_read(buffer: &[u8]) -> (r: Option<ProofPath>)
        ensures
            r is Some <==> (buffer@.len() == PROOF_PATH_SIZE && (buffer@[0] == LEAF_KEY_PREFIX
                ==> buffer@[33] == 0)),
            r matches Some(p) ==> p.wf() && p.raw() == buffer@ && p.spec_start() == 0,
    {
        if buffer.len() != PROOF_PATH_SIZE {
            return None;
        }
        if buffer[0] == LEAF_KEY_PREFIX && buffer[33] != 0 {
            return None;
        }
        Some(ProofPath::read(buffer))
    }
}

impl BitsRange for ProofPath {
    open spec fn range_start(&self) -> int {
        self.spec_start()
    }

    open spec fn range_end(&self) -> int {
        self.spec_end()
    }

    fn start(&self) -> (r: u16) {
        self.start
    }

    fn end(&self) -> (r: u16) {
        proof {
            use_type_invariant(self);
        }
        if self.is_leaf() {
            256
        } else {
            self.bytes[PROOF_PATH_LEN_POS] as u16
        }
    }

    fn len(&self) -> (r: u16) {
        self.end() - self.start()
    }

    fn is_empty(&self) -> (r: bool) {
        self.end() == self.start()
    }

    fn bit(&self, idx: u16) -> (r: ChildKind)
        ensures
            r == ChildKind::of_bit(self.spec_bit(idx as int)),
    {
        proof {
            use_type_invariant(self);
        }
        let pos: u16 = self.start + idx;
        let chunk: u8 = self.bytes[(pos / 8) as usize + 1];
        let bit: u8 = (pos % 8) as u8;
        let value: u8 = (chunk >> bit) & 1u8;
        proof {
            assert(chunk == self.key()[pos as int / 8]);
            crate::bits::lemma_bit_is_zero_or_one(chunk, bit);
        }
        if value != 0 {
            ChildKind::Right
        } else {
            ChildKind::Left
        }
    }

    fn start_from(&self, idx: u16) -> (r: ProofPath)
        ensures
            r.wf(),
            r.raw() == self.raw(),
            r.spec_start() == idx,
    {
        proof {
            use_type_invariant(self);
        }
        ProofPath { bytes: self.bytes, start: idx }
    }

    fn prefix(&self, pos: u16) -> (r: ProofPath)
        ensures
            r.wf(),
            r.spec_start() == self.spec_start(),
            r.spec_end() == self.spec_start() + pos,
            r.spec_len() == pos,
            r.key() == self.key(),
            r.is_leaf_spec() == (self.spec_start() + pos == 256),
            r.raw()[0] == BRANCH_KEY_PREFIX || r.raw()[0] == LEAF_KEY_PREFIX,
    {
        proof {
            use_type_invariant(self);
        }
        let mut key = ProofPath { bytes: self.bytes, start: self.start };
        key.set_end(self.start + pos);
        key
    }

    fn suffix(&self, pos: u16) -> (r: ProofPath)
        ensures
            r.wf(),
            r.raw() == self.raw(),
            r.spec_start() == self.spec_start() + pos,
            r.spec_len() == self.spec_len() - pos,
    {
        proof {
            use_type_invariant(self);
        }
        self.start_from(self.start + pos)
    }

    fn starts_with(&self, other: &ProofPath) -> (r: bool)
        ensures
            r == self.spec_starts_with(other),
    {
        self.common_prefix(other) == other.len()
    }

    fn common_prefix(&self, other: &ProofPath) -> (r: u16)
        ensures
            r == self.spec_common_prefix(other),
            r <= self.spec_len(),
            r <= other.spec_len() || self.spec_start() != other.spec_start(),
    {
        proof {
            use_type_invariant(self);
            use_type_invariant(other);
        }
        if self.start != other.start {
            return 0;
        }
        let start: u16 = self.start;
        let from: u16 = start / 8;
        let e1: u16 = self.end();
        let e2: u16 = other.end();
        let stop: u16 = if e1 < e2 {
            e1
        } else {
            e2
        };
        let to: u16 = (stop + 7) / 8;
        let max_len: u16 = stop - start;
        let mut i: u16 = from;
        while i < to
            invariant
                from <= i <= to,
                from == start / 8,
                to == (stop + 7) / 8,
                to <= 32,
                start == self.spec_start(),
                start == other.spec_start(),
                start <= stop,
                stop <= self.spec_end(),
                stop <= other.spec_end(),
                stop == self.spec_end() || stop == other.spec_end(),
                max_len == stop - start,
                self.wf(),
                other.wf(),
                forall|p: int|
                    start <= p < 8 * i && p < stop ==> key_bit(self.key(), p) == key_bit(
                        other.key(),
                        p,
                    ),
            decreases to - i,
        {
            let a: u8 = self.bytes[i as usize + 1];
            let b: u8 = other.bytes[i as usize + 1];
            let shift: u8 = if i == from {
                (start % 8) as u8
            } else {
                0
            };
            let x: u8 = ((a ^ b) >> shift) << shift;
            proof {
                assert(a == self.key()[i as int]);
                assert(b == other.key()[i as int]);
                assert(((a ^ b) >> 0u8) << 0u8 == a ^ b) by (bit_vector);
                assert(x == high_bits(a ^ b, shift as int));
                assert forall|j: int| 0 <= j < 8 implies byte_bit(x, j) == (j >= shift && (
                byte_bit(a, j) != byte_bit(b, j))) by {
                    lemma_high_bits(a ^ b, shift as int, j);
                    lemma_xor_differs(a, b, j);
                }
            }
            if x != 0 {
                let tail: u16 = x.trailing_zeros() as u16;
                proof {
                    axiom_u8_trailing_zeros(x);
                    assert(tail < 8);
                    assert(byte_bit(x, tail as int));
                    assert forall|j: int| 0 <= j < tail implies !byte_bit(x, j) by {
                        assert((x >> (j as u8)) & 1u8 == 0u8);
                    }
                    assert(tail >= shift);
                }
                let q: u16 = i * 8 + tail;
                let d: u16 = q - start;
                let r: u16 = if d < max_len {
                    d
                } else {
                    max_len
                };
                proof {
                    let sb = self.bits();
                    let ob = other.bits();
                    assert forall|p: int| start <= p < q && p < stop implies key_bit(
                        self.key(),
                        p,
                    ) == key_bit(other.key(), p) by {
                        if p >= 8 * i {
                            let j = p - 8 * i;
                            assert(p / 8 == i as int);
                            assert(p % 8 == j);
                            assert(!byte_bit(x, j));
                            assert(j >= shift);
                        }
                    }
                    assert forall|k: int| 0 <= k < r implies sb[k] == ob[k] by {
                        assert(sb[k] == key_bit(self.key(), start + k));
                        assert(ob[k] == key_bit(other.key(), start + k));
                    }
                    if r < sb.len() && r < ob.len() {
                        assert(d < max_len);
                        assert(q as int / 8 == i as int);
                        assert(q as int % 8 == tail as int);
                        assert(sb[r as int] == key_bit(self.key(), q as int));
                        assert(ob[r as int] == key_bit(other.key(), q as int));
                    }
                    lemma_agree_from(sb, ob, 0, r as int);
                }
                return r;
            }
            proof {
                assert forall|p: int| start <= p < 8 * (i + 1) && p < stop implies key_bit(
                    self.key(),
                    p,
                ) == key_bit(other.key(), p) by {
                    if p >= 8 * i {
                        let j = p - 8 * i;
                        assert(p / 8 == i as int);
                        assert(p % 8 == j);
                        lemma_zero_bit(j as u8);
                        assert(!byte_bit(x, j));
                        assert(j >= shift);
                    }
                }
            }
            i += 1;
        }
        proof {
            let sb = self.bits();
            let ob = other.bits();
            assert forall|k: int| 0 <= k < max_len implies sb[k] == ob[k] by {
                assert(sb[k] == key_bit(self.key(), start + k));
                assert(ob[k] == key_bit(other.key(), start + k));
            }
            lemma_agree_from(sb, ob, 0, max_len as int);
        }
        max_len
    }

    fn raw_key(&self) -> (r: &[u8])
        ensures
            r@ == self.key(),
    {
        let whole: &[u8] = self.bytes.as_slice();
        vstd::slice::slice_subrange(whole, 1, KEY_SIZE + 1)
    }
}

/// A path shares all of its bits with itself.
pub proof fn lemma_common_prefix_self(p: ProofPath)
    requires
        p.wf(),
    ensures
        p.spec_common_prefix(&p) == p.spec_len(),
        p.spec_eq(&p),
{
    lemma_agree_from(p.bits(), p.bits(), 0, p.spec_len());
}

/// Two paths share as many leading bits whichever of them is asked.
pub proof fn lemma_common_prefix_symmetric(a: ProofPath, b: ProofPath)
    requires
        a.wf(),
        b.wf(),
    ensures
        a.spec_common_prefix(&b) == b.spec_common_prefix(&a),
{
    if a.spec_start() == b.spec_start() {
        lemma_agree_from_bounds(a.bits(), b.bits(), 0);
        lemma_agree_from(b.bits(), a.bits(), 0, agree_from(a.bits(), b.bits(), 0) as int);
    }
}

/// What the common prefix of two paths with one start is: they agree on
/// that many bits, and differ at the next one where both go on.
pub proof fn lemma_common_prefix_bits(a: ProofPath, b: ProofPath)
    requires
        a.wf(),
        b.wf(),
        a.spec_start() == b.spec_start(),
    ensures
        0 <= a.spec_common_prefix(&b) <= a.spec_len(),
        a.spec_common_prefix(&b) <= b.spec_len(),
        forall|i: int| 0 <= i < a.spec_common_prefix(&b) ==> a.spec_bit(i) == b.spec_bit(i),
        a.spec_common_prefix(&b) < a.spec_len() && a.spec_common_prefix(&b) < b.spec_len()
            ==> a.spec_bit(a.spec_common_prefix(&b)) != b.spec_bit(a.spec_common_prefix(&b)),
{
    lemma_agree_from_bounds(a.bits(), b.bits(), 0);
    let n = a.spec_common_prefix(&b);
    assert forall|i: int| 0 <= i < n implies a.spec_bit(i) == b.spec_bit(i) by {
        assert(a.bits()[i] == b.bits()[i]);
    }
    if n < a.spec_len() && n < b.spec_len() {
        assert(a.bits()[n] != b.bits()[n]);
    }
}

/// The common prefix of two paths with one start reaches from that start
/// to the first bit at which their keys differ, or to the end of the
/// shorter path.
pub proof fn lemma_common_prefix_diverge(a: ProofPath, b: ProofPath)
    requires
        a.wf(),
        b.wf(),
        a.spec_start() == b.spec_start(),
    ensures
        a.spec_common_prefix(&b) == crate::proof_map_index::tree::diverge(
            a.key(),
            b.key(),
            a.spec_start(),
            if a.spec_end() < b.spec_end() {
                a.spec_end()
            } else {
                b.spec_end()
            },
        ) - a.spec_start(),
{
    lemma_common_prefix_bits(a, b);
    let n = a.spec_common_prefix(&b);
    let s = a.spec_start();
    let limit = if a.spec_end() < b.spec_end() {
        a.spec_end()
    } else {
        b.spec_end()
    };
    assert forall|i: int| s <= i < s + n implies key_bit(a.key(), i) == key_bit(b.key(), i) by {
        assert(a.spec_bit(i - s) == b.spec_bit(i - s));
    }
    if s + n < limit {
        assert(a.spec_bit(n) != b.spec_bit(n));
    }
    crate::proof_map_index::tree::lemma_diverge_is(a.key(), b.key(), s, limit, s + n);
}

/// A path read back at bit 0 from what `write` stored is of the same kind
/// and has the same end; its key has the bits of the one written up to that
/// end, and, for a branch, no bit set from there on. A leaf comes back byte
/// for byte, and a path that started at bit 0 comes back equal.
pub proof fn lemma_serialize_round_trip(p: ProofPath, q: ProofPath)
    requires
        p.wf(),
        q.raw() == p.spec_serialize(),
        q.spec_start() == 0,
    ensures
        q.wf(),
        q.is_leaf_spec() == p.is_leaf_spec(),
        q.spec_end() == p.spec_end(),
        forall|i: int|
            0 <= i < 256 ==> key_bit(q.key(), i) == ((p.is_leaf_spec() || i < p.spec_end())
                && key_bit(p.key(), i)),
        p.is_leaf_spec() ==> q.raw() == p.raw(),
        p.spec_start() == 0 ==> q.spec_eq(&p),
        q.spec_serialize() == q.raw(),
{
    assert forall|i: int| 0 <= i < 256 implies key_bit(q.key(), i) == ((p.is_leaf_spec() || i
        < p.spec_end()) && key_bit(p.key(), i)) by {
        let j = i / 8;
        assert(q.key()[j] == q.raw()[j + 1]);
        assert(p.key()[j] == p.raw()[j + 1]);
        if !p.is_leaf_spec() {
            lemma_low_bits(p.raw()[j + 1], p.spec_end() - 8 * j, i % 8);
        }
    }
    if p.is_leaf_spec() {
        assert(q.raw() =~= p.raw());
    }
    if p.spec_start() == 0 {
        assert forall|k: int| 0 <= k < p.spec_len() implies q.bits()[k] == p.bits()[k] by {
            assert(q.bits()[k] == key_bit(q.key(), k));
            assert(p.bits()[k] == key_bit(p.key(), k));
        }
        lemma_agree_from(q.bits(), p.bits(), 0, p.spec_len());
    }
    assert forall|i: int| 0 <= i < 34 implies q.spec_serialize()[i] == q.raw()[i] by {
        if !(i == 0 || i == 33 || q.is_leaf_spec()) {
            let keep = q.spec_end() - 8 * (i - 1);
            let b = p.raw()[i];
            assert(q.raw()[i] == low_bits(b, keep));
            assert forall|j: int| 0 <= j < 8 implies byte_bit(low_bits(low_bits(b, keep), keep), j)
                == byte_bit(low_bits(b, keep), j) by {
                lemma_low_bits(low_bits(b, keep), keep, j);
                lemma_low_bits(b, keep, j);
            }
            crate::bits::lemma_byte_ext(low_bits(low_bits(b, keep), keep), low_bits(b, keep));
        }
    }
    assert(q.spec_serialize() =~= q.raw());
}

impl PartialEq for ProofPath {
    fn eq(&self, other: &ProofPath) -> (r: bool) {
        self.len() == other.len() && self.starts_with(other)
    }
}

impl PartialEqSpecImpl for ProofPath {
    open spec fn obeys_eq_spec() -> bool {
        true
    }

    open spec fn eq_spec(&self, other: &ProofPath) -> bool {
        self.spec_eq(other)
    }
}

} // verus!
