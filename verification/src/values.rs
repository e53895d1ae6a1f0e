//! Serialization of stored values.
//!
//! Integers are stored in little-endian order.

use vstd::bytes::{
    lemma_auto_spec_u16_to_from_le_bytes, lemma_auto_spec_u32_to_from_le_bytes,
    lemma_auto_spec_u64_to_from_le_bytes, spec_u16_from_le_bytes, spec_u16_to_le_bytes,
    spec_u32_from_le_bytes, spec_u32_to_le_bytes, spec_u64_from_le_bytes, spec_u64_to_le_bytes,
};
use vstd::prelude::*;
use vstd::utf8::{encode_utf8, valid_utf8};

use crate::hash::{hash, hashable, sha256};

verus! {

/// `byteorder::LittleEndian::write_u16`: stores `n` in the first two bytes
/// of `buf`, least significant byte first, and leaves the rest as it was.
/// It panics on a shorter buffer.
#[verifier::external_body]
fn le_write_u16(buf: &mut [u8], n: u16)
    requires
        old(buf)@.len() >= 2,
    ensures
        final(buf)@.len() == old(buf)@.len(),
        final(buf)@.subrange(0, 2) == spec_u16_to_le_bytes(n),
        final(buf)@.subrange(2, old(buf)@.len() as int) == old(buf)@.subrange(
            2,
            old(buf)@.len() as int,
        ),
{
    <byteorder::LittleEndian as byteorder::ByteOrder>::write_u16(buf, n)
}

/// `byteorder::LittleEndian::write_u32`: stores `n` in the first four bytes
/// of `buf`, least significant byte first, and leaves the rest as it was.
/// It panics on a shorter buffer.
#[verifier::external_body]
fn le_write_u32(buf: &mut [u8], n: u32)
    requires
        old(buf)@.len() >= 4,
    ensures
        final(buf)@.len() == old(buf)@.len(),
        final(buf)@.subrange(0, 4) == spec_u32_to_le_bytes(n),
        final(buf)@.subrange(4, old(buf)@.len() as int) == old(buf)@.subrange(
            4,
            old(buf)@.len() as int,
        ),
{
    <byteorder::LittleEndian as byteorder::ByteOrder>::write_u32(buf, n)
}

/// `byteorder::LittleEndian::write_u64`: stores `n` in the first eight bytes
/// of `buf`, least significant byte first, and leaves the rest as it was.
/// It panics on a shorter buffer.
#[verifier::external_body]
fn le_write_u64(buf: &mut [u8], n: u64)
    requires
        old(buf)@.len() >= 8,
    ensures
        final(buf)@.len() == old(buf)@.len(),
        final(buf)@.subrange(0, 8) == spec_u64_to_le_bytes(n),
        final(buf)@.subrange(8, old(buf)@.len() as int) == old(buf)@.subrange(
            8,
            old(buf)@.len() as int,
        ),
{
    <byteorder::LittleEndian as byteorder::ByteOrder>::write_u64(buf, n)
}

/// `byteorder::LittleEndian::read_u16`: the number that the first two bytes
/// of `buf` hold, least significant byte first. It panics on a shorter
/// buffer.
#[verifier::external_body]
fn le_read_u16(buf: &[u8]) -> (n: u16)
    requires
        buf@.len() >= 2,
    ensures
        n == spec_u16_from_le_bytes(buf@.subrange(0, 2)),
{
    <byteorder::LittleEndian as byteorder::ByteOrder>::read_u16(buf)
}

/// `byteorder::LittleEndian::read_u32`: the number that the first four
/// bytes of `buf` hold, least significant byte first. It panics on a shorter
/// buffer.
#[verifier::external_body]
fn le_read_u32(buf: &[u8]) -> (n: u32)
    requires
        buf@.len() >= 4,
    ensures
        n == spec_u32_from_le_bytes(buf@.subrange(0, 4)),
{
    <byteorder::LittleEndian as byteorder::ByteOrder>::read_u32(buf)
}

/// `byteorder::LittleEndian::read_u64`: the number that the first eight
/// bytes of `buf` hold, least significant byte first. It panics on a shorter
/// buffer.
#[verifier::external_body]
fn le_read_u64(buf: &[u8]) -> (n: u64)
    requires
        buf@.len() >= 8,
    ensures
        n == spec_u64_from_le_bytes(buf@.subrange(0, 8)),
{
    <byteorder::LittleEndian as byteorder::ByteOrder>::read_u64(buf)
}

/// A vector of `n` zero bytes.
pub fn zeros(n: usize) -> (r: Vec<u8>)
    ensures
        r@.len() == n,
        forall|i: int| 0 <= i < n ==> r@[i] == 0u8,
{
    let mut r: Vec<u8> = Vec::new();
    let mut i: usize = 0;
    while i < n
        invariant
            i <= n,
            r@.len() == i,
            forall|j: int| 0 <= j < i ==> r@[j] == 0u8,
        decreases n - i,
    {
        r.push(0u8);
        i += 1;
    }
    r
}

/// A type that can be stored as a value of an index.
pub trait StorageValue: Sized {
    /// The bytes as which the value is stored.
    spec fn spec_bytes(&self) -> Seq<u8>;

    /// Whether `bytes` is what some value of this type is stored as.
    spec fn is_encoding(bytes: Seq<u8>) -> bool;

    /// The hash of the value that is stored as `bytes`.
    spec fn spec_hash(bytes: Seq<u8>) -> Seq<u8>;

    /// What a value is stored as is an encoding.
    proof fn lemma_encoding(&self)
        ensures
            Self::is_encoding(self.spec_bytes()),
    ;

    /// Returns the hash of the value.
    fn hash(&self) -> (h: crate::hash::Hash)
        requires
            hashable(self.spec_bytes().len()),
        ensures
            h@ == Self::spec_hash(self.spec_bytes()),
    ;

    /// Serializes the value.
    fn into_bytes(self) -> (r: Vec<u8>)
        ensures
            r@ == self.spec_bytes(),
    ;

    /// Reads a value back from the bytes as which it was stored; `None`
    /// where `value` is not what a value of this type is stored as.
    fn from_bytes(value: &[u8]) -> (r: Option<Self>)
        ensures
            r is Some <==> Self::is_encoding(value@),
            r matches Some(v) ==> v.spec_bytes() == value@,
    ;
}

impl StorageValue for () {
    open spec fn spec_bytes(&self) -> Seq<u8> {
        Seq::empty()
    }

    open spec fn is_encoding(bytes: Seq<u8>) -> bool {
        bytes.len() == 0
    }

    open spec fn spec_hash(bytes: Seq<u8>) -> Seq<u8> {
        crate::hash::Hash::zero_view()
    }

    proof fn lemma_encoding(&self) {
    }

    fn hash(&self) -> (h: crate::hash::Hash) {
        crate::hash::Hash::zero()
    }

    fn into_bytes(self) -> (r: Vec<u8>) {
        Vec::new()
    }

    fn from_bytes(value: &[u8]) -> (r: Option<Self>) {
        if value.len() == 0 {
            assert(value@ =~= Seq::<u8>::empty());
            Some(())
        } else {
            None
        }
    }
}

impl StorageValue for u8 {
    open spec fn spec_bytes(&self) -> Seq<u8> {
        seq![*self]
    }

    open spec fn is_encoding(bytes: Seq<u8>) -> bool {
        bytes.len() == 1
    }

    open spec fn spec_hash(bytes: Seq<u8>) -> Seq<u8> {
        sha256(bytes)
    }

    proof fn lemma_encoding(&self) {
    }

    fn hash(&self) -> (h: crate::hash::Hash) {
        let bytes: [u8; 1] = [*self];
        assert(bytes@ =~= self.spec_bytes());
        hash(bytes.as_slice())
    }

    fn into_bytes(self) -> (r: Vec<u8>) {
        let mut r: Vec<u8> = Vec::new();
        r.push(self);
        assert(r@ =~= self.spec_bytes());
        r
    }

    fn from_bytes(value: &[u8]) -> (r: Option<Self>) {
        if value.len() == 1 {
            assert(value@ =~= seq![value@[0]]);
            Some(value[0])
        } else {
            None
        }
    }
}

impl StorageValue for i8 {
    open spec fn spec_bytes(&self) -> Seq<u8> {
        seq![*self as u8]
    }

    open spec fn is_encoding(bytes: Seq<u8>) -> bool {
        bytes.len() == 1
    }

    open spec fn spec_hash(bytes: Seq<u8>) -> Seq<u8> {
        sha256(bytes)
    }

    proof fn lemma_encoding(&self) {
    }

    fn hash(&self) -> (h: crate::hash::Hash) {
        let bytes: [u8; 1] = [*self as u8];
        assert(bytes@ =~= self.spec_bytes());
        hash(bytes.as_slice())
    }

    fn into_bytes(self) -> (r: Vec<u8>) {
        let mut r: Vec<u8> = Vec::new();
        r.push(self as u8);
        assert(r@ =~= self.spec_bytes());
        r
    }

    fn from_bytes(value: &[u8]) -> (r: Option<Self>) {
        if value.len() == 1 {
            let b: u8 = value[0];
            let v: i8 = b as i8;
            assert(v as u8 == b) by (bit_vector)
                requires
                    v == b as i8,
            ;
            assert(value@ =~= seq![value@[0]]);
            Some(v)
        } else {
            None
        }
    }
}

impl StorageValue for bool {
    open spec fn spec_bytes(&self) -> Seq<u8> {
        if *self {
            seq![1u8]
        } else {
            seq![0u8]
        }
    }

    open spec fn is_encoding(bytes: Seq<u8>) -> bool {
        bytes.len() == 1 && (bytes[0] == 0 || bytes[0] == 1)
    }

    open spec fn spec_hash(bytes: Seq<u8>) -> Seq<u8> {
        sha256(bytes)
    }

    proof fn lemma_encoding(&self) {
    }

    fn hash(&self) -> (h: crate::hash::Hash) {
        let b: u8 = if *self {
            1
        } else {
            0
        };
        let bytes: [u8; 1] = [b];
        assert(bytes@ =~= self.spec_bytes());
        hash(bytes.as_slice())
    }

    fn into_bytes(self) -> (r: Vec<u8>) {
        let mut r: Vec<u8> = Vec::new();
        r.push(if self {
            1u8
        } else {
            0u8
        });
        assert(r@ =~= self.spec_bytes());
        r
    }

    fn from_bytes(value: &[u8]) -> (r: Option<Self>) {
        if value.len() != 1 {
            return None;
        }
        assert(value@ =~= seq![value@[0]]);
        if value[0] == 0 {
            Some(false)
        } else if value[0] == 1 {
            Some(true)
        } else {
            None
        }
    }
}

impl StorageValue for u16 {
    open spec fn spec_bytes(&self) -> Seq<u8> {
        spec_u16_to_le_bytes(*self)
    }

    open spec fn is_encoding(bytes: Seq<u8>) -> bool {
        bytes.len() == 2
    }

    open spec fn spec_hash(bytes: Seq<u8>) -> Seq<u8> {
        sha256(bytes)
    }

    proof fn lemma_encoding(&self) {
        lemma_auto_spec_u16_to_from_le_bytes();
    }

    fn hash(&self) -> (h: crate::hash::Hash) {
        let v = (*self).into_bytes();
        proof {
            lemma_auto_spec_u16_to_from_le_bytes();
        }
        hash(v.as_slice())
    }

    fn into_bytes(self) -> (r: Vec<u8>) {
        let mut v = zeros(2);
        le_write_u16(v.as_mut_slice(), self);
        assert(v@ =~= v@.subrange(0, 2));
        v
    }

    fn from_bytes(value: &[u8]) -> (r: Option<Self>) {
        if value.len() != 2 {
            return None;
        }
        proof {
            lemma_auto_spec_u16_to_from_le_bytes();
            assert(value@ =~= value@.subrange(0, 2));
        }
        Some(le_read_u16(value))
    }
}

impl StorageValue for u32 {
    open spec fn spec_bytes(&self) -> Seq<u8> {
        spec_u32_to_le_bytes(*self)
    }

    open spec fn is_encoding(bytes: Seq<u8>) -> bool {
        bytes.len() == 4
    }

    open spec fn spec_hash(bytes: Seq<u8>) -> Seq<u8> {
        sha256(bytes)
    }

    proof fn lemma_encoding(&self) {
        lemma_auto_spec_u32_to_from_le_bytes();
    }

    fn hash(&self) -> (h: crate::hash::Hash) {
        let v = (*self).into_bytes();
        proof {
            lemma_auto_spec_u32_to_from_le_bytes();
        }
        hash(v.as_slice())
    }

    fn into_bytes(self) -> (r: Vec<u8>) {
        let mut v = zeros(4);
        le_write_u32(v.as_mut_slice(), self);
        assert(v@ =~= v@.subrange(0, 4));
        v
    }

    fn from_bytes(value: &[u8]) -> (r: Option<Self>) {
        if value.len() != 4 {
            return None;
        }
        proof {
            lemma_auto_spec_u32_to_from_le_bytes();
            assert(value@ =~= value@.subrange(0, 4));
        }
        Some(le_read_u32(value))
    }
}

impl StorageValue for u64 {
    open spec fn spec_bytes(&self) -> Seq<u8> {
        spec_u64_to_le_bytes(*self)
    }

    open spec fn is_encoding(bytes: Seq<u8>) -> bool {
        bytes.len() == 8
    }

    open spec fn spec_hash(bytes: Seq<u8>) -> Seq<u8> {
        sha256(bytes)
    }

    proof fn lemma_encoding(&self) {
        lemma_auto_spec_u64_to_from_le_bytes();
    }

    fn hash(&self) -> (h: crate::hash::Hash) {
        let v = (*self).into_bytes();
        proof {
            lemma_auto_spec_u64_to_from_le_bytes();
        }
        hash(v.as_slice())
    }

    fn into_bytes(self) -> (r: Vec<u8>) {
        let mut v = zeros(8);
        le_write_u64(v.as_mut_slice(), self);
        assert(v@ =~= v@.subrange(0, 8));
        v
    }

    fn from_bytes(value: &[u8]) -> (r: Option<Self>) {
        if value.len() != 8 {
            return None;
        }
        proof {
            lemma_auto_spec_u64_to_from_le_bytes();
            assert(value@ =~= value@.subrange(0, 8));
        }
        Some(le_read_u64(value))
    }
}

impl StorageValue for i16 {
    open spec fn spec_bytes(&self) -> Seq<u8> {
        spec_u16_to_le_bytes(*self as u16)
    }

    open spec fn is_encoding(bytes: Seq<u8>) -> bool {
        bytes.len() == 2
    }

    open spec fn spec_hash(bytes: Seq<u8>) -> Seq<u8> {
        sha256(bytes)
    }

    proof fn lemma_encoding(&self) {
        lemma_auto_spec_u16_to_from_le_bytes();
    }

    fn hash(&self) -> (h: crate::hash::Hash) {
        let v = (*self).into_bytes();
        proof {
            lemma_auto_spec_u16_to_from_le_bytes();
        }
        hash(v.as_slice())
    }

    fn into_bytes(self) -> (r: Vec<u8>) {
        let mut v = zeros(2);
        le_write_u16(v.as_mut_slice(), self as u16);
        assert(v@ =~= v@.subrange(0, 2));
        v
    }

    fn from_bytes(value: &[u8]) -> (r: Option<Self>) {
        if value.len() != 2 {
            return None;
        }
        proof {
            lemma_auto_spec_u16_to_from_le_bytes();
            assert(value@ =~= value@.subrange(0, 2));
        }
        let n: u16 = le_read_u16(value);
        let v: i16 = n as i16;
        assert(v as u16 == n) by (bit_vector)
            requires
                v == n as i16,
        ;
        Some(v)
    }
}

impl StorageValue for i32 {
    open spec fn spec_bytes(&self) -> Seq<u8> {
        spec_u32_to_le_bytes(*self as u32)
    }

    open spec fn is_encoding(bytes: Seq<u8>) -> bool {
        bytes.len() == 4
    }

    open spec fn spec_hash(bytes: Seq<u8>) -> Seq<u8> {
        sha256(bytes)
    }

    proof fn lemma_encoding(&self) {
        lemma_auto_spec_u32_to_from_le_bytes();
    }

    fn hash(&self) -> (h: crate::hash::Hash) {
        let v = (*self).into_bytes();
        proof {
            lemma_auto_spec_u32_to_from_le_bytes();
        }
        hash(v.as_slice())
    }

    fn into_bytes(self) -> (r: Vec<u8>) {
        let mut v = zeros(4);
        le_write_u32(v.as_mut_slice(), self as u32);
        assert(v@ =~= v@.subrange(0, 4));
        v
    }

    fn from_bytes(value: &[u8]) -> (r: Option<Self>) {
        if value.len() != 4 {
            return None;
        }
        proof {
            lemma_auto_spec_u32_to_from_le_bytes();
            assert(value@ =~= value@.subrange(0, 4));
        }
        let n: u32 = le_read_u32(value);
        let v: i32 = n as i32;
        assert(v as u32 == n) by (bit_vector)
            requires
                v == n as i32,
        ;
        Some(v)
    }
}

impl StorageValue for i64 {
    open spec fn spec_bytes(&self) -> Seq<u8> {
        spec_u64_to_le_bytes(*self as u64)
    }

    open spec fn is_encoding(bytes: Seq<u8>) -> bool {
        bytes.len() == 8
    }

    open spec fn spec_hash(bytes: Seq<u8>) -> Seq<u8> {
        sha256(bytes)
    }

    proof fn lemma_encoding(&self) {
        lemma_auto_spec_u64_to_from_le_bytes();
    }

    fn hash(&self) -> (h: crate::hash::Hash) {
        let v = (*self).into_bytes();
        proof {
            lemma_auto_spec_u64_to_from_le_bytes();
        }
        hash(v.as_slice())
    }

    fn into_bytes(self) -> (r: Vec<u8>) {
        let mut v = zeros(8);
        le_write_u64(v.as_mut_slice(), self as u64);
        assert(v@ =~= v@.subrange(0, 8));
        v
    }

    fn from_bytes(value: &[u8]) -> (r: Option<Self>) {
        if value.len() != 8 {
            return None;
        }
        proof {
            lemma_auto_spec_u64_to_from_le_bytes();
            assert(value@ =~= value@.subrange(0, 8));
        }
        let n: u64 = le_read_u64(value);
        let v: i64 = n as i64;
        assert(v as u64 == n) by (bit_vector)
            requires
                v == n as i64,
        ;
        Some(v)
    }
}

impl StorageValue for crate::hash::Hash {
    open spec fn spec_bytes(&self) -> Seq<u8> {
        self@
    }

    open spec fn is_encoding(bytes: Seq<u8>) -> bool {
        bytes.len() == 32
    }

    open spec fn spec_hash(bytes: Seq<u8>) -> Seq<u8> {
        bytes
    }

    proof fn lemma_encoding(&self) {
        self.lemma_view();
    }

    fn hash(&self) -> (h: crate::hash::Hash) {
        *self
    }

    fn into_bytes(self) -> (r: Vec<u8>) {
        self.to_vec()
    }

    fn from_bytes(value: &[u8]) -> (r: Option<Self>) {
        crate::hash::Hash::from_slice(value)
    }
}

impl StorageValue for Vec<u8> {
    open spec fn spec_bytes(&self) -> Seq<u8> {
        self@
    }

    open spec fn is_encoding(bytes: Seq<u8>) -> bool {
        true
    }

    open spec fn spec_hash(bytes: Seq<u8>) -> Seq<u8> {
        sha256(bytes)
    }

    proof fn lemma_encoding(&self) {
    }

    fn hash(&self) -> (h: crate::hash::Hash) {
        hash(self.as_slice())
    }

    fn into_bytes(self) -> (r: Vec<u8>) {
        self
    }

    fn from_bytes(value: &[u8]) -> (r: Option<Self>) {
        Some(vstd::slice::slice_to_vec(value))
    }
}

impl StorageValue for String {
    open spec fn spec_bytes(&self) -> Seq<u8> {
        encode_utf8(self@)
    }

    open spec fn is_encoding(bytes: Seq<u8>) -> bool {
        valid_utf8(bytes)
    }

    open spec fn spec_hash(bytes: Seq<u8>) -> Seq<u8> {
        sha256(bytes)
    }

    proof fn lemma_encoding(&self) {
        vstd::utf8::encode_utf8_valid_utf8(self@);
    }

    fn hash(&self) -> (h: crate::hash::Hash) {
        hash(self.as_str().as_bytes())
    }

    fn into_bytes(self) -> (r: Vec<u8>) {
        vstd::slice::slice_to_vec(self.as_str().as_bytes())
    }

    fn from_bytes(value: &[u8]) -> (r: Option<Self>) {
        proof {
            if valid_utf8(value@) {
                vstd::utf8::decode_utf8_encode_utf8(value@);
            }
        }
        crate::keys::string_from_bytes(value)
    }
}

} // verus!
