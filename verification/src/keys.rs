//! Serialization of index keys.
//!
//! A key is stored as a byte string whose lexicographic order is the order in
//! which an index is walked.

use vstd::bytes::{
    lemma_auto_spec_u32_to_from_le_bytes, lemma_auto_spec_u64_to_from_le_bytes,
    spec_u32_from_le_bytes, spec_u32_to_le_bytes, spec_u64_from_le_bytes, spec_u64_to_le_bytes,
};
use vstd::prelude::*;
use vstd::utf8::{decode_utf8, encode_utf8, valid_utf8};

verus! {

/// The four bytes of `n`, most significant first.
pub open spec fn be_bytes_u32(n: u32) -> Seq<u8> {
    spec_u32_to_le_bytes(n).reverse()
}

/// The eight bytes of `n`, most significant first.
pub open spec fn be_bytes_u64(n: u64) -> Seq<u8> {
    spec_u64_to_le_bytes(n).reverse()
}

/// `byteorder::BigEndian::write_u32`: stores `n` in the first four bytes of
/// `buf`, most significant byte first, and leaves the rest as it was. It
/// panics on a shorter buffer.
#[verifier::external_body]
fn be_write_u32(buf: &mut [u8], n: u32)
    requires
        old(buf)@.len() >= 4,
    ensures
        final(buf)@.len() == old(buf)@.len(),
        final(buf)@.subrange(0, 4) == be_bytes_u32(n),
        final(buf)@.subrange(4, old(buf)@.len() as int) == old(buf)@.subrange(
            4,
            old(buf)@.len() as int,
        ),
{
    <byteorder::BigEndian as byteorder::ByteOrder>::write_u32(buf, n)
}

/// `byteorder::BigEndian::write_u64`: stores `n` in the first eight bytes of
/// `buf`, most significant byte first, and leaves the rest as it was. It
/// panics on a shorter buffer.
#[verifier::external_body]
fn be_write_u64(buf: &mut [u8], n: u64)
    requires
        old(buf)@.len() >= 8,
    ensures
        final(buf)@.len() == old(buf)@.len(),
        final(buf)@.subrange(0, 8) == be_bytes_u64(n),
        final(buf)@.subrange(8, old(buf)@.len() as int) == old(buf)@.subrange(
            8,
            old(buf)@.len() as int,
        ),
{
    <byteorder::BigEndian as byteorder::ByteOrder>::write_u64(buf, n)
}

/// `byteorder::BigEndian::read_u32`: the number that the first four bytes
/// of `buf` hold, most significant byte first. It panics on a shorter
/// buffer.
#[verifier::external_body]
fn be_read_u32(buf: &[u8]) -> (n: u32)
    requires
        buf@.len() >= 4,
    ensures
        n == spec_u32_from_le_bytes(buf@.subrange(0, 4).reverse()),
{
    <byteorder::BigEndian as byteorder::ByteOrder>::read_u32(buf)
}

/// `byteorder::BigEndian::read_u64`: the number that the first eight bytes
/// of `buf` hold, most significant byte first. It panics on a shorter
/// buffer.
#[verifier::external_body]
fn be_read_u64(buf: &[u8]) -> (n: u64)
    requires
        buf@.len() >= 8,
    ensures
        n == spec_u64_from_le_bytes(buf@.subrange(0, 8).reverse()),
{
    <byteorder::BigEndian as byteorder::ByteOrder>::read_u64(buf)
}

/// `String::from_utf8` on a copy of `bytes`: the string that they encode;
/// `None` where they are not valid UTF-8.
#[verifier::external_body]
pub(crate) fn string_from_bytes(bytes: &[u8]) -> (r: Option<String>)
    ensures
        r is Some <==> valid_utf8(bytes@),
        r matches Some(s) ==> s@ == decode_utf8(bytes@),
{
    String::from_utf8(bytes.to_vec()).ok()
}

/// Reversing a byte string twice gives it back.
pub proof fn lemma_reverse_twice(s: Seq<u8>)
    ensures
        s.reverse().reverse() == s,
        s.reverse().len() == s.len(),
{
    assert(s.reverse().reverse() =~= s);
}

/// A type that can serve as a key of an index.
pub trait StorageKey: Sized {
    /// The byte string that stands for the key in the store.
    spec fn spec_bytes(&self) -> Seq<u8>;

    /// Whether `bytes` is the encoding of some key of this type.
    spec fn is_encoding(bytes: Seq<u8>) -> bool;

    /// What a key is written as is an encoding.
    proof fn lemma_encoding(&self)
        ensures
            Self::is_encoding(self.spec_bytes()),
    ;

    /// Number of bytes in the encoding of the key.
    fn size(&self) -> (n: usize)
        ensures
            n == self.spec_bytes().len(),
    ;

    /// Writes the encoding of the key over the whole of `buffer`.
    fn write(&self, buffer: &mut [u8])
        requires
            old(buffer)@.len() == self.spec_bytes().len(),
        ensures
            final(buffer)@ == self.spec_bytes(),
    ;

    /// Decodes a key; `None` where `buffer` is the encoding of no key.
    fn read(buffer: &[u8]) -> (r: Option<Self>)
        ensures
            r is Some <==> Self::is_encoding(buffer@),
            r matches Some(k) ==> k.spec_bytes() == buffer@,
    ;
}

/// Copies `src` over the whole of `dst`.
pub fn copy_bytes(src: &[u8], dst: &mut [u8])
    requires
        old(dst)@.len() == src@.len(),
    ensures
        final(dst)@ == src@,
{
    let n: usize = src.len();
    let mut i: usize = 0;
    while i < n
        invariant
            n == src@.len(),
            dst@.len() == n,
            i <= n,
            forall|j: int| 0 <= j < i ==> dst@[j] == src@[j],
        decreases n - i,
    {
        dst[i] = src[i];
        i += 1;
    }
    assert(dst@ =~= src@);
}

/// The encoding of `key` as a vector of its own.
pub fn key_bytes<K: StorageKey>(key: &K) -> (r: Vec<u8>)
    ensures
        r@ == key.spec_bytes(),
{
    let n: usize = key.size();
    let mut buffer: Vec<u8> = Vec::new();
    let mut i: usize = 0;
    while i < n
        invariant
            i <= n,
            buffer@.len() == i,
        decreases n - i,
    {
        buffer.push(0u8);
        i += 1;
    }
    key.write(buffer.as_mut_slice());
    buffer
}

impl StorageKey for [u8; 32] {
    open spec fn spec_bytes(&self) -> Seq<u8> {
        self@
    }

    open spec fn is_encoding(bytes: Seq<u8>) -> bool {
        bytes.len() == 32
    }

    proof fn lemma_encoding(&self) {
    }

    fn size(&self) -> (n: usize) {
        32
    }

    fn write(&self, buffer: &mut [u8]) {
        copy_bytes(self.as_slice(), buffer);
    }

    fn read(buffer: &[u8]) -> (r: Option<Self>) {
        if buffer.len() != 32 {
            return None;
        }
        let mut value = [0u8; 32];
        copy_bytes(buffer, &mut value);
        Some(value)
    }
}

impl StorageKey for () {
    open spec fn spec_bytes(&self) -> Seq<u8> {
        Seq::empty()
    }

    open spec fn is_encoding(bytes: Seq<u8>) -> bool {
        bytes.len() == 0
    }

    proof fn lemma_encoding(&self) {
    }

    fn size(&self) -> (n: usize) {
        0
    }

    fn write(&self, buffer: &mut [u8]) {
        assert(buffer@ =~= Seq::<u8>::empty());
    }

    fn read(buffer: &[u8]) -> (r: Option<Self>) {
        if buffer.len() == 0 {
            assert(buffer@ =~= Seq::<u8>::empty());
            Some(())
        } else {
            None
        }
    }
}

impl StorageKey for u8 {
    open spec fn spec_bytes(&self) -> Seq<u8> {
        seq![*self]
    }

    open spec fn is_encoding(bytes: Seq<u8>) -> bool {
        bytes.len() == 1
    }

    proof fn lemma_encoding(&self) {
    }

    fn size(&self) -> (n: usize) {
        1
    }

    fn write(&self, buffer: &mut [u8]) {
        buffer[0] = *self;
        assert(buffer@ =~= seq![*self]);
    }

    fn read(buffer: &[u8]) -> (r: Option<Self>) {
        if buffer.len() == 1 {
            assert(buffer@ =~= seq![buffer@[0]]);
            Some(buffer[0])
        } else {
            None
        }
    }
}

impl StorageKey for u32 {
    open spec fn spec_bytes(&self) -> Seq<u8> {
        be_bytes_u32(*self)
    }

    open spec fn is_encoding(bytes: Seq<u8>) -> bool {
        bytes.len() == 4
    }

    proof fn lemma_encoding(&self) {
        lemma_auto_spec_u32_to_from_le_bytes();
    }

    fn size(&self) -> (n: usize) {
        proof {
            lemma_auto_spec_u32_to_from_le_bytes();
        }
        4
    }

    fn write(&self, buffer: &mut [u8]) {
        proof {
            lemma_auto_spec_u32_to_from_le_bytes();
        }
        be_write_u32(buffer, *self);
        assert(buffer@ =~= buffer@.subrange(0, 4));
    }

    fn read(buffer: &[u8]) -> (r: Option<Self>) {
        if buffer.len() != 4 {
            return None;
        }
        proof {
            lemma_auto_spec_u32_to_from_le_bytes();
            assert(buffer@ =~= buffer@.subrange(0, 4));
            lemma_reverse_twice(buffer@);
        }
        Some(be_read_u32(buffer))
    }
}

impl StorageKey for u64 {
    open spec fn spec_bytes(&self) -> Seq<u8> {
        be_bytes_u64(*self)
    }

    open spec fn is_encoding(bytes: Seq<u8>) -> bool {
        bytes.len() == 8
    }

    proof fn lemma_encoding(&self) {
        lemma_auto_spec_u64_to_from_le_bytes();
    }

    fn size(&self) -> (n: usize) {
        proof {
            lemma_auto_spec_u64_to_from_le_bytes();
        }
        8
    }

    fn write(&self, buffer: &mut [u8]) {
        proof {
            lemma_auto_spec_u64_to_from_le_bytes();
        }
        be_write_u64(buffer, *self);
        assert(buffer@ =~= buffer@.subrange(0, 8));
    }

    fn read(buffer: &[u8]) -> (r: Option<Self>) {
        if buffer.len() != 8 {
            return None;
        }
        proof {
            lemma_auto_spec_u64_to_from_le_bytes();
            assert(buffer@ =~= buffer@.subrange(0, 8));
            lemma_reverse_twice(buffer@);
        }
        Some(be_read_u64(buffer))
    }
}

impl StorageKey for Vec<u8> {
    open spec fn spec_bytes(&self) -> Seq<u8> {
        self@
    }

    open spec fn is_encoding(bytes: Seq<u8>) -> bool {
        true
    }

    proof fn lemma_encoding(&self) {
    }

    fn size(&self) -> (n: usize) {
        self.len()
    }

    fn write(&self, buffer: &mut [u8]) {
        copy_bytes(self.as_slice(), buffer);
    }

    fn read(buffer: &[u8]) -> (r: Option<Self>) {
        Some(vstd::slice::slice_to_vec(buffer))
    }
}

impl StorageKey for String {
    open spec fn spec_bytes(&self) -> Seq<u8> {
        encode_utf8(self@)
    }

    open spec fn is_encoding(bytes: Seq<u8>) -> bool {
        valid_utf8(bytes)
    }

    proof fn lemma_encoding(&self) {
        vstd::utf8::encode_utf8_valid_utf8(self@);
    }

    fn size(&self) -> (n: usize) {
        self.as_str().as_bytes().len()
    }

    fn write(&self, buffer: &mut [u8]) {
        copy_bytes(self.as_str().as_bytes(), buffer);
    }

    fn read(buffer: &[u8]) -> (r: Option<Self>) {
        proof {
            if valid_utf8(buffer@) {
                vstd::utf8::decode_utf8_encode_utf8(buffer@);
            }
        }
        string_from_bytes(buffer)
    }
}

impl StorageKey for crate::hash::Hash {
    open spec fn spec_bytes(&self) -> Seq<u8> {
        self@
    }

    open spec fn is_encoding(bytes: Seq<u8>) -> bool {
        bytes.len() == 32
    }

    proof fn lemma_encoding(&self) {
        self.lemma_view();
    }

    fn size(&self) -> (n: usize) {
        proof {
            self.lemma_view();
        }
        32
    }

    fn write(&self, buffer: &mut [u8]) {
        proof {
            self.lemma_view();
        }
        copy_bytes(self.as_bytes(), buffer);
    }

    fn read(buffer: &[u8]) -> (r: Option<Self>) {
        crate::hash::Hash::from_slice(buffer)
    }
}

} // verus!
