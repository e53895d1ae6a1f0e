//! Bit-level facts about bytes and byte strings.
//!
//! Bits are numbered from the least significant one: bit `j` of a byte is
//! `(b >> j) & 1`, and bit `p` of a byte string is bit `p % 8` of byte `p / 8`.

use vstd::prelude::*;

verus! {

/// Bit `j` (counted from the least significant one) of the byte `b`.
pub open spec fn byte_bit(b: u8, j: int) -> bool {
    (b >> (j as u8)) & 1u8 == 1u8
}

/// Bit `pos` of the byte string `key`.
pub open spec fn key_bit(key: Seq<u8>, pos: int) -> bool {
    byte_bit(key[pos / 8], pos % 8)
}

/// The byte `b` with every bit at position `keep` and above cleared.
pub open spec fn low_bits(b: u8, keep: int) -> u8 {
    if keep >= 8 {
        b
    } else if keep <= 0 {
        0u8
    } else {
        b & !(255u8 << (keep as u8))
    }
}

/// The byte `b` with every bit below position `from` cleared.
pub open spec fn high_bits(b: u8, from: int) -> u8 {
    if from <= 0 {
        b
    } else if from >= 8 {
        0u8
    } else {
        (b >> (from as u8)) << (from as u8)
    }
}

pub proof fn lemma_xor_bit(a: u8, b: u8, j: u8)
    by (bit_vector)
    requires
        j < 8,
    ensures
        ((a ^ b) >> j) & 1u8 == 1u8 <==> (((a >> j) & 1u8 == 1u8) != ((b >> j) & 1u8 == 1u8)),
{
}

pub proof fn lemma_bit_is_zero_or_one(a: u8, j: u8)
    by (bit_vector)
    requires
        j < 8,
    ensures
        (a >> j) & 1u8 == 0u8 || (a >> j) & 1u8 == 1u8,
{
}

pub proof fn lemma_low_mask_bit(b: u8, keep: u8, j: u8)
    by (bit_vector)
    requires
        0 < keep < 8,
        j < 8,
    ensures
        ((b & !(255u8 << keep)) >> j) & 1u8 == 1u8 <==> (j < keep && (b >> j) & 1u8 == 1u8),
{
}

pub proof fn lemma_high_mask_bit(b: u8, from: u8, j: u8)
    by (bit_vector)
    requires
        0 < from < 8,
        j < 8,
    ensures
        (((b >> from) << from) >> j) & 1u8 == 1u8 <==> (j >= from && (b >> j) & 1u8 == 1u8),
{
}

pub proof fn lemma_zero_bit(j: u8)
    by (bit_vector)
    requires
        j < 8,
    ensures
        (0u8 >> j) & 1u8 == 0u8,
{
}

pub proof fn lemma_bits_determine_byte(a: u8, b: u8)
    by (bit_vector)
    requires
        (a >> 0u8) & 1u8 == (b >> 0u8) & 1u8,
        (a >> 1u8) & 1u8 == (b >> 1u8) & 1u8,
        (a >> 2u8) & 1u8 == (b >> 2u8) & 1u8,
        (a >> 3u8) & 1u8 == (b >> 3u8) & 1u8,
        (a >> 4u8) & 1u8 == (b >> 4u8) & 1u8,
        (a >> 5u8) & 1u8 == (b >> 5u8) & 1u8,
        (a >> 6u8) & 1u8 == (b >> 6u8) & 1u8,
        (a >> 7u8) & 1u8 == (b >> 7u8) & 1u8,
    ensures
        a == b,
{
}

/// Bit `j` of `low_bits(b, keep)` is bit `j` of `b` below `keep`, and clear from there on.
pub proof fn lemma_low_bits(b: u8, keep: int, j: int)
    requires
        0 <= j < 8,
    ensures
        byte_bit(low_bits(b, keep), j) == (j < keep && byte_bit(b, j)),
{
    if keep >= 8 {
    } else if keep <= 0 {
        lemma_zero_bit(j as u8);
    } else {
        lemma_low_mask_bit(b, keep as u8, j as u8);
    }
}

/// Bit `j` of `high_bits(b, from)` is bit `j` of `b` from `from` on, and clear below.
pub proof fn lemma_high_bits(b: u8, from: int, j: int)
    requires
        0 <= j < 8,
    ensures
        byte_bit(high_bits(b, from), j) == (j >= from && byte_bit(b, j)),
{
    if from <= 0 {
    } else if from >= 8 {
        lemma_zero_bit(j as u8);
    } else {
        lemma_high_mask_bit(b, from as u8, j as u8);
    }
}

/// Bit `j` of `a ^ b` is set exactly where `a` and `b` differ.
pub proof fn lemma_xor_differs(a: u8, b: u8, j: int)
    requires
        0 <= j < 8,
    ensures
        byte_bit(a ^ b, j) == (byte_bit(a, j) != byte_bit(b, j)),
{
    lemma_xor_bit(a, b, j as u8);
}

/// Two bytes with the same eight bits are equal.
pub proof fn lemma_byte_ext(a: u8, b: u8)
    requires
        forall|j: int| 0 <= j < 8 ==> byte_bit(a, j) == byte_bit(b, j),
    ensures
        a == b,
{
    assert forall|j: u8| j < 8 implies (a >> j) & 1u8 == (b >> j) & 1u8 by {
        assert(byte_bit(a, j as int) == byte_bit(b, j as int));
        lemma_bit_is_zero_or_one(a, j);
        lemma_bit_is_zero_or_one(b, j);
    }
    lemma_bits_determine_byte(a, b);
}

pub proof fn lemma_and_bit(a: u8, b: u8, j: u8)
    by (bit_vector)
    requires
        j < 8,
    ensures
        ((a & b) >> j) & 1u8 == 1u8 <==> ((a >> j) & 1u8 == 1u8 && (b >> j) & 1u8 == 1u8),
{
}

pub proof fn lemma_submask_le(a: u8, b: u8)
    by (bit_vector)
    requires
        a & b == a,
    ensures
        a <= b,
{
}

/// A byte whose set bits are all set in another byte is not greater than
/// that byte.
pub proof fn lemma_bits_le(a: u8, b: u8)
    requires
        forall|j: int| 0 <= j < 8 && byte_bit(a, j) ==> byte_bit(b, j),
    ensures
        a <= b,
{
    assert forall|j: int| 0 <= j < 8 implies byte_bit(a & b, j) == byte_bit(a, j) by {
        lemma_and_bit(a, b, j as u8);
    }
    lemma_byte_ext(a & b, a);
    lemma_submask_le(a, b);
}

} // verus!
