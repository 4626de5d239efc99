//! Binary feature descriptors and their Hamming distance.

use bitarray::BitArray;
use vstd::prelude::*;

verus! {

/// Number of bytes in a descriptor.
pub const DESCRIPTOR_BYTES: usize = 64;

/// A fixed-width binary fingerprint of a local image feature.
pub type Descriptor = [u8; DESCRIPTOR_BYTES];

/// Number of bits that are set in `byte`.
pub open spec fn bit_count(byte: u8) -> nat
    decreases byte,
{
    if byte == 0 {
        0
    } else {
        (byte % 2) as nat + bit_count(byte / 2)
    }
}

/// Number of bit positions in which `a` and `b` differ, over the bytes that
/// both have.
pub open spec fn hamming(a: Seq<u8>, b: Seq<u8>) -> nat
    decreases a.len(),
{
    if a.len() == 0 || b.len() == 0 {
        0
    } else {
        hamming(a.drop_last(), b.drop_last()) + bit_count(a.last() ^ b.last())
    }
}

/// Hamming distance of two descriptors, computed by
/// `bitarray::BitArray::distance`: the sum, over the 64 byte positions, of
/// the number of one bits in the exclusive or of the two bytes.
#[verifier::external_body]
pub(crate) fn distance(a: &Descriptor, b: &Descriptor) -> (d: u32)
    ensures
        d == hamming(a@, b@),
{
    BitArray::new(*a).distance(&BitArray::new(*b))
}

/// A byte differs from itself in no bit.
pub proof fn lemma_xor_self(x: u8)
    ensures
        x ^ x == 0,
{
    assert(x ^ x == 0) by (bit_vector);
}

/// Two bytes that differ in no bit are the same byte.
pub proof fn lemma_xor_zero(x: u8, y: u8)
    requires
        x ^ y == 0,
    ensures
        x == y,
{
    assert(x ^ y == 0 ==> x == y) by (bit_vector);
}

/// Only the zero byte has no bit set.
pub proof fn lemma_bit_count_zero(byte: u8)
    ensures
        bit_count(byte) == 0 <==> byte == 0,
    decreases byte,
{
    if byte != 0 {
        lemma_bit_count_zero(byte / 2);
    }
}

/// The Hamming distance is zero exactly between equal sequences of bytes.
pub proof fn lemma_hamming_zero(a: Seq<u8>, b: Seq<u8>)
    requires
        a.len() == b.len(),
    ensures
        hamming(a, b) == 0 <==> a == b,
    decreases a.len(),
{
    if a.len() == 0 {
        assert(a =~= b);
    } else {
        lemma_hamming_zero(a.drop_last(), b.drop_last());
        lemma_bit_count_zero(a.last() ^ b.last());
        if a == b {
            lemma_xor_self(a.last());
        }
        if hamming(a, b) == 0 {
            lemma_xor_zero(a.last(), b.last());
            assert(a =~= a.drop_last().push(a.last()));
            assert(b =~= b.drop_last().push(b.last()));
        }
    }
}

/// Two to the power `k`.
pub open spec fn two_to(k: nat) -> int
    decreases k,
{
    if k == 0 {
        1
    } else {
        2 * two_to((k - 1) as nat)
    }
}

/// A byte below `2^k` has at most `k` bits set.
pub proof fn lemma_bit_count_bound(byte: u8, k: nat)
    requires
        byte < two_to(k),
    ensures
        bit_count(byte) <= k,
    decreases k,
{
    if byte != 0 {
        lemma_bit_count_bound(byte / 2, (k - 1) as nat);
    }
}

/// Two sequences of bytes differ in at most eight bits for each byte.
pub proof fn lemma_hamming_bound(a: Seq<u8>, b: Seq<u8>)
    ensures
        hamming(a, b) <= 8 * a.len(),
    decreases a.len(),
{
    if a.len() != 0 && b.len() != 0 {
        lemma_hamming_bound(a.drop_last(), b.drop_last());
        reveal_with_fuel(two_to, 9);
        lemma_bit_count_bound(a.last() ^ b.last(), 8);
    }
}

} // verus!
