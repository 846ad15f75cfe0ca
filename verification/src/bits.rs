use vstd::prelude::*;

verus! {

/// Bit `b` (counted from the least significant end) of the word `w`.
pub open spec fn word_bit(w: u64, b: u64) -> bool {
    w & (1u64 << b) != 0
}

/// Bit `i` of a little-endian packed bit string: bit `i % 64` of word `i / 64`.
pub open spec fn packed_bit(words: Seq<u64>, i: int) -> bool {
    word_bit(words[i / 64], (i % 64) as u64)
}

/// The word whose low `r` bits are set.
pub open spec fn low_mask(r: u64) -> u64 {
    ((1u64 << r) - 1) as u64
}

/// `(1 << r) - 1` for `r < 64`.
pub fn low_mask_exec(r: u64) -> (mask: u64)
    requires
        r < 64,
    ensures
        mask == low_mask(r),
{
    assert(1u64 << r >= 1) by (bit_vector)
        requires r < 64;
    (1u64 << r) - 1
}

/// Tests bit `b` of `w`.
pub fn test_bit(w: u64, b: u64) -> (r: bool)
    requires
        b < 64,
    ensures
        r == word_bit(w, b),
{
    w & (1u64 << b) != 0
}

/// The zero word has no bit set.
pub proof fn lemma_bit_zero(b: u64)
    requires
        b < 64,
    ensures
        !word_bit(0, b),
{
    assert(0u64 & (1u64 << b) == 0) by (bit_vector);
}

/// Setting bit `j` sets exactly that bit and keeps the others.
pub proof fn lemma_bit_set_one(w: u64, j: u64, k: u64)
    requires
        j < 64,
        k < 64,
    ensures
        word_bit(w | (1u64 << j), k) == (word_bit(w, k) || k == j),
{
    assert((w | (1u64 << j)) & (1u64 << k) != 0 <==> (w & (1u64 << k) != 0 || k == j)) by (bit_vector)
        requires j < 64, k < 64;
}

/// A bit of an OR is set when it is set in either word.
pub proof fn lemma_bit_or(a: u64, b: u64, k: u64)
    requires
        k < 64,
    ensures
        word_bit(a | b, k) == (word_bit(a, k) || word_bit(b, k)),
{
    assert((a | b) & (1u64 << k) != 0 <==> (a & (1u64 << k) != 0 || b & (1u64 << k) != 0)) by (bit_vector)
        requires k < 64;
}

/// A bit of an XOR is set when the two words differ there.
pub proof fn lemma_bit_xor(a: u64, b: u64, k: u64)
    requires
        k < 64,
    ensures
        word_bit(a ^ b, k) == (word_bit(a, k) != word_bit(b, k)),
{
    assert((a ^ b) & (1u64 << k) != 0 <==> (a & (1u64 << k) != 0) != (b & (1u64 << k) != 0)) by (bit_vector)
        requires k < 64;
}

/// A word whose 64 bits are all clear is zero.
pub proof fn lemma_no_bits_zero(x: u64)
    requires
        forall|k: u64| k < 64 ==> !#[trigger] word_bit(x, k),
    ensures
        x == 0,
{
    assert forall|k: u64| k < 64 implies #[trigger] (x & (1u64 << k)) == 0 by {
        assert(!word_bit(x, k));
    }
    assert(
        x & (1u64 << 0u64) == 0 &&
        x & (1u64 << 1u64) == 0 &&
        x & (1u64 << 2u64) == 0 &&
        x & (1u64 << 3u64) == 0 &&
        x & (1u64 << 4u64) == 0 &&
        x & (1u64 << 5u64) == 0 &&
        x & (1u64 << 6u64) == 0 &&
        x & (1u64 << 7u64) == 0 &&
        x & (1u64 << 8u64) == 0 &&
        x & (1u64 << 9u64) == 0 &&
        x & (1u64 << 10u64) == 0 &&
        x & (1u64 << 11u64) == 0 &&
        x & (1u64 << 12u64) == 0 &&
        x & (1u64 << 13u64) == 0 &&
        x & (1u64 << 14u64) == 0 &&
        x & (1u64 << 15u64) == 0 &&
        x & (1u64 << 16u64) == 0 &&
        x & (1u64 << 17u64) == 0 &&
        x & (1u64 << 18u64) == 0 &&
        x & (1u64 << 19u64) == 0 &&
        x & (1u64 << 20u64) == 0 &&
        x & (1u64 << 21u64) == 0 &&
        x & (1u64 << 22u64) == 0 &&
        x & (1u64 << 23u64) == 0 &&
        x & (1u64 << 24u64) == 0 &&
        x & (1u64 << 25u64) == 0 &&
        x & (1u64 << 26u64) == 0 &&
        x & (1u64 << 27u64) == 0 &&
        x & (1u64 << 28u64) == 0 &&
        x & (1u64 << 29u64) == 0 &&
        x & (1u64 << 30u64) == 0 &&
        x & (1u64 << 31u64) == 0 &&
        x & (1u64 << 32u64) == 0 &&
        x & (1u64 << 33u64) == 0 &&
        x & (1u64 << 34u64) == 0 &&
        x & (1u64 << 35u64) == 0 &&
        x & (1u64 << 36u64) == 0 &&
        x & (1u64 << 37u64) == 0 &&
        x & (1u64 << 38u64) == 0 &&
        x & (1u64 << 39u64) == 0 &&
        x & (1u64 << 40u64) == 0 &&
        x & (1u64 << 41u64) == 0 &&
        x & (1u64 << 42u64) == 0 &&
        x & (1u64 << 43u64) == 0 &&
        x & (1u64 << 44u64) == 0 &&
        x & (1u64 << 45u64) == 0 &&
        x & (1u64 << 46u64) == 0 &&
        x & (1u64 << 47u64) == 0 &&
        x & (1u64 << 48u64) == 0 &&
        x & (1u64 << 49u64) == 0 &&
        x & (1u64 << 50u64) == 0 &&
        x & (1u64 << 51u64) == 0 &&
        x & (1u64 << 52u64) == 0 &&
        x & (1u64 << 53u64) == 0 &&
        x & (1u64 << 54u64) == 0 &&
        x & (1u64 << 55u64) == 0 &&
        x & (1u64 << 56u64) == 0 &&
        x & (1u64 << 57u64) == 0 &&
        x & (1u64 << 58u64) == 0 &&
        x & (1u64 << 59u64) == 0 &&
        x & (1u64 << 60u64) == 0 &&
        x & (1u64 << 61u64) == 0 &&
        x & (1u64 << 62u64) == 0 &&
        x & (1u64 << 63u64) == 0
        ==> x == 0) by (bit_vector);
}

/// A word is determined by its 64 bits.
pub proof fn lemma_bits_determine_word(a: u64, b: u64)
    requires
        forall|k: u64| k < 64 ==> #[trigger] word_bit(a, k) == word_bit(b, k),
    ensures
        a == b,
{
    let x = a ^ b;
    assert forall|k: u64| k < 64 implies !#[trigger] word_bit(x, k) by {
        assert(word_bit(a, k) == word_bit(b, k));
        lemma_bit_xor(a, b, k);
    }
    lemma_no_bits_zero(x);
    assert(a ^ b == 0 ==> a == b) by (bit_vector);
}

/// Zero is the identity of XOR.
pub proof fn lemma_xor_zero(a: u64)
    ensures
        a ^ 0 == a,
        0 ^ a == a,
{
    assert(a ^ 0 == a && 0 ^ a == a) by (bit_vector);
}

/// XOR is associative.
pub proof fn lemma_xor_assoc(a: u64, b: u64, c: u64)
    ensures
        (a ^ b) ^ c == a ^ (b ^ c),
{
    assert((a ^ b) ^ c == a ^ (b ^ c)) by (bit_vector);
}

/// The middle operands of a pair of XORs can be exchanged.
pub proof fn lemma_xor_swap(a: u64, b: u64, c: u64, d: u64)
    ensures
        (a ^ b) ^ (c ^ d) == (a ^ c) ^ (b ^ d),
{
    assert((a ^ b) ^ (c ^ d) == (a ^ c) ^ (b ^ d)) by (bit_vector);
}

} // verus!
