use vstd::prelude::*;

verus! {

/// The ChaCha generator with eight rounds from `rand_chacha`; opaque to proofs.
#[verifier::external_type_specification]
#[verifier::external_body]
pub struct ExChaCha8Rng(rand_chacha::ChaCha8Rng);

/// Calls `rand::SeedableRng::seed_from_u64` for `ChaCha8Rng`.
/// Nothing is stated of the generator it returns: its state is opaque.
#[verifier::external_body]
pub(crate) fn seeded_rng(seed: u64) -> rand_chacha::ChaCha8Rng {
    <rand_chacha::ChaCha8Rng as rand::SeedableRng>::seed_from_u64(seed)
}

/// Calls `rand::Rng::random::<bool>` (formerly `gen`), which takes the sign
/// bit of the generator's next 32-bit word. The value drawn is the
/// generator's next pseudo-random output and is left unstated.
#[verifier::external_body]
pub(crate) fn draw_bool(rng: &mut rand_chacha::ChaCha8Rng) -> bool {
    rand::Rng::random::<bool>(rng)
}

/// Calls `rand::RngCore::next_u64`: the generator's next 64-bit word, which
/// is also what `rand::Rng::random::<u64>` returns. Its value is left unstated.
#[verifier::external_body]
pub(crate) fn draw_u64(rng: &mut rand_chacha::ChaCha8Rng) -> u64 {
    rand::RngCore::next_u64(rng)
}

/// Odd constant (the golden ratio scaled to 64 bits) that spreads the
/// seeds of successive chunks.
pub const SEED_STRIDE: u64 = 0x9E37_79B9_7F4A_7C15;

/// Seed of the generator of chunk `chunk_idx`: `seed + chunk_idx * SEED_STRIDE`,
/// wrapping.
pub open spec fn chunk_seed_spec(seed: u64, chunk_idx: u64) -> u64 {
    vstd::wrapping::u64_specs::wrapping_add(seed, vstd::wrapping::u64_specs::wrapping_mul(chunk_idx, SEED_STRIDE))
}

/// Seed of the generator of chunk `chunk_idx`.
pub fn chunk_seed(seed: u64, chunk_idx: usize) -> (r: u64)
    ensures
        r == chunk_seed_spec(seed, chunk_idx as u64),
{
    seed.wrapping_add((chunk_idx as u64).wrapping_mul(SEED_STRIDE))
}

/// Number of values of a 53-bit fraction: `random::<f64>()` returns
/// `(next_u64() >> 11) / 2^53`.
pub const UNIT_SCALE: u64 = 0x20_0000_0000_0000;

/// A 64-bit word drawn as `f64` falls below the probability that
/// `threshold / 2^53` stands for: its top 53 bits are below `threshold`.
/// `random::<f64>() < p` is this test with `threshold = ceil(p * 2^53)`.
pub open spec fn unit_below(word: u64, threshold: u64) -> bool {
    word / 2048 < threshold
}

/// Decides `unit_below(word, threshold)`.
pub fn draw_below(word: u64, threshold: u64) -> (r: bool)
    ensures
        r == unit_below(word, threshold),
{
    assert(word >> 11u64 == word / 2048) by (bit_vector);
    (word >> 11u64) < threshold
}

/// Every word falls below the full scale, and none below zero.
pub proof fn lemma_unit_below_bounds(word: u64, threshold: u64)
    ensures
        threshold >= UNIT_SCALE ==> unit_below(word, threshold),
        threshold == 0 ==> !unit_below(word, threshold),
{
}

} // verus!
