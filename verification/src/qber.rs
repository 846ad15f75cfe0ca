use vstd::prelude::*;

use crate::chunks::{
    ceil_div, chunk_bounds, chunk_count, chunk_end, chunk_size, chunk_start, chunks_covered,
    lemma_chunk_count_zero, lemma_chunk_start_in_range, lemma_chunks_tile,
};
use crate::parallel::{par_map_range, worker_count};
use crate::channel::SiftedKey;
use crate::photon::Bit;
use crate::ranges::{count_range, lemma_count_bound, lemma_count_split};

verus! {

/// The error-rate threshold 0.11, as the `f64` nearest to it:
/// `QBER_THRESHOLD_MANTISSA / 2^56`.
pub const QBER_THRESHOLD_MANTISSA: u128 = 7926335344172073;

/// `2^57`: twice the denominator of the threshold.
pub const QBER_THRESHOLD_SCALE: u128 = 0x200_0000_0000_0000;

/// Positions at which two bit strings differ.
pub open spec fn differs(a: Seq<Bit>, b: Seq<Bit>) -> spec_fn(int) -> bool {
    |i: int| a[i] != b[i]
}

/// Number of positions `lo <= i < hi` at which `a` and `b` differ.
pub open spec fn mismatches(a: Seq<Bit>, b: Seq<Bit>, lo: int, hi: int) -> nat {
    count_range(differs(a, b), lo, hi)
}

/// The error rate `errors / compared`, rounded to `f64`, exceeds the `f64`
/// threshold 0.11. The quotient rounds above `M / 2^56` exactly when it
/// lies above the midpoint `(2M + 1) / 2^57` between that value and the
/// next `f64` (no quotient of counts below `2^53` lies on the midpoint);
/// an empty comparison has rate 0.
pub open spec fn qber_exceeds(errors: int, compared: int) -> bool {
    errors * QBER_THRESHOLD_SCALE > (2 * QBER_THRESHOLD_MANTISSA + 1) * compared
}

/// Decides `qber_exceeds(errors, compared)`.
pub fn exceeds_threshold(errors: usize, compared: usize) -> (r: bool)
    ensures
        r == qber_exceeds(errors as int, compared as int),
{
    assert((errors as u128) * QBER_THRESHOLD_SCALE <= u128::MAX) by (nonlinear_arith)
        requires errors <= usize::MAX, usize::MAX <= u64::MAX;
    assert((2 * QBER_THRESHOLD_MANTISSA + 1) * (compared as u128) <= u128::MAX) by (nonlinear_arith)
        requires compared <= usize::MAX, usize::MAX <= u64::MAX;
    let lhs = (errors as u128) * QBER_THRESHOLD_SCALE;
    let rhs = (2 * QBER_THRESHOLD_MANTISSA + 1) * (compared as u128);
    lhs > rhs
}

/// Outcome of comparing Alice's and Bob's bits.
#[derive(Debug, Clone, Copy)]
pub struct QberResult {
    pub error_count: usize,
    pub total_compared: usize,
    pub threshold_exceeded: bool,
    pub sample_size: usize,
}

impl QberResult {
    /// The channel counts as secure: the error rate is within the threshold.
    pub open spec fn secure(&self) -> bool {
        !self.threshold_exceeded
    }

    /// Result of comparing the first `compared` bits of `a` and `b`.
    pub open spec fn of_prefix(&self, a: Seq<Bit>, b: Seq<Bit>, compared: int) -> bool {
        &&& self.error_count == mismatches(a, b, 0, compared)
        &&& self.total_compared == compared
        &&& self.sample_size == compared
        &&& self.threshold_exceeded == qber_exceeds(self.error_count as int, compared)
    }
}

/// Counts the positions below `len` at which `alice_bits` and `bob_bits`
/// differ, in chunks of at least `min_chunk` positions spread over the
/// worker threads.
pub(crate) fn count_errors_chunked(alice_bits: &[Bit], bob_bits: &[Bit], len: usize, min_chunk: usize) -> (errors: usize)
    requires
        len <= alice_bits@.len(),
        len <= bob_bits@.len(),
        min_chunk >= 1,
    ensures
        errors == mismatches(alice_bits@, bob_bits@, 0, len as int),
{
    let num_threads = worker_count();
    let chunk_len = chunk_size(len, num_threads, min_chunk);
    let num_chunks = chunk_count(len, chunk_len);
    let f = |c: usize| -> (local: usize)
        requires
            c < num_chunks,
        ensures
            local == mismatches(alice_bits@, bob_bits@, chunk_start(c as int, chunk_len as int),
                chunk_end(c as int, chunk_len as int, len as int)),
    {
        let (start, end) = chunk_bounds(c, chunk_len, len);
        let mut local_errors: usize = 0;
        for i in start..end
            invariant
                end <= len,
                len <= alice_bits@.len(),
                len <= bob_bits@.len(),
                local_errors == mismatches(alice_bits@, bob_bits@, start as int, i as int),
        {
            proof {
                lemma_count_bound(crate::qber::differs(alice_bits@, bob_bits@), start as int, i as int);
            }
            if alice_bits[i] != bob_bits[i] {
                local_errors = local_errors + 1;
            }
        }
        local_errors
    };
    let errors = par_map_range(num_chunks, f);
    assert forall|k: int| 0 <= k < num_chunks implies #[trigger] errors@[k] == mismatches(alice_bits@, bob_bits@,
        chunk_start(k, chunk_len as int), chunk_end(k, chunk_len as int, len as int)) by {
        assert(call_ensures(f, (k as usize,), errors@[k]));
    }
    let mut total: usize = 0;
    proof {
        lemma_chunk_count_zero(len as int, chunk_len as int);
    }
    for c in 0..num_chunks
        invariant
            errors@.len() == num_chunks,
            num_chunks == ceil_div(len as int, chunk_len as int),
            chunk_len >= 1,
            forall|k: int| 0 <= k < num_chunks ==> #[trigger] errors@[k] == mismatches(alice_bits@, bob_bits@,
                chunk_start(k, chunk_len as int), chunk_end(k, chunk_len as int, len as int)),
            total == mismatches(alice_bits@, bob_bits@, 0, chunks_covered(c as int, chunk_len as int, len as int)),
    {
        proof {
            lemma_chunks_tile(c as int, chunk_len as int, len as int);
            lemma_chunk_start_in_range(c as int, chunk_len as int, len as int);
            lemma_count_split(differs(alice_bits@, bob_bits@), 0, chunk_start(c as int, chunk_len as int),
                chunk_end(c as int, chunk_len as int, len as int));
            lemma_count_bound(differs(alice_bits@, bob_bits@), 0, chunk_end(c as int, chunk_len as int, len as int));
        }
        total = total + errors[c];
    }
    proof {
        if num_chunks > 0 {
            lemma_chunks_tile(num_chunks - 1, chunk_len as int, len as int);
        }
    }
    total
}

/// Size of the sample: `min(max(requested, 100), available)`.
pub open spec fn qber_sample_size(requested: int, available: int) -> int {
    let s = if requested > 100 { requested } else { 100 };
    if s < available { s } else { available }
}

/// Estimates the error rate on a sample: the first
/// `min(max(requested_sample, 100), alice_bits.len())` positions.
/// `requested_sample` is the sifted length times the sample fraction.
pub fn calculate_qber_parallel(alice_bits: &[Bit], bob_bits: &[Bit], requested_sample: usize) -> (r: QberResult)
    requires
        bob_bits@.len() >= qber_sample_size(requested_sample as int, alice_bits@.len() as int),
    ensures
        r.of_prefix(alice_bits@, bob_bits@, qber_sample_size(requested_sample as int, alice_bits@.len() as int)),
{
    let sample_size = if requested_sample > 100 { requested_sample } else { 100 };
    let sample_size = if sample_size < alice_bits.len() { sample_size } else { alice_bits.len() };
    let total_errors = count_errors_chunked(alice_bits, bob_bits, sample_size, 128);
    proof {
        lemma_count_bound(differs(alice_bits@, bob_bits@), 0, sample_size as int);
    }
    QberResult {
        error_count: total_errors,
        total_compared: sample_size,
        threshold_exceeded: exceeds_threshold(total_errors, sample_size),
        sample_size,
    }
}

/// Error rate over all of Alice's bits.
pub fn calculate_qber_full(alice_bits: &[Bit], bob_bits: &[Bit]) -> (r: QberResult)
    requires
        bob_bits@.len() >= alice_bits@.len(),
    ensures
        r.of_prefix(alice_bits@, bob_bits@, alice_bits@.len() as int),
{
    let len = alice_bits.len();
    let total_errors = count_errors_chunked(alice_bits, bob_bits, len, 1024);
    QberResult {
        error_count: total_errors,
        total_compared: len,
        threshold_exceeded: exceeds_threshold(total_errors, len),
        sample_size: len,
    }
}

/// Error rate of a sifted key: over all of Alice's sifted bits.
pub fn calculate_qber_from_sifted(sifted_key: &SiftedKey) -> (r: QberResult)
    requires
        sifted_key.bob_bits@.len() >= sifted_key.alice_bits@.len(),
    ensures
        r.of_prefix(sifted_key.alice_bits@, sifted_key.bob_bits@, sifted_key.alice_bits@.len() as int),
{
    calculate_qber_full(sifted_key.alice_bits.as_slice(), sifted_key.bob_bits.as_slice())
}

} // verus!
