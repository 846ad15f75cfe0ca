use vstd::prelude::*;

use crate::alice::{generated_ok, prepare_photon, prepared_from_draws};
use crate::bob::{bob_measure, lost_at, measured_ok, arrived_at, records_from_draws};
use crate::channel::{gather, sift_keep};
use crate::chunks::{ceil_div, chunk_count, chunks_covered};
use crate::eve::{eve_from_draws, flag_count, passes_eve, resend_photon};
use crate::laws::lost_flags_of;
use crate::photon::{basis_from_draw, Basis, Bit, Photon};
use crate::qber::{count_errors_chunked, exceeds_threshold, QberResult};
use crate::ranges::{count_range, lemma_count_bound, positions};
use crate::rng::{draw_below, draw_bool, draw_u64, lemma_unit_below_bounds};

verus! {

/// Batches that may wait in each channel between the parties.
pub const CHANNEL_CAPACITY: usize = 64;

/// Photons per batch.
pub const BATCH_SIZE: usize = 65_536;

/// A batch of photons on its way from Alice, with the bases and bits she chose.
#[derive(Debug, Clone)]
pub struct PhotonBatch {
    pub photons: Vec<Photon>,
    pub bases: Vec<Basis>,
    pub bits: Vec<Bit>,
    pub batch_index: usize,
    pub lost_in_batch: usize,
}

/// A batch after Bob's measurement, carrying both parties' records.
#[derive(Debug, Clone)]
pub struct MeasuredBatch {
    pub alice_bases: Vec<Basis>,
    pub alice_bits: Vec<Bit>,
    pub bob_bases: Vec<Basis>,
    pub bob_bits: Vec<Bit>,
    pub lost_flags: Vec<bool>,
    pub batch_index: usize,
    pub received_in_batch: usize,
    pub lost_in_batch: usize,
}

/// Settings of the streamed simulation. The thresholds are probabilities in
/// units of `2^-53` (see `AliceConfig`).
#[derive(Debug, Clone, Copy)]
pub struct PipelineConfig {
    pub num_photons: usize,
    pub attenuation_threshold: u64,
    pub eve_enabled: bool,
    pub interception_threshold: u64,
    pub alice_seed: u64,
    pub bob_seed: u64,
    pub eve_seed: u64,
}

/// Number of batches of `BATCH_SIZE` photons for `n` photons.
pub fn batch_count(n: usize) -> (r: usize)
    ensures
        r == ceil_div(n as int, BATCH_SIZE as int),
{
    chunk_count(n, BATCH_SIZE)
}

/// Number of photons in batch `batch_idx` of `n`.
pub open spec fn batch_len(n: int, batch_idx: int) -> int {
    let start = batch_idx * BATCH_SIZE;
    if start + BATCH_SIZE < n { BATCH_SIZE as int } else { n - start }
}

/// Photons in the first `k` batches of a stream of `n`.
pub open spec fn batches_total(n: int, k: int) -> int
    decreases k,
{
    if k <= 0 { 0 } else { batches_total(n, k - 1) + batch_len(n, k - 1) }
}

/// The first `k` batches hold the photons that the first `k` chunks of
/// `BATCH_SIZE` cover.
proof fn lemma_batches_covered(n: int, k: int)
    requires
        n >= 0,
        0 <= k <= ceil_div(n, BATCH_SIZE as int),
    ensures
        batches_total(n, k) == chunks_covered(k, BATCH_SIZE as int, n),
    decreases k,
{
    if k == 0 {
        crate::chunks::lemma_chunk_count_zero(n, BATCH_SIZE as int);
    } else {
        lemma_batches_covered(n, k - 1);
        crate::chunks::lemma_chunks_tile(k - 1, BATCH_SIZE as int, n);
    }
}

/// The `batch_count(n)` batches of a stream of `n` photons hold exactly
/// `n` photons between them.
pub proof fn lemma_batches_tile(n: int)
    requires
        n >= 0,
    ensures
        batches_total(n, ceil_div(n, BATCH_SIZE as int)) == n,
{
    crate::chunks::lemma_chunk_count_zero(n, BATCH_SIZE as int);
    lemma_batches_covered(n, ceil_div(n, BATCH_SIZE as int));
}

/// Alice prepares batch `batch_idx` of the stream, drawing from `rng`:
/// basis, bit and loss word for each photon in turn. The batch counts its
/// lost photons.
pub fn alice_make_batch(config: &PipelineConfig, rng: &mut rand_chacha::ChaCha8Rng, batch_idx: usize) -> (b: PhotonBatch)
    requires
        batch_idx < ceil_div(config.num_photons as int, BATCH_SIZE as int),
    ensures
        b.batch_index == batch_idx,
        generated_ok(b.photons@, b.bases@, b.bits@, batch_len(config.num_photons as int, batch_idx as int),
            config.attenuation_threshold),
        b.lost_in_batch == count_range(lost_at(b.photons@), 0, b.photons@.len() as int),
        exists|draws: Seq<(bool, bool, u64)>| #[trigger] prepared_from_draws(b.photons@, draws, config.attenuation_threshold),
{
    let (b, Ghost(draws)) = make_batch_drawn(config, rng, batch_idx);
    b
}

/// Alice's batch, as `alice_make_batch`; also gives the draws it consumed.
fn make_batch_drawn(config: &PipelineConfig, rng: &mut rand_chacha::ChaCha8Rng, batch_idx: usize)
    -> (r: (PhotonBatch, Ghost<Seq<(bool, bool, u64)>>))
    requires
        batch_idx < ceil_div(config.num_photons as int, BATCH_SIZE as int),
    ensures
        r.0.batch_index == batch_idx,
        generated_ok(r.0.photons@, r.0.bases@, r.0.bits@, batch_len(config.num_photons as int, batch_idx as int),
            config.attenuation_threshold),
        r.0.lost_in_batch == count_range(lost_at(r.0.photons@), 0, r.0.photons@.len() as int),
        prepared_from_draws(r.0.photons@, r.1@, config.attenuation_threshold),
{
    proof {
        crate::chunks::lemma_chunk_start_in_range(batch_idx as int, BATCH_SIZE as int, config.num_photons as int);
    }
    let start = batch_idx * BATCH_SIZE;
    let end = if BATCH_SIZE < config.num_photons - start { start + BATCH_SIZE } else { config.num_photons };
    let batch_len = end - start;
    let mut photons: Vec<Photon> = Vec::new();
    let mut bases: Vec<Basis> = Vec::new();
    let mut bits: Vec<Bit> = Vec::new();
    let mut lost_in_batch: usize = 0;
    let ghost mut draws: Seq<(bool, bool, u64)> = Seq::empty();
    for i in 0..batch_len
        invariant
            generated_ok(photons@, bases@, bits@, i as int, config.attenuation_threshold),
            prepared_from_draws(photons@, draws, config.attenuation_threshold),
            lost_in_batch == count_range(lost_at(photons@), 0, i as int),
    {
        let basis_draw = draw_bool(rng);
        let bit_draw = draw_bool(rng);
        let loss_word = draw_u64(rng);
        let photon = prepare_photon(basis_draw, bit_draw, loss_word, config.attenuation_threshold);
        proof {
            lemma_unit_below_bounds(loss_word, config.attenuation_threshold);
            lemma_count_bound(lost_at(photons@), 0, i as int);
        }
        let ghost before = photons@;
        if photon.lost {
            lost_in_batch = lost_in_batch + 1;
        }
        photons.push(photon);
        bases.push(photon.basis);
        bits.push(photon.bit);
        proof {
            crate::ranges::lemma_count_ext(lost_at(photons@), lost_at(before), 0, i as int);
            draws = draws.push((basis_draw, bit_draw, loss_word));
        }
    }
    (PhotonBatch { photons, bases, bits, batch_index: batch_idx, lost_in_batch }, Ghost(draws))
}

/// Eve's pass over one batch, drawing from `rng`: every photon that arrives
/// is intercepted with her interception probability and resent in the basis
/// she drew. Alice's records travel unchanged. Returns the batch and the
/// number of photons intercepted.
pub fn eve_process_batch(config: &PipelineConfig, rng: &mut rand_chacha::ChaCha8Rng, batch: PhotonBatch) -> (r: (PhotonBatch, usize))
    ensures
        r.0.bases@ == batch.bases@,
        r.0.bits@ == batch.bits@,
        r.0.batch_index == batch.batch_index,
        r.0.lost_in_batch == batch.lost_in_batch,
        r.0.photons@.len() == batch.photons@.len(),
        exists|flags: Seq<bool>| #[trigger] flags.len() == batch.photons@.len()
            && r.1 == flag_count(flags)
            && forall|k: int| 0 <= k < flags.len() ==> passes_eve(batch.photons@[k], #[trigger] r.0.photons@[k], flags[k],
                config.interception_threshold),
        exists|flags: Seq<bool>, draws: Seq<(u64, bool, bool)>| #[trigger] eve_from_draws(batch.photons@, 0, draws,
            r.0.photons@, flags, config.interception_threshold) && r.1 == flag_count(flags),
{
    let (out, count, Ghost(flags), Ghost(draws)) = eve_pass_batch(config, rng, batch);
    (out, count)
}

/// Eve's pass over one batch, as `eve_process_batch`; also gives her flags
/// and the draws she consumed.
fn eve_pass_batch(config: &PipelineConfig, rng: &mut rand_chacha::ChaCha8Rng, batch: PhotonBatch)
    -> (r: (PhotonBatch, usize, Ghost<Seq<bool>>, Ghost<Seq<(u64, bool, bool)>>))
    ensures
        r.0.bases@ == batch.bases@,
        r.0.bits@ == batch.bits@,
        r.0.batch_index == batch.batch_index,
        r.0.lost_in_batch == batch.lost_in_batch,
        r.0.photons@.len() == batch.photons@.len(),
        r.2@.len() == batch.photons@.len(),
        r.1 == flag_count(r.2@),
        forall|k: int| 0 <= k < r.2@.len() ==> passes_eve(batch.photons@[k], #[trigger] r.0.photons@[k], r.2@[k],
            config.interception_threshold),
        eve_from_draws(batch.photons@, 0, r.3@, r.0.photons@, r.2@, config.interception_threshold),
{
    let t = config.interception_threshold;
    let mut modified_photons: Vec<Photon> = Vec::new();
    let mut intercepted_in_batch: usize = 0;
    let ghost mut flags: Seq<bool> = Seq::empty();
    let ghost mut draws: Seq<(u64, bool, bool)> = Seq::empty();
    for i in 0..batch.photons.len()
        invariant
            t == config.interception_threshold,
            modified_photons@.len() == i,
            flags.len() == i,
            eve_from_draws(batch.photons@, 0, draws, modified_photons@, flags, t),
            intercepted_in_batch == flag_count(flags),
            forall|k: int| 0 <= k < i ==> passes_eve(batch.photons@[k], #[trigger] modified_photons@[k], flags[k], t),
    {
        proof {
            crate::pipeline::lemma_flag_count_bound(flags);
        }
        let photon = batch.photons[i];
        let ghost prev_flags = flags;
        if photon.lost {
            modified_photons.push(photon);
            proof {
                flags = flags.push(false);
                draws = draws.push((0u64, false, false));
            }
        } else {
            let word = draw_u64(rng);
            proof {
                lemma_unit_below_bounds(word, t);
            }
            if draw_below(word, t) {
                let basis_draw = draw_bool(rng);
                let random_bit = draw_bool(rng);
                let new_photon = resend_photon(&photon, basis_draw, random_bit);
                modified_photons.push(new_photon);
                intercepted_in_batch = intercepted_in_batch + 1;
                proof {
                    flags = flags.push(true);
                    draws = draws.push((word, basis_draw, random_bit));
                }
            } else {
                modified_photons.push(photon);
                proof {
                    flags = flags.push(false);
                    draws = draws.push((word, false, false));
                }
            }
        }
        proof {
            assert(flags.drop_last() =~= prev_flags);
        }
    }
    let PhotonBatch { photons: _, bases, bits, batch_index, lost_in_batch } = batch;
    let out = PhotonBatch { photons: modified_photons, bases, bits, batch_index, lost_in_batch };
    (out, intercepted_in_batch, Ghost(flags), Ghost(draws))
}

/// At most every position is flagged.
proof fn lemma_flag_count_bound(flags: Seq<bool>)
    ensures
        flag_count(flags) <= flags.len(),
    decreases flags.len(),
{
    if flags.len() > 0 {
        lemma_flag_count_bound(flags.drop_last());
    }
}

/// Bob's measurement of one batch, drawing from `rng`: a basis for every
/// photon, and a coin for each photon that arrived.
pub fn bob_measure_batch(rng: &mut rand_chacha::ChaCha8Rng, batch: PhotonBatch) -> (m: MeasuredBatch)
    ensures
        m.alice_bases@ == batch.bases@,
        m.alice_bits@ == batch.bits@,
        m.lost_flags@ == lost_flags_of(batch.photons@),
        measured_ok(batch.photons@, 0, batch.photons@.len() as int, m.bob_bases@, m.bob_bits@),
        m.batch_index == batch.batch_index,
        m.received_in_batch == count_range(arrived_at(batch.photons@), 0, batch.photons@.len() as int),
        m.lost_in_batch == count_range(lost_at(batch.photons@), 0, batch.photons@.len() as int),
        exists|draws: Seq<(bool, bool)>| #[trigger] records_from_draws(batch.photons@, 0, draws, m.bob_bases@, m.bob_bits@),
{
    let (m, Ghost(draws)) = measure_batch_drawn(rng, batch);
    m
}

/// Bob's measurement of one batch, as `bob_measure_batch`; also gives the
/// draws it consumed.
fn measure_batch_drawn(rng: &mut rand_chacha::ChaCha8Rng, batch: PhotonBatch) -> (r: (MeasuredBatch, Ghost<Seq<(bool, bool)>>))
    ensures
        r.0.alice_bases@ == batch.bases@,
        r.0.alice_bits@ == batch.bits@,
        r.0.lost_flags@ == lost_flags_of(batch.photons@),
        measured_ok(batch.photons@, 0, batch.photons@.len() as int, r.0.bob_bases@, r.0.bob_bits@),
        r.0.batch_index == batch.batch_index,
        r.0.received_in_batch == count_range(arrived_at(batch.photons@), 0, batch.photons@.len() as int),
        r.0.lost_in_batch == count_range(lost_at(batch.photons@), 0, batch.photons@.len() as int),
        records_from_draws(batch.photons@, 0, r.1@, r.0.bob_bases@, r.0.bob_bits@),
{
    let mut bob_bases: Vec<Basis> = Vec::new();
    let mut bob_bits: Vec<Bit> = Vec::new();
    let mut lost_flags: Vec<bool> = Vec::new();
    let mut received_in_batch: usize = 0;
    let mut lost_in_batch: usize = 0;
    let n = batch.photons.len();
    let ghost mut draws: Seq<(bool, bool)> = Seq::empty();
    for i in 0..n
        invariant
            n == batch.photons@.len(),
            measured_ok(batch.photons@, 0, i as int, bob_bases@, bob_bits@),
            lost_flags@ == lost_flags_of(batch.photons@).subrange(0, i as int),
            received_in_batch == count_range(arrived_at(batch.photons@), 0, i as int),
            lost_in_batch == count_range(lost_at(batch.photons@), 0, i as int),
            draws.len() == i,
            records_from_draws(batch.photons@, 0, draws, bob_bases@, bob_bits@),
    {
        proof {
            lemma_count_bound(arrived_at(batch.photons@), 0, i as int);
            lemma_count_bound(lost_at(batch.photons@), 0, i as int);
        }
        let photon = &batch.photons[i];
        let basis_draw = draw_bool(rng);
        let measurement_basis = basis_from_draw(basis_draw);
        bob_bases.push(measurement_basis);
        lost_flags.push(photon.lost);
        if photon.lost {
            bob_bits.push(Bit::Zero);
            lost_in_batch = lost_in_batch + 1;
            proof {
                draws = draws.push((basis_draw, false));
            }
        } else {
            let random_bit = draw_bool(rng);
            let (_, measured_bit) = bob_measure(photon, basis_draw, random_bit);
            bob_bits.push(measured_bit);
            received_in_batch = received_in_batch + 1;
            proof {
                draws = draws.push((basis_draw, random_bit));
            }
        }
        proof {
            assert(lost_flags@ =~= lost_flags_of(batch.photons@).subrange(0, i + 1));
            assert forall|k: int| 0 <= k < i + 1 implies {
                &&& batch.photons@[0 + k].lost ==> #[trigger] bob_bits@[k] == Bit::Zero
                &&& !batch.photons@[0 + k].lost && bob_bases@[k] == batch.photons@[0 + k].basis ==> bob_bits@[k] == batch.photons@[0 + k].bit
            } by {}
        }
    }
    assert(lost_flags@ =~= lost_flags_of(batch.photons@));
    let PhotonBatch { photons: _, bases, bits, batch_index, lost_in_batch: _ } = batch;
    (MeasuredBatch {
        alice_bases: bases,
        alice_bits: bits,
        bob_bases,
        bob_bits,
        lost_flags,
        batch_index,
        received_in_batch,
        lost_in_batch,
    }, Ghost(draws))
}

/// The batches are in increasing order of batch index.
pub open spec fn sorted_by_index(bs: Seq<MeasuredBatch>) -> bool {
    forall|a: int, b: int| 0 <= a < b < bs.len() ==> bs[a].batch_index <= bs[b].batch_index
}

/// `r` is `given` rearranged by `perm` (`r[k]` is `given[perm[k]]`, each
/// position of `given` used at most once), and batches with equal indices
/// keep their order in `given`.
pub open spec fn stable_rearrangement(r: Seq<MeasuredBatch>, given: Seq<MeasuredBatch>, perm: Seq<int>) -> bool {
    &&& perm.len() == r.len()
    &&& forall|k: int| 0 <= k < r.len() ==> 0 <= #[trigger] perm[k] < given.len() && r[k] == given[perm[k]]
    &&& forall|k1: int, k2: int| 0 <= k1 < k2 < r.len() ==> #[trigger] perm[k1] != #[trigger] perm[k2]
    &&& forall|k1: int, k2: int| 0 <= k1 < k2 < r.len() && #[trigger] r[k1].batch_index == #[trigger] r[k2].batch_index
        ==> perm[k1] < perm[k2]
}

/// Puts the measured batches in order of batch index (a stable insertion
/// sort): the result holds the same batches, sorted, and batches with equal
/// indices keep their order.
pub fn sort_batches(measured_batches: Vec<MeasuredBatch>) -> (r: Vec<MeasuredBatch>)
    ensures
        sorted_by_index(r@),
        r@.to_multiset() == measured_batches@.to_multiset(),
        exists|perm: Seq<int>| #[trigger] stable_rearrangement(r@, measured_batches@, perm),
{
    let ghost given = measured_batches@;
    let mut input = measured_batches;
    let mut sorted: Vec<MeasuredBatch> = Vec::new();
    let total = input.len();
    let mut taken: usize = 0;
    let ghost mut perm: Seq<int> = Seq::empty();
    assert(sorted@ =~= given.subrange(0, 0));
    while taken < total
        invariant
            taken <= total,
            total == given.len(),
            input@ == given.subrange(taken as int, total as int),
            sorted@.to_multiset() == given.subrange(0, taken as int).to_multiset(),
            sorted_by_index(sorted@),
            stable_rearrangement(sorted@, given, perm),
            forall|k: int| 0 <= k < perm.len() ==> #[trigger] perm[k] < taken,
        decreases total - taken,
    {
        let batch = input.remove(0);
        let key = batch.batch_index;
        let mut pos: usize = 0;
        while pos < sorted.len() && sorted[pos].batch_index <= key
            invariant
                pos <= sorted@.len(),
                forall|a: int| 0 <= a < pos ==> sorted@[a].batch_index <= key,
            decreases sorted@.len() - pos,
        {
            pos = pos + 1;
        }
        let ghost before = sorted@;
        let ghost old_perm = perm;
        proof {
            assert forall|a: int| pos <= a < before.len() implies before[a].batch_index > key by {
                if pos < before.len() {
                    assert(before[pos as int].batch_index > key);
                    if a > pos {
                        assert(before[pos as int].batch_index <= before[a].batch_index);
                    }
                }
            }
        }
        sorted.insert(pos, batch);
        proof {
            vstd::seq_lib::to_multiset_insert(before, pos as int, batch);
            vstd::seq_lib::to_multiset_build(given.subrange(0, taken as int), batch);
            assert(given.subrange(0, taken + 1) =~= given.subrange(0, taken as int).push(batch));
            assert(batch == given[taken as int]);
            perm = old_perm.insert(pos as int, taken as int);
            let s = sorted@;
            assert forall|k: int| 0 <= k < s.len() implies 0 <= #[trigger] perm[k] < given.len() && s[k] == given[perm[k]] by {
                if k < pos {
                    assert(perm[k] == old_perm[k] && s[k] == before[k]);
                } else if k > pos {
                    assert(perm[k] == old_perm[k - 1] && s[k] == before[k - 1]);
                }
            }
            assert forall|k1: int, k2: int| 0 <= k1 < k2 < s.len() implies #[trigger] perm[k1] != #[trigger] perm[k2] by {
                let o1 = if k1 < pos { k1 } else { k1 - 1 };
                let o2 = if k2 < pos { k2 } else { k2 - 1 };
                if k1 != pos && k2 != pos {
                    assert(perm[k1] == old_perm[o1] && perm[k2] == old_perm[o2]);
                } else if k1 == pos {
                    assert(perm[k2] == old_perm[o2]);
                } else {
                    assert(perm[k1] == old_perm[o1]);
                }
            }
            assert forall|k1: int, k2: int| 0 <= k1 < k2 < s.len() && #[trigger] s[k1].batch_index == #[trigger] s[k2].batch_index
                implies perm[k1] < perm[k2] by {
                let o1 = if k1 < pos { k1 } else { k1 - 1 };
                let o2 = if k2 < pos { k2 } else { k2 - 1 };
                if k1 != pos && k2 != pos {
                    assert(perm[k1] == old_perm[o1] && perm[k2] == old_perm[o2]);
                    assert(s[k1] == before[o1] && s[k2] == before[o2]);
                } else if k1 == pos {
                    assert(s[k2] == before[k2 - 1]);
                    assert(before[k2 - 1].batch_index > key);
                } else {
                    assert(perm[k1] == old_perm[o1]);
                }
            }
            assert forall|k: int| 0 <= k < perm.len() implies #[trigger] perm[k] < taken + 1 by {
                if k < pos {
                    assert(perm[k] == old_perm[k]);
                } else if k > pos {
                    assert(perm[k] == old_perm[k - 1]);
                }
            }
        }
        taken = taken + 1;
    }
    assert(given.subrange(0, total as int) =~= given);
    sorted
}

/// Sifting of one measured batch: the positions where the photon arrived
/// and the bases agree.
pub open spec fn batch_positions(b: MeasuredBatch) -> Seq<usize> {
    positions(sift_keep(b.alice_bases@, b.bob_bases@, b.lost_flags@), 0, b.alice_bases@.len() as int)
}

/// Alice's sifted bits over a sequence of batches, batch after batch.
pub open spec fn batches_sifted_alice(bs: Seq<MeasuredBatch>) -> Seq<Bit>
    decreases bs.len(),
{
    if bs.len() == 0 {
        Seq::empty()
    } else {
        batches_sifted_alice(bs.drop_last()) + gather(bs.last().alice_bits@, batch_positions(bs.last()))
    }
}

/// Bob's sifted bits over a sequence of batches, batch after batch.
pub open spec fn batches_sifted_bob(bs: Seq<MeasuredBatch>) -> Seq<Bit>
    decreases bs.len(),
{
    if bs.len() == 0 {
        Seq::empty()
    } else {
        batches_sifted_bob(bs.drop_last()) + gather(bs.last().bob_bits@, batch_positions(bs.last()))
    }
}

/// A measured batch holds a record of every kind for each of Alice's bases.
pub open spec fn batch_complete(b: MeasuredBatch) -> bool {
    &&& b.alice_bits@.len() >= b.alice_bases@.len()
    &&& b.bob_bases@.len() >= b.alice_bases@.len()
    &&& b.bob_bits@.len() >= b.alice_bases@.len()
    &&& b.lost_flags@.len() >= b.alice_bases@.len()
}

/// Basis reconciliation over the measured batches, in their order: Alice's
/// and Bob's sifted bits and the sifted length.
pub fn reconcile_batches(measured_batches: Vec<MeasuredBatch>) -> (r: (Vec<Bit>, Vec<Bit>, usize))
    requires
        forall|i: int| 0 <= i < measured_batches@.len() ==> batch_complete(#[trigger] measured_batches@[i]),
    ensures
        r.0@ == batches_sifted_alice(measured_batches@),
        r.1@ == batches_sifted_bob(measured_batches@),
        r.2 == r.0@.len(),
{
    let mut alice_sifted: Vec<Bit> = Vec::new();
    let mut bob_sifted: Vec<Bit> = Vec::new();
    let mut total_sifted: usize = 0;
    let ghost bs = measured_batches@;
    for i in 0..measured_batches.len()
        invariant
            bs == measured_batches@,
            forall|i: int| 0 <= i < bs.len() ==> batch_complete(#[trigger] bs[i]),
            alice_sifted@ == batches_sifted_alice(bs.subrange(0, i as int)),
            bob_sifted@ == batches_sifted_bob(bs.subrange(0, i as int)),
            total_sifted == alice_sifted@.len(),
    {
        let batch = &measured_batches[i];
        assert(batch_complete(bs[i as int]));
        let len = batch.alice_bases.len();
        let (mut alice, mut bob, _indices) = crate::channel::sift_chunk(batch.alice_bases.as_slice(),
            batch.alice_bits.as_slice(), batch.bob_bases.as_slice(), batch.bob_bits.as_slice(),
            batch.lost_flags.as_slice(), 0, len);
        let added = alice.len();
        alice_sifted.append(&mut alice);
        bob_sifted.append(&mut bob);
        let new_len = alice_sifted.len();
        assert(new_len == total_sifted + added);
        total_sifted = total_sifted + added;
        proof {
            assert(bs.subrange(0, i + 1).drop_last() =~= bs.subrange(0, i as int));
            assert(bs.subrange(0, i + 1).last() == bs[i as int]);
        }
    }
    assert(bs.subrange(0, bs.len() as int) =~= bs);
    (alice_sifted, bob_sifted, total_sifted)
}

/// Error rate of the streamed sifted keys, over all of Alice's bits.
pub fn compute_qber_from_sifted(alice_bits: &[Bit], bob_bits: &[Bit]) -> (r: QberResult)
    requires
        bob_bits@.len() >= alice_bits@.len(),
    ensures
        r.of_prefix(alice_bits@, bob_bits@, alice_bits@.len() as int),
{
    let len = alice_bits.len();
    let total_errors = count_errors_chunked(alice_bits, bob_bits, len, 1024);
    QberResult {
        error_count: total_errors,
        total_compared: len,
        threshold_exceeded: exceeds_threshold(total_errors, len),
        sample_size: len,
    }
}

} // verus!
