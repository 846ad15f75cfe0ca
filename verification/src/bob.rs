use vstd::prelude::*;

use crate::bits::{lemma_bit_set_one, lemma_bit_zero, packed_bit, test_bit, word_bit};
use crate::layout::{
    chunk_padding_clear, chunked_len, chunked_packed_bit, chunked_word, lemma_chunked_len_parts,
    lemma_chunked_position, lemma_chunked_word_split, padding_clear, words_per_chunk,
};
use crate::chunks::{
    ceil_div, chunk_size_spec, chunk_bounds, chunk_count, chunk_end, chunk_size, chunk_start, chunks_covered,
    lemma_chunk_count_zero, lemma_chunk_start_in_range, lemma_chunks_tile,
};
use crate::parallel::{par_map_range, worker_count};
use crate::photon::{basis_from_draw, basis_of_draw, measure_photon_fast, measure_rule, Basis, Bit, Photon};
use crate::ranges::{clear_at, count_range, lemma_count_bound, lemma_count_split, set_at};
use crate::rng::{chunk_seed, draw_bool, seeded_rng};

verus! {

/// Bob's detector: the seed of his basis choices.
#[derive(Debug, Clone, Copy)]
pub struct BobConfig {
    pub seed: u64,
}

impl Default for BobConfig {
    fn default() -> (r: BobConfig)
        ensures
            r.seed == 12345,
    {
        BobConfig { seed: 12345 }
    }
}

/// Bob's measurement bases and outcomes, one per photon sent.
#[derive(Debug, Clone)]
pub struct BobResults {
    pub measurement_bases: Vec<Basis>,
    pub measured_bits: Vec<Bit>,
    pub received_count: usize,
    pub lost_count: usize,
}

impl BobResults {
    pub fn len(&self) -> (r: usize)
        ensures
            r == self.measured_bits@.len(),
    {
        self.measured_bits.len()
    }
}

/// Positions of photons lost in the fibre.
pub open spec fn lost_at(photons: Seq<Photon>) -> spec_fn(int) -> bool {
    |i: int| photons[i].lost
}

/// Positions of photons that arrived.
pub open spec fn arrived_at(photons: Seq<Photon>) -> spec_fn(int) -> bool {
    |i: int| !photons[i].lost
}

/// What Bob records for a photon from his draws: the basis his draw selects,
/// and zero for a lost photon or else the measurement outcome.
pub open spec fn bob_outcome(photon: Photon, basis_draw: bool, random_bit: bool) -> (Basis, Bit) {
    let b = basis_of_draw(basis_draw);
    (b, if photon.lost { Bit::Zero } else { measure_rule(photon.basis, photon.bit, b, random_bit) })
}

/// Bob's record of one photon, from his basis draw and his coin.
pub fn bob_measure(photon: &Photon, basis_draw: bool, random_bit: bool) -> (r: (Basis, Bit))
    ensures
        r == bob_outcome(*photon, basis_draw, random_bit),
{
    let b = basis_from_draw(basis_draw);
    if photon.lost {
        (b, Bit::Zero)
    } else {
        (b, measure_photon_fast(photon.basis, photon.bit, b, random_bit))
    }
}

/// Bob's records for the photons `lo..hi` of `photons`, at offsets from `lo`:
/// zero for a lost photon, the photon's bit where the bases agree.
pub open spec fn measured_ok(photons: Seq<Photon>, lo: int, hi: int, bases: Seq<Basis>, bits: Seq<Bit>) -> bool {
    &&& bases.len() == hi - lo
    &&& bits.len() == hi - lo
    &&& forall|k: int| 0 <= k < hi - lo ==> {
        &&& photons[lo + k].lost ==> #[trigger] bits[k] == Bit::Zero
        &&& !photons[lo + k].lost && bases[k] == photons[lo + k].basis ==> bits[k] == photons[lo + k].bit
    }
}

/// Bob's records of the photons `lo..` are his outcomes for the draws
/// `draws` (his basis draw and his coin, position by position).
pub open spec fn records_from_draws(photons: Seq<Photon>, lo: int, draws: Seq<(bool, bool)>, bases: Seq<Basis>,
    bits: Seq<Bit>) -> bool {
    &&& bases.len() == draws.len()
    &&& bits.len() == draws.len()
    &&& forall|k: int| 0 <= k < draws.len() ==> (#[trigger] bases[k], bits[k]) == bob_outcome(photons[lo + k],
        draws[k].0, draws[k].1)
}

/// Measures the photons `start..end` with the generator of chunk `chunk_idx`;
/// also gives the draws it consumed (a basis draw per photon, and a coin,
/// drawn only for a photon that arrived).
fn measure_chunk(photons: &[Photon], config: &BobConfig, chunk_idx: usize, start: usize, end: usize)
    -> (r: (Vec<Basis>, Vec<Bit>, usize, usize, Ghost<Seq<(bool, bool)>>))
    requires
        start <= end <= photons@.len(),
    ensures
        records_from_draws(photons@, start as int, r.4@, r.0@, r.1@),
        measured_ok(photons@, start as int, end as int, r.0@, r.1@),
        r.2 == count_range(arrived_at(photons@), start as int, end as int),
        r.3 == count_range(lost_at(photons@), start as int, end as int),
{
    let mut rng = seeded_rng(chunk_seed(config.seed, chunk_idx));
    let mut measurement_bases: Vec<Basis> = Vec::new();
    let mut measured_bits: Vec<Bit> = Vec::new();
    let mut received: usize = 0;
    let mut lost: usize = 0;
    let ghost mut draws: Seq<(bool, bool)> = Seq::empty();
    for i in start..end
        invariant
            end <= photons@.len(),
            draws.len() == i - start,
            records_from_draws(photons@, start as int, draws, measurement_bases@, measured_bits@),
            measured_ok(photons@, start as int, i as int, measurement_bases@, measured_bits@),
            received == count_range(arrived_at(photons@), start as int, i as int),
            lost == count_range(lost_at(photons@), start as int, i as int),
    {
        proof {
            lemma_count_bound(arrived_at(photons@), start as int, i as int);
            lemma_count_bound(lost_at(photons@), start as int, i as int);
        }
        let photon = &photons[i];
        let basis_draw = draw_bool(&mut rng);
        let measurement_basis = basis_from_draw(basis_draw);
        measurement_bases.push(measurement_basis);
        if photon.lost {
            measured_bits.push(Bit::Zero);
            lost = lost + 1;
            proof {
                draws = draws.push((basis_draw, false));
            }
        } else {
            let random_bit = draw_bool(&mut rng);
            let (_, measured_bit) = bob_measure(photon, basis_draw, random_bit);
            measured_bits.push(measured_bit);
            received = received + 1;
            proof {
                draws = draws.push((basis_draw, random_bit));
            }
        }
    }
    (measurement_bases, measured_bits, received, lost, Ghost(draws))
}

/// Bob measures every photon in a basis of his own drawing; chunks of at
/// least 1024 photons each use their own seeded generator.
pub fn measure_photons_parallel(photons: &[Photon], config: &BobConfig) -> (r: BobResults)
    ensures
        measured_ok(photons@, 0, photons@.len() as int, r.measurement_bases@, r.measured_bits@),
        r.received_count == count_range(arrived_at(photons@), 0, photons@.len() as int),
        r.lost_count == count_range(lost_at(photons@), 0, photons@.len() as int),
{
    let n = photons.len();
    let num_threads = worker_count();
    let chunk_len = chunk_size(n, num_threads, 1024);
    let num_chunks = chunk_count(n, chunk_len);
    let f = |c: usize| -> (r: (Vec<Basis>, Vec<Bit>, usize, usize))
        requires
            c < num_chunks,
        ensures
            measured_ok(photons@, chunk_start(c as int, chunk_len as int), chunk_end(c as int, chunk_len as int, n as int),
                r.0@, r.1@),
            r.2 == count_range(arrived_at(photons@), chunk_start(c as int, chunk_len as int),
                chunk_end(c as int, chunk_len as int, n as int)),
            r.3 == count_range(lost_at(photons@), chunk_start(c as int, chunk_len as int),
                chunk_end(c as int, chunk_len as int, n as int)),
    {
        let (start, end) = chunk_bounds(c, chunk_len, n);
        let (bases, bits, received, lost, _draws) = measure_chunk(photons, config, c, start, end);
        (bases, bits, received, lost)
    };
    let mut results = par_map_range(num_chunks, f);
    assert forall|k: int| 0 <= k < num_chunks implies measured_ok(photons@, chunk_start(k, chunk_len as int),
        chunk_end(k, chunk_len as int, n as int), (#[trigger] results@[k]).0@, results@[k].1@)
        && results@[k].2 == count_range(arrived_at(photons@), chunk_start(k, chunk_len as int), chunk_end(k, chunk_len as int, n as int))
        && results@[k].3 == count_range(lost_at(photons@), chunk_start(k, chunk_len as int), chunk_end(k, chunk_len as int, n as int)) by {
        assert(call_ensures(f, (k as usize,), results@[k]));
    }

    let mut all_bases: Vec<Basis> = Vec::new();
    let mut all_bits: Vec<Bit> = Vec::new();
    let mut total_received: usize = 0;
    let mut total_lost: usize = 0;
    proof {
        lemma_chunk_count_zero(n as int, chunk_len as int);
    }
    let mut c: usize = 0;
    while c < num_chunks
        invariant
            0 <= c <= num_chunks,
            num_chunks == ceil_div(n as int, chunk_len as int),
            chunk_len >= 1,
            n == photons@.len(),
            results@.len() == num_chunks - c,
            forall|k: int| 0 <= k < results@.len() ==> measured_ok(photons@, chunk_start(k + c, chunk_len as int),
                chunk_end(k + c, chunk_len as int, n as int), (#[trigger] results@[k]).0@, results@[k].1@)
                && results@[k].2 == count_range(arrived_at(photons@), chunk_start(k + c, chunk_len as int),
                    chunk_end(k + c, chunk_len as int, n as int))
                && results@[k].3 == count_range(lost_at(photons@), chunk_start(k + c, chunk_len as int),
                    chunk_end(k + c, chunk_len as int, n as int)),
            measured_ok(photons@, 0, chunks_covered(c as int, chunk_len as int, n as int), all_bases@, all_bits@),
            total_received == count_range(arrived_at(photons@), 0, chunks_covered(c as int, chunk_len as int, n as int)),
            total_lost == count_range(lost_at(photons@), 0, chunks_covered(c as int, chunk_len as int, n as int)),
        decreases num_chunks - c,
    {
        proof {
            lemma_chunks_tile(c as int, chunk_len as int, n as int);
            lemma_chunk_start_in_range(c as int, chunk_len as int, n as int);
        }
        let ghost start = chunk_start(c as int, chunk_len as int);
        let ghost end = chunk_end(c as int, chunk_len as int, n as int);
        let ghost prev = results@;
        let ghost (b0, t0) = (all_bases@, all_bits@);
        let (mut bases, mut bits, received, lost) = results.remove(0);
        let ghost (b1, t1) = (bases@, bits@);
        proof {
            lemma_count_split(arrived_at(photons@), 0, start, end);
            lemma_count_split(lost_at(photons@), 0, start, end);
            lemma_count_bound(arrived_at(photons@), 0, end);
            lemma_count_bound(lost_at(photons@), 0, end);
        }
        all_bases.append(&mut bases);
        all_bits.append(&mut bits);
        total_received = total_received + received;
        total_lost = total_lost + lost;
        c = c + 1;
        proof {
            assert forall|k: int| 0 <= k < end implies {
                &&& photons@[0 + k].lost ==> #[trigger] all_bits@[k] == Bit::Zero
                &&& !photons@[0 + k].lost && all_bases@[k] == photons@[0 + k].basis ==> all_bits@[k] == photons@[0 + k].bit
            } by {
                if k >= start {
                    assert(all_bits@[k] == t1[k - start]);
                    assert(all_bases@[k] == b1[k - start]);
                    assert(start + (k - start) == k);
                } else {
                    assert(all_bits@[k] == t0[k]);
                    assert(all_bases@[k] == b0[k]);
                }
            }
            assert forall|k: int| 0 <= k < results@.len() implies measured_ok(photons@, chunk_start(k + c, chunk_len as int),
                chunk_end(k + c, chunk_len as int, n as int), (#[trigger] results@[k]).0@, results@[k].1@)
                && results@[k].2 == count_range(arrived_at(photons@), chunk_start(k + c, chunk_len as int),
                    chunk_end(k + c, chunk_len as int, n as int))
                && results@[k].3 == count_range(lost_at(photons@), chunk_start(k + c, chunk_len as int),
                    chunk_end(k + c, chunk_len as int, n as int)) by {
                assert(results@[k] == prev[k + 1]);
            }
        }
    }
    proof {
        if num_chunks > 0 {
            lemma_chunks_tile(num_chunks - 1, chunk_len as int, n as int);
        }
    }
    BobResults {
        measurement_bases: all_bases,
        measured_bits: all_bits,
        received_count: total_received,
        lost_count: total_lost,
    }
}

/// Bob's packed records of one chunk of photons `start..start + len`:
/// nothing past the chunk, nothing for a lost photon, and the photon's bit
/// wherever his basis bit equals the photon's.
pub open spec fn packed_measure_chunk_ok(meas_bases: Seq<u64>, meas_bits: Seq<u64>, packed_bases: Seq<u64>,
    packed_bits: Seq<u64>, lost_flags: Seq<bool>, start: int, len: int) -> bool {
    &&& chunk_padding_clear(meas_bases, len)
    &&& chunk_padding_clear(meas_bits, len)
    &&& forall|i: int| 0 <= i < len ==> {
        let mb = word_bit(meas_bases[i / 64], (i % 64) as u64);
        let r = #[trigger] word_bit(meas_bits[i / 64], (i % 64) as u64);
        &&& lost_flags[start + i] ==> !r
        &&& !lost_flags[start + i] && mb == packed_bit(packed_bases, start + i) ==> r == packed_bit(packed_bits, start + i)
    }
}

/// The packed inputs hold a word for every photon.
pub open spec fn packed_inputs_ok(packed_bases: Seq<u64>, packed_bits: Seq<u64>, lost_flags: Seq<bool>, n: int) -> bool {
    &&& lost_flags.len() >= n
    &&& packed_bases.len() >= ceil_div(n, 64)
    &&& packed_bits.len() >= ceil_div(n, 64)
}

/// Bob's packed outcome for one photon from his draws: nothing if it was
/// lost, its bit if his basis bit is the photon's, and otherwise his coin.
pub open spec fn packed_outcome(lost: bool, photon_basis: bool, photon_bit: bool, basis_draw: bool, random_bit: bool) -> bool {
    !lost && if photon_basis == basis_draw { photon_bit } else { random_bit }
}

/// Bob's packed records of the photons `start..` are his outcomes for the
/// draws `draws`: bit `p % 64` of word `p / 64` holds, for photon
/// `start + p`, his basis draw and his outcome.
pub open spec fn packed_records_from_draws(meas_bases: Seq<u64>, meas_bits: Seq<u64>, packed_bases: Seq<u64>,
    packed_bits: Seq<u64>, lost_flags: Seq<bool>, start: int, draws: Seq<(bool, bool)>) -> bool {
    &&& forall|w: int, k: u64| 0 <= w < meas_bases.len() && k < 64 && w * 64 + k < draws.len()
        ==> #[trigger] word_bit(meas_bases[w], k) == draws[w * 64 + k].0
    &&& forall|w: int, k: u64| 0 <= w < meas_bits.len() && k < 64 && w * 64 + k < draws.len()
        ==> #[trigger] word_bit(meas_bits[w], k) == packed_outcome(lost_flags[start + w * 64 + k],
            packed_bit(packed_bases, start + w * 64 + k), packed_bit(packed_bits, start + w * 64 + k),
            draws[w * 64 + k].0, draws[w * 64 + k].1)
}

/// Measures one chunk of packed photons with the generator of chunk
/// `chunk_idx`; also gives the draws it consumed.
fn measure_packed_chunk(packed_bases: &[u64], packed_bits: &[u64], lost_flags: &[bool], config: &BobConfig,
    chunk_idx: usize, start: usize, end: usize, total_photons: usize)
    -> (r: (Vec<u64>, Vec<u64>, usize, usize, Ghost<Seq<(bool, bool)>>))
    requires
        start <= end <= total_photons,
        packed_inputs_ok(packed_bases@, packed_bits@, lost_flags@, total_photons as int),
    ensures
        r.4@.len() == end - start,
        packed_records_from_draws(r.0@, r.1@, packed_bases@, packed_bits@, lost_flags@, start as int, r.4@),
        packed_measure_chunk_ok(r.0@, r.1@, packed_bases@, packed_bits@, lost_flags@, start as int, end - start),
        r.2 == count_range(clear_at(lost_flags@), start as int, end as int),
        r.3 == count_range(set_at(lost_flags@), start as int, end as int),
{
    let len = end - start;
    let mut rng = seeded_rng(chunk_seed(config.seed, chunk_idx));
    let num_u64 = chunk_count(len, 64);
    let mut meas_bases: Vec<u64> = vec![0u64; num_u64];
    let mut meas_bits: Vec<u64> = vec![0u64; num_u64];
    let mut received: usize = 0;
    let mut lost: usize = 0;
    let ghost mut draws: Seq<(bool, bool)> = Seq::empty();
    proof {
        assert forall|w: int, k: u64| 0 <= w < num_u64 && k < 64 implies !#[trigger] word_bit(meas_bases@[w], k) by {
            lemma_bit_zero(k);
        }
        assert forall|w: int, k: u64| 0 <= w < num_u64 && k < 64 implies !#[trigger] word_bit(meas_bits@[w], k) by {
            lemma_bit_zero(k);
        }
        lemma_chunk_count_zero(len as int, 64);
        lemma_chunk_count_zero(total_photons as int, 64);
    }
    for i in 0..len
        invariant
            len == end - start,
            end <= total_photons,
            packed_inputs_ok(packed_bases@, packed_bits@, lost_flags@, total_photons as int),
            num_u64 == ceil_div(len as int, 64),
            meas_bases@.len() == num_u64,
            meas_bits@.len() == num_u64,
            forall|w: int, k: u64| 0 <= w < num_u64 && k < 64 && #[trigger] word_bit(meas_bases@[w], k) ==> w * 64 + k < i,
            forall|w: int, k: u64| 0 <= w < num_u64 && k < 64 && #[trigger] word_bit(meas_bits@[w], k) ==> w * 64 + k < i,
            forall|i2: int| 0 <= i2 < i ==> {
                let mb = word_bit(meas_bases@[i2 / 64], (i2 % 64) as u64);
                let r = #[trigger] word_bit(meas_bits@[i2 / 64], (i2 % 64) as u64);
                &&& lost_flags@[start + i2] ==> !r
                &&& !lost_flags@[start + i2] && mb == packed_bit(packed_bases@, start + i2) ==> r == packed_bit(packed_bits@, start + i2)
            },
            received == count_range(clear_at(lost_flags@), start as int, start + i),
            lost == count_range(set_at(lost_flags@), start as int, start + i),
            draws.len() == i,
            forall|w: int, k: u64| 0 <= w < num_u64 && k < 64 && w * 64 + k < i
                ==> #[trigger] word_bit(meas_bases@[w], k) == draws[w * 64 + k].0,
            forall|w: int, k: u64| 0 <= w < num_u64 && k < 64 && w * 64 + k < i
                ==> #[trigger] word_bit(meas_bits@[w], k) == packed_outcome(lost_flags@[start + w * 64 + k],
                    packed_bit(packed_bases@, start + w * 64 + k), packed_bit(packed_bits@, start + w * 64 + k),
                    draws[w * 64 + k].0, draws[w * 64 + k].1),
    {
        proof {
            lemma_count_bound(clear_at(lost_flags@), start as int, start + i);
            lemma_count_bound(set_at(lost_flags@), start as int, start + i);
        }
        let global_idx = start + i;
        let word_idx = i / 64;
        let bit_idx = (i % 64) as u64;
        let global_word_idx = global_idx / 64;
        let global_bit_idx = (global_idx % 64) as u64;
        proof {
            assert(word_idx < num_u64) by (nonlinear_arith)
                requires word_idx == i / 64, i < len, num_u64 == (len + 63) / 64;
            assert(global_word_idx < ceil_div(total_photons as int, 64)) by (nonlinear_arith)
                requires global_word_idx == global_idx / 64, global_idx < total_photons;
        }
        let photon_basis = test_bit(packed_bases[global_word_idx], global_bit_idx);
        let photon_bit = test_bit(packed_bits[global_word_idx], global_bit_idx);
        let photon_lost = lost_flags[global_idx];
        let meas_basis = draw_bool(&mut rng);
        let ghost bases_before = meas_bases@;
        let ghost bits_before = meas_bits@;
        if meas_basis {
            meas_bases.set(word_idx, meas_bases[word_idx] | (1u64 << bit_idx));
        }
        let mut result_bit = false;
        let ghost mut coin = false;
        if !photon_lost {
            let random_bit = draw_bool(&mut rng);
            proof {
                coin = random_bit;
            }
            result_bit = if photon_basis == meas_basis { photon_bit } else { random_bit };
            if result_bit {
                meas_bits.set(word_idx, meas_bits[word_idx] | (1u64 << bit_idx));
            }
            received = received + 1;
        } else {
            lost = lost + 1;
        }
        proof {
            assert(i == word_idx * 64 + bit_idx);
            assert forall|w: int, k: u64| 0 <= w < num_u64 && k < 64 implies
                #[trigger] word_bit(meas_bases@[w], k) == (word_bit(bases_before[w], k) || (meas_basis && w == word_idx && k == bit_idx)) by {
                if meas_basis && w == word_idx {
                    lemma_bit_set_one(bases_before[w], bit_idx, k);
                }
            }
            assert forall|w: int, k: u64| 0 <= w < num_u64 && k < 64 implies
                #[trigger] word_bit(meas_bits@[w], k) == (word_bit(bits_before[w], k) || (result_bit && w == word_idx && k == bit_idx)) by {
                if result_bit && w == word_idx {
                    lemma_bit_set_one(bits_before[w], bit_idx, k);
                }
            }
            assert forall|i2: int| 0 <= i2 < i + 1 implies {
                let mb = word_bit(meas_bases@[i2 / 64], (i2 % 64) as u64);
                let r = #[trigger] word_bit(meas_bits@[i2 / 64], (i2 % 64) as u64);
                &&& lost_flags@[start + i2] ==> !r
                &&& !lost_flags@[start + i2] && mb == packed_bit(packed_bases@, start + i2) ==> r == packed_bit(packed_bits@, start + i2)
            } by {
                assert(i2 / 64 < num_u64) by (nonlinear_arith)
                    requires i2 < i + 1, i < len, num_u64 == (len + 63) / 64, i2 >= 0;
                if i2 < i {
                    assert(i2 / 64 != word_idx || (i2 % 64) as u64 != bit_idx);
                    assert(word_bit(meas_bits@[i2 / 64], (i2 % 64) as u64) == word_bit(bits_before[i2 / 64], (i2 % 64) as u64));
                    assert(word_bit(meas_bases@[i2 / 64], (i2 % 64) as u64) == word_bit(bases_before[i2 / 64], (i2 % 64) as u64));
                } else {
                    assert(i2 == i);
                    assert(!word_bit(bits_before[word_idx as int], bit_idx));
                    assert(!word_bit(bases_before[word_idx as int], bit_idx));
                    assert(packed_bit(packed_bases@, start + i2) == photon_basis);
                    assert(packed_bit(packed_bits@, start + i2) == photon_bit);
                }
            }
            assert(packed_bit(packed_bases@, start + i) == photon_basis);
            assert(packed_bit(packed_bits@, start + i) == photon_bit);
            assert(result_bit == packed_outcome(photon_lost, photon_basis, photon_bit, meas_basis, coin));
            draws = draws.push((meas_basis, coin));
            assert forall|w: int, k: u64| 0 <= w < num_u64 && k < 64 && w * 64 + k < i + 1
                implies #[trigger] word_bit(meas_bases@[w], k) == draws[w * 64 + k].0 by {
                if w * 64 + k == i {
                    assert(w == word_idx && k == bit_idx);
                }
            }
            assert forall|w: int, k: u64| 0 <= w < num_u64 && k < 64 && w * 64 + k < i + 1
                implies #[trigger] word_bit(meas_bits@[w], k) == packed_outcome(lost_flags@[start + w * 64 + k],
                    packed_bit(packed_bases@, start + w * 64 + k), packed_bit(packed_bits@, start + w * 64 + k),
                    draws[w * 64 + k].0, draws[w * 64 + k].1) by {
                if w * 64 + k == i {
                    assert(w == word_idx && k == bit_idx);
                }
            }
        }
    }
    (meas_bases, meas_bits, received, lost, Ghost(draws))
}

/// Bob's packed measurement of `n` photons in chunks of `cs`: his basis and
/// outcome bits in the chunked packing, nothing for lost photons, the
/// photon's bit wherever his basis bit equals the photon's, and the counts
/// of photons received and lost.
pub open spec fn packed_measure_ok(meas_bases: Seq<u64>, meas_bits: Seq<u64>, packed_bases: Seq<u64>, packed_bits: Seq<u64>,
    lost_flags: Seq<bool>, n: int, cs: int) -> bool {
    &&& meas_bases.len() == chunked_len(n, cs)
    &&& meas_bits.len() == chunked_len(n, cs)
    &&& padding_clear(meas_bases, n, cs)
    &&& padding_clear(meas_bits, n, cs)
    &&& forall|j: int| 0 <= j < n ==> {
        let mb = chunked_packed_bit(meas_bases, j, cs);
        let r = #[trigger] chunked_packed_bit(meas_bits, j, cs);
        &&& lost_flags[j] ==> !r
        &&& !lost_flags[j] && mb == packed_bit(packed_bases, j) ==> r == packed_bit(packed_bits, j)
    }
}

/// Bob measures packed photons (basis bit set for rectilinear) in bases of
/// his own drawing; chunks of at least 65536 photons each use their own
/// seeded generator and pack their results on their own (see `layout`).
/// Returns his basis words, his outcome words, and the numbers of photons
/// received and lost.
pub fn measure_photons_packed(packed_bases: &[u64], packed_bits: &[u64], lost_flags: &[bool], config: &BobConfig,
    total_photons: usize) -> (r: (Vec<u64>, Vec<u64>, usize, usize))
    requires
        packed_inputs_ok(packed_bases@, packed_bits@, lost_flags@, total_photons as int),
    ensures
        exists|threads: int| threads >= 1 && #[trigger] packed_measure_ok(r.0@, r.1@, packed_bases@, packed_bits@,
            lost_flags@, total_photons as int, chunk_size_spec(total_photons as int, threads, 65536)),
        r.2 == count_range(clear_at(lost_flags@), 0, total_photons as int),
        r.3 == count_range(set_at(lost_flags@), 0, total_photons as int),
{
    let n = total_photons;
    let num_threads = worker_count();
    let chunk_len = chunk_size(n, num_threads, 65536);
    let num_chunks = chunk_count(n, chunk_len);
    let ghost cs = chunk_len as int;
    let ghost wpc = words_per_chunk(cs);
    let f = |c: usize| -> (r: (Vec<u64>, Vec<u64>, usize, usize))
        requires
            c < num_chunks,
        ensures
            packed_measure_chunk_ok(r.0@, r.1@, packed_bases@, packed_bits@, lost_flags@, chunk_start(c as int, chunk_len as int),
                chunk_end(c as int, chunk_len as int, n as int) - chunk_start(c as int, chunk_len as int)),
            r.2 == count_range(clear_at(lost_flags@), chunk_start(c as int, chunk_len as int), chunk_end(c as int, chunk_len as int, n as int)),
            r.3 == count_range(set_at(lost_flags@), chunk_start(c as int, chunk_len as int), chunk_end(c as int, chunk_len as int, n as int)),
    {
        let (start, end) = chunk_bounds(c, chunk_len, n);
        let (bases, bits, received, lost, _draws) = measure_packed_chunk(packed_bases, packed_bits, lost_flags, config,
            c, start, end, n);
        (bases, bits, received, lost)
    };
    let mut results = par_map_range(num_chunks, f);
    assert forall|k: int| 0 <= k < num_chunks implies packed_measure_chunk_ok((#[trigger] results@[k]).0@, results@[k].1@,
        packed_bases@, packed_bits@, lost_flags@, chunk_start(k, cs), chunk_end(k, cs, n as int) - chunk_start(k, cs))
        && results@[k].2 == count_range(clear_at(lost_flags@), chunk_start(k, cs), chunk_end(k, cs, n as int))
        && results@[k].3 == count_range(set_at(lost_flags@), chunk_start(k, cs), chunk_end(k, cs, n as int)) by {
        assert(call_ensures(f, (k as usize,), results@[k]));
    }

    let mut all_bases: Vec<u64> = Vec::new();
    let mut all_bits: Vec<u64> = Vec::new();
    let mut total_received: usize = 0;
    let mut total_lost: usize = 0;
    proof {
        lemma_chunk_count_zero(n as int, cs);
        assert(0 * wpc == 0);
    }
    let mut c: usize = 0;
    while c < num_chunks
        invariant
            0 <= c <= num_chunks,
            num_chunks == ceil_div(n as int, cs),
            cs == chunk_len,
            cs >= 65536,
            wpc == words_per_chunk(cs),
            packed_inputs_ok(packed_bases@, packed_bits@, lost_flags@, n as int),
            results@.len() == num_chunks - c,
            forall|k: int| 0 <= k < results@.len() ==> packed_measure_chunk_ok((#[trigger] results@[k]).0@, results@[k].1@,
                packed_bases@, packed_bits@, lost_flags@, chunk_start(k + c, cs), chunk_end(k + c, cs, n as int) - chunk_start(k + c, cs))
                && results@[k].2 == count_range(clear_at(lost_flags@), chunk_start(k + c, cs), chunk_end(k + c, cs, n as int))
                && results@[k].3 == count_range(set_at(lost_flags@), chunk_start(k + c, cs), chunk_end(k + c, cs, n as int)),
            c < num_chunks ==> all_bases@.len() == c * wpc && all_bits@.len() == c * wpc,
            c == num_chunks ==> all_bases@.len() == chunked_len(n as int, cs) && all_bits@.len() == chunked_len(n as int, cs),
            padding_clear(all_bases@, n as int, cs),
            padding_clear(all_bits@, n as int, cs),
            forall|j: int| 0 <= j < chunks_covered(c as int, cs, n as int) ==> {
                let mb = chunked_packed_bit(all_bases@, j, cs);
                let r = #[trigger] chunked_packed_bit(all_bits@, j, cs);
                &&& lost_flags@[j] ==> !r
                &&& !lost_flags@[j] && mb == packed_bit(packed_bases@, j) ==> r == packed_bit(packed_bits@, j)
            },
            total_received == count_range(clear_at(lost_flags@), 0, chunks_covered(c as int, cs, n as int)),
            total_lost == count_range(set_at(lost_flags@), 0, chunks_covered(c as int, cs, n as int)),
        decreases num_chunks - c,
    {
        proof {
            lemma_chunks_tile(c as int, cs, n as int);
            lemma_chunked_len_parts(c as int, cs, n as int);
            lemma_chunk_start_in_range(c as int, cs, n as int);
        }
        let ghost start = chunk_start(c as int, cs);
        let ghost end = chunk_end(c as int, cs, n as int);
        let ghost len = end - start;
        let ghost prev = results@;
        let ghost (b0, t0) = (all_bases@, all_bits@);
        let (mut bases, mut bits, received, lost) = results.remove(0);
        let ghost (b1, t1) = (bases@, bits@);
        proof {
            lemma_count_split(clear_at(lost_flags@), 0, start, end);
            lemma_count_split(set_at(lost_flags@), 0, start, end);
            lemma_count_bound(clear_at(lost_flags@), 0, end);
            lemma_count_bound(set_at(lost_flags@), 0, end);
        }
        all_bases.append(&mut bases);
        all_bits.append(&mut bits);
        total_received = total_received + received;
        total_lost = total_lost + lost;
        c = c + 1;
        proof {
            let cc = c - 1;
            assert(b0.len() == cc * wpc);
            assert forall|w: int, k: u64| 0 <= w < all_bases@.len() && k < 64 && #[trigger] word_bit(all_bases@[w], k) implies
                (w % wpc) * 64 + k < cs && (w / wpc) * cs + (w % wpc) * 64 + k < n by {
                if w >= b0.len() {
                    let lw = w - b0.len();
                    assert(all_bases@[w] == b1[lw]);
                    lemma_chunked_word_split(cc, lw, cs);
                    assert(lw * 64 + k < len);
                } else {
                    assert(all_bases@[w] == b0[w]);
                }
            }
            assert forall|w: int, k: u64| 0 <= w < all_bits@.len() && k < 64 && #[trigger] word_bit(all_bits@[w], k) implies
                (w % wpc) * 64 + k < cs && (w / wpc) * cs + (w % wpc) * 64 + k < n by {
                if w >= t0.len() {
                    let lw = w - t0.len();
                    assert(all_bits@[w] == t1[lw]);
                    lemma_chunked_word_split(cc, lw, cs);
                    assert(lw * 64 + k < len);
                } else {
                    assert(all_bits@[w] == t0[w]);
                }
            }
            assert forall|j: int| 0 <= j < end implies {
                let mb = chunked_packed_bit(all_bases@, j, cs);
                let r = #[trigger] chunked_packed_bit(all_bits@, j, cs);
                &&& lost_flags@[j] ==> !r
                &&& !lost_flags@[j] && mb == packed_bit(packed_bases@, j) ==> r == packed_bit(packed_bits@, j)
            } by {
                if j >= start {
                    let i = j - start;
                    lemma_chunked_position(cc, i, cs);
                    assert(j == cc * cs + i);
                    assert(i / 64 < b1.len()) by (nonlinear_arith)
                        requires i < len, b1.len() == (len + 63) / 64, i >= 0;
                    assert(chunked_word(j, cs) == b0.len() + i / 64);
                    assert(all_bases@[chunked_word(j, cs)] == b1[i / 64]);
                    assert(all_bits@[chunked_word(j, cs)] == t1[i / 64]);
                    assert(start + i == j);
                    assert(packed_measure_chunk_ok(b1, t1, packed_bases@, packed_bits@, lost_flags@, start, len));
                    assert(chunked_packed_bit(all_bits@, j, cs) == word_bit(t1[i / 64], (i % 64) as u64));
                    assert(chunked_packed_bit(all_bases@, j, cs) == word_bit(b1[i / 64], (i % 64) as u64));
                } else {
                    assert(chunked_word(j, cs) < b0.len()) by {
                        crate::layout::lemma_chunked_word_before(j, cs, cc);
                    }
                    assert(all_bases@[chunked_word(j, cs)] == b0[chunked_word(j, cs)]);
                    assert(all_bits@[chunked_word(j, cs)] == t0[chunked_word(j, cs)]);
                    assert(chunked_packed_bit(t0, j, cs) == chunked_packed_bit(all_bits@, j, cs));
                    assert(chunked_packed_bit(b0, j, cs) == chunked_packed_bit(all_bases@, j, cs));
                }
            }
            if c < num_chunks {
                assert(c * wpc == cc * wpc + wpc) by (nonlinear_arith)
                    requires cc == c - 1;
            }
            assert forall|k: int| 0 <= k < results@.len() implies packed_measure_chunk_ok((#[trigger] results@[k]).0@, results@[k].1@,
                packed_bases@, packed_bits@, lost_flags@, chunk_start(k + c, cs), chunk_end(k + c, cs, n as int) - chunk_start(k + c, cs))
                && results@[k].2 == count_range(clear_at(lost_flags@), chunk_start(k + c, cs), chunk_end(k + c, cs, n as int))
                && results@[k].3 == count_range(set_at(lost_flags@), chunk_start(k + c, cs), chunk_end(k + c, cs, n as int)) by {
                assert(results@[k] == prev[k + 1]);
            }
        }
    }
    proof {
        if num_chunks > 0 {
            lemma_chunks_tile(num_chunks - 1, cs, n as int);
        } else {
            assert(chunked_len(0, cs) == 0) by (nonlinear_arith)
                requires cs >= 1;
        }
    }
    let r = (all_bases, all_bits, total_received, total_lost);
    assert(packed_measure_ok(r.0@, r.1@, packed_bases@, packed_bits@, lost_flags@, n as int,
        chunk_size_spec(n as int, num_threads as int, 65536)));
    r
}

} // verus!
