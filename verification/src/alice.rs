use vstd::prelude::*;

use crate::bits::{lemma_bit_set_one, lemma_bit_zero, word_bit};
use crate::layout::{
    chunk_padding_clear, chunked_len, lemma_chunked_len_parts, lemma_chunked_word_split, padding_clear,
    words_per_chunk,
};
use crate::chunks::{
    ceil_div, chunk_size_spec, chunk_bounds, chunk_count, chunk_end, chunk_size, chunk_start, chunks_covered,
    lemma_chunk_count_zero, lemma_chunk_start_in_range, lemma_chunks_tile,
};
use crate::parallel::{par_map_range, worker_count};
use crate::photon::{basis_from_draw, basis_of_draw, bit_of_bool, Basis, Bit, Photon};
use crate::rng::{
    chunk_seed, draw_below, draw_bool, draw_u64, lemma_unit_below_bounds, seeded_rng, unit_below, UNIT_SCALE,
};

verus! {

/// Alice's source. `attenuation_threshold` is the probability that a
/// photon is lost in the fibre, in units of `2^-53`: the generator's draw
/// `random::<f64>() < p` is `unit_below(word, ceil(p * 2^53))`.
#[derive(Debug, Clone, Copy)]
pub struct AliceConfig {
    pub num_photons: usize,
    pub attenuation_threshold: u64,
    pub seed: u64,
}

impl Default for AliceConfig {
    /// A million photons, 1% attenuation, seed 42.
    fn default() -> (r: AliceConfig)
        ensures
            r.num_photons == 1_000_000,
            r.attenuation_threshold == 90_071_992_547_410,
            r.seed == 42,
    {
        AliceConfig { num_photons: 1_000_000, attenuation_threshold: 90_071_992_547_410, seed: 42 }
    }
}

/// The photons Alice sends, with the bases and bits she chose.
#[derive(Debug, Clone)]
pub struct GeneratedPhotons {
    pub photons: Vec<Photon>,
    pub bases: Vec<Basis>,
    pub bits: Vec<Bit>,
    /// Always 0: the generators count no losses (each chunk's count stays
    /// at zero); the losses show only in `photons[i].lost`.
    pub total_lost: usize,
    pub total_generated: usize,
}

impl GeneratedPhotons {
    pub fn len(&self) -> (r: usize)
        ensures
            r == self.photons@.len(),
    {
        self.photons.len()
    }
}

/// The photon that Alice prepares from her draws: the basis draw, the bit
/// draw and the loss word, lost when the word falls below the attenuation.
pub open spec fn prepared_photon(basis_draw: bool, bit_draw: bool, loss_word: u64, attenuation_threshold: u64) -> Photon {
    Photon {
        basis: basis_of_draw(basis_draw),
        bit: bit_of_bool(bit_draw),
        lost: unit_below(loss_word, attenuation_threshold),
    }
}

/// Prepares one photon from Alice's three draws.
pub fn prepare_photon(basis_draw: bool, bit_draw: bool, loss_word: u64, attenuation_threshold: u64) -> (p: Photon)
    ensures
        p == prepared_photon(basis_draw, bit_draw, loss_word, attenuation_threshold),
{
    let basis = basis_from_draw(basis_draw);
    let bit = Bit::from(bit_draw);
    let mut photon = Photon::new(basis, bit);
    photon.lost = draw_below(loss_word, attenuation_threshold);
    photon
}

/// What holds of a photon whatever Alice drew: it is lost only if the
/// attenuation is positive, and kept only if it is below certainty.
pub open spec fn loss_possible(p: Photon, attenuation_threshold: u64) -> bool {
    &&& p.lost ==> attenuation_threshold > 0
    &&& !p.lost ==> attenuation_threshold < UNIT_SCALE
}

/// The photons, bases and bits of a run of `len` preparations.
pub open spec fn generated_ok(photons: Seq<Photon>, bases: Seq<Basis>, bits: Seq<Bit>, len: int, attenuation_threshold: u64) -> bool {
    &&& photons.len() == len
    &&& bases.len() == len
    &&& bits.len() == len
    &&& forall|i: int| 0 <= i < len ==> (#[trigger] photons[i]).basis == bases[i] && photons[i].bit == bits[i]
        && loss_possible(photons[i], attenuation_threshold)
}

/// The photons are those Alice prepares from the draws `draws` (basis
/// draw, bit draw and loss word, photon by photon).
pub open spec fn prepared_from_draws(photons: Seq<Photon>, draws: Seq<(bool, bool, u64)>, attenuation_threshold: u64) -> bool {
    &&& photons.len() == draws.len()
    &&& forall|k: int| 0 <= k < draws.len() ==> #[trigger] photons[k] == prepared_photon(draws[k].0, draws[k].1,
        draws[k].2, attenuation_threshold)
}

/// Prepares the `len` photons of chunk `chunk_idx` with its own generator;
/// also gives the draws it consumed.
fn generate_chunk(config: &AliceConfig, chunk_idx: usize, len: usize)
    -> (r: (Vec<Photon>, Vec<Basis>, Vec<Bit>, usize, Ghost<Seq<(bool, bool, u64)>>))
    ensures
        prepared_from_draws(r.0@, r.4@, config.attenuation_threshold),
        generated_ok(r.0@, r.1@, r.2@, len as int, config.attenuation_threshold),
        r.3 == 0,
{
    let mut rng = seeded_rng(chunk_seed(config.seed, chunk_idx));
    let mut photons: Vec<Photon> = Vec::new();
    let mut bases: Vec<Basis> = Vec::new();
    let mut bits: Vec<Bit> = Vec::new();
    let lost: usize = 0;
    let ghost mut draws: Seq<(bool, bool, u64)> = Seq::empty();
    for i in 0..len
        invariant
            generated_ok(photons@, bases@, bits@, i as int, config.attenuation_threshold),
            prepared_from_draws(photons@, draws, config.attenuation_threshold),
    {
        let basis_draw = draw_bool(&mut rng);
        let bit_draw = draw_bool(&mut rng);
        let loss_word = draw_u64(&mut rng);
        let photon = prepare_photon(basis_draw, bit_draw, loss_word, config.attenuation_threshold);
        proof {
            lemma_unit_below_bounds(loss_word, config.attenuation_threshold);
        }
        photons.push(photon);
        bases.push(photon.basis);
        bits.push(photon.bit);
        proof {
            draws = draws.push((basis_draw, bit_draw, loss_word));
        }
    }
    (photons, bases, bits, lost, Ghost(draws))
}

/// Alice prepares `num_photons` photons in random bases with random bits,
/// each chunk of at least 1024 photons from its own seeded generator.
/// The loss count is reported as zero: losses show only in the photons.
pub fn generate_photons_parallel(config: &AliceConfig) -> (r: GeneratedPhotons)
    ensures
        generated_ok(r.photons@, r.bases@, r.bits@, config.num_photons as int, config.attenuation_threshold),
        r.total_lost == 0,
        r.total_generated == config.num_photons,
{
    let n = config.num_photons;
    let num_threads = worker_count();
    let chunk_len = chunk_size(n, num_threads, 1024);
    let num_chunks = chunk_count(n, chunk_len);
    let f = |c: usize| -> (r: (Vec<Photon>, Vec<Basis>, Vec<Bit>, usize))
        requires
            c < num_chunks,
        ensures
            generated_ok(r.0@, r.1@, r.2@, chunk_end(c as int, chunk_len as int, n as int)
                - chunk_start(c as int, chunk_len as int), config.attenuation_threshold),
            r.3 == 0,
    {
        let (start, end) = chunk_bounds(c, chunk_len, n);
        let (photons, bases, bits, lost, _draws) = generate_chunk(config, c, end - start);
        (photons, bases, bits, lost)
    };
    let mut results = par_map_range(num_chunks, f);
    let ghost t = config.attenuation_threshold;
    assert forall|k: int| 0 <= k < num_chunks implies generated_ok((#[trigger] results@[k]).0@, results@[k].1@, results@[k].2@,
        chunk_end(k, chunk_len as int, n as int) - chunk_start(k, chunk_len as int), t) && results@[k].3 == 0 by {
        assert(call_ensures(f, (k as usize,), results@[k]));
    }

    let mut all_photons: Vec<Photon> = Vec::new();
    let mut all_bases: Vec<Basis> = Vec::new();
    let mut all_bits: Vec<Bit> = Vec::new();
    let mut total_lost: usize = 0;
    proof {
        lemma_chunk_count_zero(n as int, chunk_len as int);
    }
    let mut c: usize = 0;
    while c < num_chunks
        invariant
            0 <= c <= num_chunks,
            num_chunks == ceil_div(n as int, chunk_len as int),
            chunk_len >= 1,
            t == config.attenuation_threshold,
            results@.len() == num_chunks - c,
            forall|k: int| 0 <= k < results@.len() ==> generated_ok((#[trigger] results@[k]).0@, results@[k].1@,
                results@[k].2@, chunk_end(k + c, chunk_len as int, n as int) - chunk_start(k + c, chunk_len as int), t)
                && results@[k].3 == 0,
            generated_ok(all_photons@, all_bases@, all_bits@, chunks_covered(c as int, chunk_len as int, n as int), t),
            total_lost == 0,
        decreases num_chunks - c,
    {
        proof {
            lemma_chunks_tile(c as int, chunk_len as int, n as int);
            lemma_chunk_start_in_range(c as int, chunk_len as int, n as int);
        }
        let ghost prev = results@;
        let ghost (p0, b0, t0) = (all_photons@, all_bases@, all_bits@);
        let (mut photons, mut bases, mut bits, lost) = results.remove(0);
        let ghost (p1, b1, t1) = (photons@, bases@, bits@);
        all_photons.append(&mut photons);
        all_bases.append(&mut bases);
        all_bits.append(&mut bits);
        total_lost = total_lost + lost;
        c = c + 1;
        proof {
            assert forall|i: int| 0 <= i < all_photons@.len() implies (#[trigger] all_photons@[i]).basis == all_bases@[i]
                && all_photons@[i].bit == all_bits@[i] && loss_possible(all_photons@[i], t) by {
                if i >= p0.len() {
                    assert(all_photons@[i] == p1[i - p0.len()]);
                    assert(all_bases@[i] == b1[i - p0.len()]);
                    assert(all_bits@[i] == t1[i - p0.len()]);
                } else {
                    assert(all_photons@[i] == p0[i]);
                }
            }
            assert forall|k: int| 0 <= k < results@.len() implies generated_ok((#[trigger] results@[k]).0@, results@[k].1@,
                results@[k].2@, chunk_end(k + c, chunk_len as int, n as int) - chunk_start(k + c, chunk_len as int), t)
                && results@[k].3 == 0 by {
                assert(results@[k] == prev[k + 1]);
            }
        }
    }
    proof {
        if num_chunks > 0 {
            lemma_chunks_tile(num_chunks - 1, chunk_len as int, n as int);
        }
    }
    GeneratedPhotons {
        photons: all_photons,
        bases: all_bases,
        bits: all_bits,
        total_lost,
        total_generated: n,
    }
}

/// Packed preparations of one chunk of `len` photons: the basis and bit
/// words hold nothing past the chunk, and the loss flags are possible.
pub open spec fn packed_chunk_ok(bases: Seq<u64>, bits: Seq<u64>, lost: Seq<bool>, len: int, attenuation_threshold: u64) -> bool {
    &&& chunk_padding_clear(bases, len)
    &&& chunk_padding_clear(bits, len)
    &&& lost.len() == len
    &&& forall|i: int| 0 <= i < len ==> (#[trigger] lost[i] ==> attenuation_threshold > 0)
        && (!lost[i] ==> attenuation_threshold < UNIT_SCALE)
}

/// Packed preparations from the draws `draws`: the basis bit of photon `j`
/// (bit `j % 64` of word `j / 64`) is its basis draw, its value bit is its
/// bit draw, and it is lost exactly when its loss word falls below the
/// attenuation.
pub open spec fn packed_from_draws(bases: Seq<u64>, bits: Seq<u64>, lost: Seq<bool>, draws: Seq<(bool, bool, u64)>,
    attenuation_threshold: u64) -> bool {
    &&& lost.len() == draws.len()
    &&& forall|w: int, k: u64| 0 <= w < bases.len() && k < 64 && w * 64 + k < draws.len()
        ==> #[trigger] word_bit(bases[w], k) == draws[w * 64 + k].0
    &&& forall|w: int, k: u64| 0 <= w < bits.len() && k < 64 && w * 64 + k < draws.len()
        ==> #[trigger] word_bit(bits[w], k) == draws[w * 64 + k].1
    &&& forall|j: int| 0 <= j < draws.len() ==> #[trigger] lost[j] == unit_below(draws[j].2, attenuation_threshold)
}

/// Prepares one chunk of `len` photons in packed form; also gives the draws
/// it consumed.
fn generate_packed_chunk(config: &AliceConfig, chunk_idx: usize, len: usize)
    -> (r: (Vec<u64>, Vec<u64>, Vec<bool>, usize, Ghost<Seq<(bool, bool, u64)>>))
    ensures
        packed_from_draws(r.0@, r.1@, r.2@, r.4@, config.attenuation_threshold),
        packed_chunk_ok(r.0@, r.1@, r.2@, len as int, config.attenuation_threshold),
        r.3 == 0,
{
    let t = config.attenuation_threshold;
    let mut rng = seeded_rng(chunk_seed(config.seed, chunk_idx));
    let num_u64 = chunk_count(len, 64);
    let mut packed_bases: Vec<u64> = vec![0u64; num_u64];
    let mut packed_bits: Vec<u64> = vec![0u64; num_u64];
    let mut lost_flags: Vec<bool> = vec![false; len];
    let lost: usize = 0;
    let ghost mut draws: Seq<(bool, bool, u64)> = Seq::empty();
    proof {
        assert forall|w: int, k: u64| 0 <= w < num_u64 && k < 64 implies !#[trigger] word_bit(packed_bases@[w], k) by {
            lemma_bit_zero(k);
        }
        assert forall|w: int, k: u64| 0 <= w < num_u64 && k < 64 implies !#[trigger] word_bit(packed_bits@[w], k) by {
            lemma_bit_zero(k);
        }
        lemma_chunk_count_zero(len as int, 64);
    }
    for i in 0..len
        invariant
            t == config.attenuation_threshold,
            num_u64 == ceil_div(len as int, 64),
            packed_bases@.len() == num_u64,
            packed_bits@.len() == num_u64,
            lost_flags@.len() == len,
            forall|w: int, k: u64| 0 <= w < num_u64 && k < 64 && #[trigger] word_bit(packed_bases@[w], k) ==> w * 64 + k < i,
            forall|w: int, k: u64| 0 <= w < num_u64 && k < 64 && #[trigger] word_bit(packed_bits@[w], k) ==> w * 64 + k < i,
            forall|j: int| 0 <= j < i ==> (#[trigger] lost_flags@[j] ==> t > 0) && (!lost_flags@[j] ==> t < UNIT_SCALE),
            draws.len() == i,
            forall|w: int, k: u64| 0 <= w < num_u64 && k < 64 && w * 64 + k < i
                ==> #[trigger] word_bit(packed_bases@[w], k) == draws[w * 64 + k].0,
            forall|w: int, k: u64| 0 <= w < num_u64 && k < 64 && w * 64 + k < i
                ==> #[trigger] word_bit(packed_bits@[w], k) == draws[w * 64 + k].1,
            forall|j: int| 0 <= j < i ==> #[trigger] lost_flags@[j] == unit_below(draws[j].2, t),
    {
        let word_idx = i / 64;
        let bit_idx = (i % 64) as u64;
        proof {
            assert(word_idx < num_u64) by (nonlinear_arith)
                requires word_idx == i / 64, i < len, num_u64 == (len + 63) / 64;
        }
        let basis = draw_bool(&mut rng);
        let bit = draw_bool(&mut rng);
        let loss_word = draw_u64(&mut rng);
        let lost_photon = draw_below(loss_word, t);
        proof {
            lemma_unit_below_bounds(loss_word, t);
        }
        if basis {
            let ghost before = packed_bases@[word_idx as int];
            packed_bases[word_idx] = packed_bases[word_idx] | (1u64 << bit_idx);
            proof {
                assert forall|k: u64| k < 64 implies #[trigger] word_bit(packed_bases@[word_idx as int], k)
                    == (word_bit(before, k) || k == bit_idx) by {
                    lemma_bit_set_one(before, bit_idx, k);
                }
            }
        }
        if bit {
            let ghost before = packed_bits@[word_idx as int];
            packed_bits[word_idx] = packed_bits[word_idx] | (1u64 << bit_idx);
            proof {
                assert forall|k: u64| k < 64 implies #[trigger] word_bit(packed_bits@[word_idx as int], k)
                    == (word_bit(before, k) || k == bit_idx) by {
                    lemma_bit_set_one(before, bit_idx, k);
                }
            }
        }
        lost_flags.set(i, lost_photon);
        assert(i == word_idx * 64 + bit_idx);
        proof {
            draws = draws.push((basis, bit, loss_word));
            assert forall|w: int, k: u64| 0 <= w < num_u64 && k < 64 && w * 64 + k < i + 1
                implies #[trigger] word_bit(packed_bases@[w], k) == draws[w * 64 + k].0 by {
                if w * 64 + k == i {
                    assert(w == word_idx && k == bit_idx);
                }
            }
            assert forall|w: int, k: u64| 0 <= w < num_u64 && k < 64 && w * 64 + k < i + 1
                implies #[trigger] word_bit(packed_bits@[w], k) == draws[w * 64 + k].1 by {
                if w * 64 + k == i {
                    assert(w == word_idx && k == bit_idx);
                }
            }
        }
    }
    (packed_bases, packed_bits, lost_flags, lost, Ghost(draws))
}

/// The packed preparation of `n` photons in chunks of `cs`.
pub open spec fn packed_generation_ok(bases: Seq<u64>, bits: Seq<u64>, lost: Seq<bool>, n: int, cs: int,
    attenuation_threshold: u64) -> bool {
    &&& bases.len() == chunked_len(n, cs)
    &&& bits.len() == chunked_len(n, cs)
    &&& padding_clear(bases, n, cs)
    &&& padding_clear(bits, n, cs)
    &&& lost.len() == n
    &&& forall|j: int| 0 <= j < n ==> (#[trigger] lost[j] ==> attenuation_threshold > 0)
        && (!lost[j] ==> attenuation_threshold < UNIT_SCALE)
}

/// Alice prepares `num_photons` photons in packed form: the basis bits
/// (set for rectilinear) and the bit values are packed chunk by chunk
/// (chunks of at least 65536 photons, see `layout`), with one loss flag per
/// photon. The loss count, the last element, is always zero: no chunk
/// counts its losses.
pub fn generate_photons_packed(config: &AliceConfig) -> (r: (Vec<u64>, Vec<u64>, Vec<bool>, usize))
    ensures
        exists|threads: int| threads >= 1 && #[trigger] packed_generation_ok(r.0@, r.1@, r.2@, config.num_photons as int,
            chunk_size_spec(config.num_photons as int, threads, 65536), config.attenuation_threshold),
        r.3 == 0,
{
    let n = config.num_photons;
    let t = config.attenuation_threshold;
    let num_threads = worker_count();
    let chunk_len = chunk_size(n, num_threads, 65536);
    let num_chunks = chunk_count(n, chunk_len);
    let ghost cs = chunk_len as int;
    let ghost wpc = words_per_chunk(cs);
    let f = |c: usize| -> (r: (Vec<u64>, Vec<u64>, Vec<bool>, usize))
        requires
            c < num_chunks,
        ensures
            packed_chunk_ok(r.0@, r.1@, r.2@, chunk_end(c as int, chunk_len as int, n as int)
                - chunk_start(c as int, chunk_len as int), config.attenuation_threshold),
            r.3 == 0,
    {
        let (start, end) = chunk_bounds(c, chunk_len, n);
        let (bases, bits, lost, count, _draws) = generate_packed_chunk(config, c, end - start);
        (bases, bits, lost, count)
    };
    let mut results = par_map_range(num_chunks, f);
    assert forall|k: int| 0 <= k < num_chunks implies packed_chunk_ok((#[trigger] results@[k]).0@, results@[k].1@,
        results@[k].2@, chunk_end(k, cs, n as int) - chunk_start(k, cs), t) && results@[k].3 == 0 by {
        assert(call_ensures(f, (k as usize,), results@[k]));
    }

    let mut all_bases: Vec<u64> = Vec::new();
    let mut all_bits: Vec<u64> = Vec::new();
    let mut all_lost: Vec<bool> = Vec::new();
    let mut total_lost: usize = 0;
    proof {
        lemma_chunk_count_zero(n as int, cs);
        assert(0 * wpc == 0);
    }
    let mut c: usize = 0;
    while c < num_chunks
        invariant
            0 <= c <= num_chunks,
            num_chunks == ceil_div(n as int, cs),
            cs == chunk_len,
            cs >= 65536,
            wpc == words_per_chunk(cs),
            t == config.attenuation_threshold,
            results@.len() == num_chunks - c,
            forall|k: int| 0 <= k < results@.len() ==> packed_chunk_ok((#[trigger] results@[k]).0@, results@[k].1@,
                results@[k].2@, chunk_end(k + c, cs, n as int) - chunk_start(k + c, cs), t) && results@[k].3 == 0,
            c < num_chunks ==> all_bases@.len() == c * wpc && all_bits@.len() == c * wpc,
            c == num_chunks ==> all_bases@.len() == chunked_len(n as int, cs) && all_bits@.len() == chunked_len(n as int, cs),
            padding_clear(all_bases@, n as int, cs),
            padding_clear(all_bits@, n as int, cs),
            all_lost@.len() == chunks_covered(c as int, cs, n as int),
            forall|j: int| 0 <= j < all_lost@.len() ==> (#[trigger] all_lost@[j] ==> t > 0) && (!all_lost@[j] ==> t < UNIT_SCALE),
            total_lost == 0,
        decreases num_chunks - c,
    {
        proof {
            lemma_chunks_tile(c as int, cs, n as int);
            lemma_chunked_len_parts(c as int, cs, n as int);
        }
        let ghost start = chunk_start(c as int, cs);
        let ghost len = chunk_end(c as int, cs, n as int) - start;
        let ghost prev = results@;
        let ghost (b0, t0, l0) = (all_bases@, all_bits@, all_lost@);
        let (mut bases, mut bits, mut lost, lost_count) = results.remove(0);
        let ghost (b1, t1, l1) = (bases@, bits@, lost@);
        all_bases.append(&mut bases);
        all_bits.append(&mut bits);
        all_lost.append(&mut lost);
        total_lost = total_lost + lost_count;
        c = c + 1;
        proof {
            assert forall|w: int, k: u64| 0 <= w < all_bases@.len() && k < 64 && #[trigger] word_bit(all_bases@[w], k) implies
                (w % wpc) * 64 + k < cs && (w / wpc) * cs + (w % wpc) * 64 + k < n by {
                if w >= b0.len() {
                    let lw = w - b0.len();
                    assert(all_bases@[w] == b1[lw]);
                    lemma_chunked_word_split(c - 1, lw, cs);
                    assert(w == (c - 1) * wpc + lw);
                    assert(lw * 64 + k < len);
                    assert((c - 1) * cs + lw * 64 + k < n);
                } else {
                    assert(all_bases@[w] == b0[w]);
                }
            }
            assert forall|w: int, k: u64| 0 <= w < all_bits@.len() && k < 64 && #[trigger] word_bit(all_bits@[w], k) implies
                (w % wpc) * 64 + k < cs && (w / wpc) * cs + (w % wpc) * 64 + k < n by {
                if w >= t0.len() {
                    let lw = w - t0.len();
                    assert(all_bits@[w] == t1[lw]);
                    lemma_chunked_word_split(c - 1, lw, cs);
                    assert(w == (c - 1) * wpc + lw);
                    assert(lw * 64 + k < len);
                    assert((c - 1) * cs + lw * 64 + k < n);
                } else {
                    assert(all_bits@[w] == t0[w]);
                }
            }
            assert forall|j: int| 0 <= j < all_lost@.len() implies (#[trigger] all_lost@[j] ==> t > 0) && (!all_lost@[j] ==> t < UNIT_SCALE) by {
                if j >= l0.len() {
                    assert(all_lost@[j] == l1[j - l0.len()]);
                } else {
                    assert(all_lost@[j] == l0[j]);
                }
            }
            if c < num_chunks {
                assert(c * wpc == (c - 1) * wpc + wpc) by (nonlinear_arith);
            }
            assert forall|k: int| 0 <= k < results@.len() implies packed_chunk_ok((#[trigger] results@[k]).0@, results@[k].1@,
                results@[k].2@, chunk_end(k + c, cs, n as int) - chunk_start(k + c, cs), t) && results@[k].3 == 0 by {
                assert(results@[k] == prev[k + 1]);
            }
        }
    }
    proof {
        if num_chunks > 0 {
            lemma_chunks_tile(num_chunks - 1, cs, n as int);
        } else {
            assert(chunked_len(0, cs) == 0) by (nonlinear_arith)
                requires cs >= 1;
        }
    }
    let r = (all_bases, all_bits, all_lost, total_lost);
    assert(packed_generation_ok(r.0@, r.1@, r.2@, n as int, chunk_size_spec(n as int, num_threads as int, 65536), t));
    r
}

} // verus!
