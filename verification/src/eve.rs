use vstd::prelude::*;

use crate::bits::{lemma_bit_set_one, lemma_bit_zero, packed_bit, test_bit, word_bit};
use crate::bob::packed_inputs_ok;
use crate::layout::{
    chunk_padding_clear, chunked_len, chunked_packed_bit, chunked_word, lemma_chunked_len_parts,
    lemma_chunked_position, lemma_chunked_word_split, padding_clear, words_per_chunk,
};
use crate::ranges::{count_range, lemma_count_bound, set_at};
use crate::chunks::{
    ceil_div, chunk_size_spec, chunk_bounds, chunk_count, chunk_end, chunk_size, chunk_start, chunks_covered,
    lemma_chunk_count_zero, lemma_chunk_start_in_range, lemma_chunks_tile,
};
use crate::parallel::{par_map_range, worker_count};
use crate::photon::{basis_from_draw, basis_of_draw, measure_photon_fast, measure_rule, Basis, Bit, Photon};
use crate::rng::{
    chunk_seed, draw_below, draw_bool, draw_u64, lemma_unit_below_bounds, seeded_rng, unit_below, UNIT_SCALE,
};

verus! {

/// The eavesdropper. `interception_threshold` is the probability that she
/// intercepts a photon that arrives, in units of `2^-53` (see `AliceConfig`).
#[derive(Debug, Clone, Copy)]
pub struct EveConfig {
    pub enabled: bool,
    pub interception_threshold: u64,
    pub seed: u64,
}

impl Default for EveConfig {
    /// Enabled, intercepting half the photons, seed 67890.
    fn default() -> (r: EveConfig)
        ensures
            r.enabled,
            r.interception_threshold == 4_503_599_627_370_496,
            r.seed == 67890,
    {
        EveConfig { enabled: true, interception_threshold: 4_503_599_627_370_496, seed: 67890 }
    }
}

/// What Eve learnt: the bases she measured in and the bits she obtained,
/// one per intercepted photon, in order. `modified_photons` stays empty.
#[derive(Debug, Clone)]
pub struct EveResults {
    pub intercepted_count: usize,
    pub eavesdropped_bits: Vec<Bit>,
    pub eavesdropped_bases: Vec<Basis>,
    pub modified_photons: Vec<Photon>,
}

/// The photon Eve resends after measuring `photon` in the basis her draw
/// selects: prepared in that basis, with the bit she measured.
pub open spec fn resent_photon(photon: Photon, basis_draw: bool, random_bit: bool) -> Photon {
    let b = basis_of_draw(basis_draw);
    Photon { basis: b, bit: measure_rule(photon.basis, photon.bit, b, random_bit), lost: false }
}

/// Eve measures `photon` and prepares the photon she resends.
pub fn resend_photon(photon: &Photon, basis_draw: bool, random_bit: bool) -> (r: Photon)
    ensures
        r == resent_photon(*photon, basis_draw, random_bit),
{
    let eve_basis = basis_from_draw(basis_draw);
    let measured_bit = measure_photon_fast(photon.basis, photon.bit, eve_basis, random_bit);
    Photon::new(eve_basis, measured_bit)
}

/// What holds of one photon after Eve, whatever she drew: an intercepted
/// photon arrived and is replaced by one that arrives, carrying the
/// sent bit whenever Eve happened to use the sending basis; any other
/// photon passes unchanged.
pub open spec fn passes_eve(orig: Photon, out: Photon, intercepted: bool, threshold: u64) -> bool {
    if intercepted {
        &&& !orig.lost
        &&& !out.lost
        &&& out.basis == orig.basis ==> out.bit == orig.bit
        &&& threshold > 0
    } else {
        &&& out == orig
        &&& !orig.lost ==> threshold < UNIT_SCALE
    }
}

/// The bases of a run of photons.
pub open spec fn bases_of(ps: Seq<Photon>) -> Seq<Basis> {
    Seq::new(ps.len(), |k: int| ps[k].basis)
}

/// The bits of a run of photons.
pub open spec fn bits_of(ps: Seq<Photon>) -> Seq<Bit> {
    Seq::new(ps.len(), |k: int| ps[k].bit)
}

/// The photons of `out` at the positions that `flags` marks, in order.
pub open spec fn flagged_photons(out: Seq<Photon>, flags: Seq<bool>) -> Seq<Photon>
    decreases flags.len(),
{
    if flags.len() == 0 {
        Seq::empty()
    } else {
        let prev = flagged_photons(out.drop_last(), flags.drop_last());
        if flags.last() { prev.push(out.last()) } else { prev }
    }
}

/// Number of positions that `flags` marks.
pub open spec fn flag_count(flags: Seq<bool>) -> nat
    decreases flags.len(),
{
    if flags.len() == 0 {
        0
    } else {
        flag_count(flags.drop_last()) + if flags.last() { 1nat } else { 0nat }
    }
}

/// The photons `lo..hi` after Eve, with `flags` marking the intercepted
/// ones, and Eve's record of them (her bases and bits, in order).
pub open spec fn eve_run_ok(photons: Seq<Photon>, lo: int, hi: int, out: Seq<Photon>, flags: Seq<bool>,
    eve_bases: Seq<Basis>, eve_bits: Seq<Bit>, intercepted: int, threshold: u64) -> bool {
    &&& out.len() == hi - lo
    &&& flags.len() == hi - lo
    &&& forall|k: int| 0 <= k < hi - lo ==> passes_eve(photons[lo + k], #[trigger] out[k], flags[k], threshold)
    &&& eve_bases == bases_of(flagged_photons(out, flags))
    &&& eve_bits == bits_of(flagged_photons(out, flags))
    &&& intercepted == flag_count(flags)
}

/// Eve's step on one photon from her draws (the interception word, and the
/// basis draw and coin used when she intercepts): a photon that arrived is
/// intercepted exactly when the word falls below the interception threshold,
/// and is then replaced by the photon she resends; any other photon passes.
/// Gives the photon after Eve and whether she intercepted.
pub open spec fn eve_step(photon: Photon, draw: (u64, bool, bool), threshold: u64) -> (Photon, bool) {
    if !photon.lost && unit_below(draw.0, threshold) {
        (resent_photon(photon, draw.1, draw.2), true)
    } else {
        (photon, false)
    }
}

/// The photons `lo..` after Eve, and her interception flags, are her steps
/// with the draws `draws`.
pub open spec fn eve_from_draws(photons: Seq<Photon>, lo: int, draws: Seq<(u64, bool, bool)>, out: Seq<Photon>,
    flags: Seq<bool>, threshold: u64) -> bool {
    &&& out.len() == draws.len()
    &&& flags.len() == draws.len()
    &&& forall|k: int| 0 <= k < draws.len() ==> (#[trigger] out[k], flags[k]) == eve_step(photons[lo + k], draws[k],
        threshold)
}

/// Lets the photons `start..end` pass Eve with the generator of chunk
/// `chunk_idx`; also gives her flags and the draws she consumed.
fn intercept_chunk(photons: &[Photon], config: &EveConfig, chunk_idx: usize, start: usize, end: usize)
    -> (r: (Vec<Photon>, Vec<Bit>, Vec<Basis>, usize, Ghost<Seq<bool>>, Ghost<Seq<(u64, bool, bool)>>))
    requires
        start <= end <= photons@.len(),
    ensures
        eve_from_draws(photons@, start as int, r.5@, r.0@, r.4@, config.interception_threshold),
        eve_run_ok(photons@, start as int, end as int, r.0@, r.4@, r.2@, r.1@, r.3 as int, config.interception_threshold),
{
    let t = config.interception_threshold;
    let mut rng = seeded_rng(chunk_seed(config.seed, chunk_idx));
    let mut modified_photons: Vec<Photon> = Vec::new();
    let mut eavesdropped_bits: Vec<Bit> = Vec::new();
    let mut eavesdropped_bases: Vec<Basis> = Vec::new();
    let mut intercepted: usize = 0;
    let ghost mut flags: Seq<bool> = Seq::empty();
    let ghost mut draws: Seq<(u64, bool, bool)> = Seq::empty();
    proof {
        crate::eve::lemma_empty_run(photons@, start as int, t);
        assert(modified_photons@ =~= Seq::<Photon>::empty());
        assert(eavesdropped_bases@ =~= Seq::<Basis>::empty());
        assert(eavesdropped_bits@ =~= Seq::<Bit>::empty());
    }
    for i in start..end
        invariant
            end <= photons@.len(),
            t == config.interception_threshold,
            eve_run_ok(photons@, start as int, i as int, modified_photons@, flags, eavesdropped_bases@,
                eavesdropped_bits@, intercepted as int, t),
            eve_from_draws(photons@, start as int, draws, modified_photons@, flags, t),
    {
        let ghost prev_out = modified_photons@;
        let ghost prev_flags = flags;
        proof {
            crate::eve::lemma_flag_count_bound(flags);
        }
        let photon = photons[i];
        if photon.lost {
            modified_photons.push(photon);
            proof {
                flags = flags.push(false);
                draws = draws.push((0u64, false, false));
                crate::eve::lemma_run_extend(photons@, start as int, prev_out, prev_flags, photon, false,
                    eavesdropped_bases@, eavesdropped_bits@, t);
            }
        } else {
            let word = draw_u64(&mut rng);
            proof {
                lemma_unit_below_bounds(word, t);
            }
            if draw_below(word, t) {
                let basis_draw = draw_bool(&mut rng);
                let random_bit = draw_bool(&mut rng);
                let new_photon = resend_photon(&photon, basis_draw, random_bit);
                let ghost prev_bases = eavesdropped_bases@;
                let ghost prev_bits = eavesdropped_bits@;
                modified_photons.push(new_photon);
                eavesdropped_bits.push(new_photon.bit);
                eavesdropped_bases.push(new_photon.basis);
                intercepted = intercepted + 1;
                proof {
                    flags = flags.push(true);
                    draws = draws.push((word, basis_draw, random_bit));
                    crate::eve::lemma_run_extend(photons@, start as int, prev_out, prev_flags, new_photon, true,
                        prev_bases, prev_bits, t);
                }
            } else {
                modified_photons.push(photon);
                proof {
                    flags = flags.push(false);
                    draws = draws.push((word, false, false));
                    crate::eve::lemma_run_extend(photons@, start as int, prev_out, prev_flags, photon, false,
                        eavesdropped_bases@, eavesdropped_bits@, t);
                }
            }
        }
    }
    (modified_photons, eavesdropped_bits, eavesdropped_bases, intercepted, Ghost(flags), Ghost(draws))
}

/// An empty run.
proof fn lemma_empty_run(photons: Seq<Photon>, lo: int, threshold: u64)
    ensures
        eve_run_ok(photons, lo, lo, Seq::empty(), Seq::empty(), Seq::empty(), Seq::empty(), 0, threshold),
{
    assert(bases_of(flagged_photons(Seq::empty(), Seq::empty())) =~= Seq::empty());
    assert(bits_of(flagged_photons(Seq::empty(), Seq::empty())) =~= Seq::empty());
}

/// With no position flagged nothing is recorded.
pub proof fn lemma_no_flags(out: Seq<Photon>, flags: Seq<bool>)
    requires
        forall|k: int| 0 <= k < flags.len() ==> !flags[k],
    ensures
        flag_count(flags) == 0,
        flagged_photons(out, flags).len() == 0,
    decreases flags.len(),
{
    if flags.len() > 0 {
        lemma_no_flags(out.drop_last(), flags.drop_last());
    }
}

/// At most every position is flagged.
proof fn lemma_flag_count_bound(flags: Seq<bool>)
    ensures
        flag_count(flags) <= flags.len(),
    decreases flags.len(),
{
    if flags.len() > 0 {
        lemma_flag_count_bound(flags.drop_last());
    }
}

/// Extending a run by one photon.
proof fn lemma_run_extend(photons: Seq<Photon>, lo: int, out: Seq<Photon>, flags: Seq<bool>, next: Photon, flag: bool,
    eve_bases: Seq<Basis>, eve_bits: Seq<Bit>, threshold: u64)
    requires
        out.len() == flags.len(),
        eve_bases == bases_of(flagged_photons(out, flags)),
        eve_bits == bits_of(flagged_photons(out, flags)),
    ensures
        flag ==> bases_of(flagged_photons(out.push(next), flags.push(flag))) == eve_bases.push(next.basis),
        flag ==> bits_of(flagged_photons(out.push(next), flags.push(flag))) == eve_bits.push(next.bit),
        !flag ==> bases_of(flagged_photons(out.push(next), flags.push(flag))) == eve_bases,
        !flag ==> bits_of(flagged_photons(out.push(next), flags.push(flag))) == eve_bits,
        flag_count(flags.push(flag)) == flag_count(flags) + if flag { 1nat } else { 0nat },
{
    assert(out.push(next).drop_last() =~= out);
    assert(flags.push(flag).drop_last() =~= flags);
    if flag {
        assert(bases_of(flagged_photons(out, flags).push(next)) =~= eve_bases.push(next.basis));
        assert(bits_of(flagged_photons(out, flags).push(next)) =~= eve_bits.push(next.bit));
    }
}

/// Intercept-resend attack: unless Eve is disabled, every photon that
/// arrives is intercepted with her interception probability, measured in a
/// basis of her drawing, and replaced by a fresh photon carrying her result.
pub fn intercept_and_resend_parallel(photons: &[Photon], config: &EveConfig) -> (r: (Vec<Photon>, EveResults))
    ensures
        !config.enabled ==> r.0@ == photons@ && r.1.intercepted_count == 0 && r.1.eavesdropped_bits@.len() == 0
            && r.1.eavesdropped_bases@.len() == 0,
        config.enabled ==> exists|flags: Seq<bool>| #[trigger] eve_run_ok(photons@, 0, photons@.len() as int, r.0@, flags,
            r.1.eavesdropped_bases@, r.1.eavesdropped_bits@, r.1.intercepted_count as int, config.interception_threshold),
        r.1.modified_photons@.len() == 0,
{
    if !config.enabled {
        let mut copy: Vec<Photon> = Vec::new();
        for i in 0..photons.len()
            invariant
                copy@ == photons@.subrange(0, i as int),
        {
            copy.push(photons[i]);
        }
        return (copy, EveResults {
            intercepted_count: 0,
            eavesdropped_bits: Vec::new(),
            eavesdropped_bases: Vec::new(),
            modified_photons: Vec::new(),
        });
    }
    let n = photons.len();
    let t = config.interception_threshold;
    let num_threads = worker_count();
    let chunk_len = chunk_size(n, num_threads, 1024);
    let num_chunks = chunk_count(n, chunk_len);
    let f = |c: usize| -> (r: (Vec<Photon>, Vec<Bit>, Vec<Basis>, usize, Ghost<Seq<bool>>))
        requires
            c < num_chunks,
        ensures
            eve_run_ok(photons@, chunk_start(c as int, chunk_len as int), chunk_end(c as int, chunk_len as int, n as int),
                r.0@, r.4@, r.2@, r.1@, r.3 as int, config.interception_threshold),
    {
        let (start, end) = chunk_bounds(c, chunk_len, n);
        let (out, bits, bases, count, flags, _draws) = intercept_chunk(photons, config, c, start, end);
        (out, bits, bases, count, flags)
    };
    let mut results = par_map_range(num_chunks, f);
    assert forall|k: int| 0 <= k < num_chunks implies eve_run_ok(photons@, chunk_start(k, chunk_len as int),
        chunk_end(k, chunk_len as int, n as int), (#[trigger] results@[k]).0@, results@[k].4@, results@[k].2@, results@[k].1@,
        results@[k].3 as int, t) by {
        assert(call_ensures(f, (k as usize,), results@[k]));
    }

    let mut all_modified: Vec<Photon> = Vec::new();
    let mut all_bits: Vec<Bit> = Vec::new();
    let mut all_bases: Vec<Basis> = Vec::new();
    let mut total_intercepted: usize = 0;
    let ghost mut all_flags: Seq<bool> = Seq::empty();
    proof {
        lemma_chunk_count_zero(n as int, chunk_len as int);
        crate::eve::lemma_empty_run(photons@, 0, t);
        assert(all_modified@ =~= Seq::<Photon>::empty());
        assert(all_bases@ =~= Seq::<Basis>::empty());
        assert(all_bits@ =~= Seq::<Bit>::empty());
    }
    let mut c: usize = 0;
    while c < num_chunks
        invariant
            0 <= c <= num_chunks,
            num_chunks == ceil_div(n as int, chunk_len as int),
            chunk_len >= 1,
            n == photons@.len(),
            t == config.interception_threshold,
            results@.len() == num_chunks - c,
            forall|k: int| 0 <= k < results@.len() ==> eve_run_ok(photons@, chunk_start(k + c, chunk_len as int),
                chunk_end(k + c, chunk_len as int, n as int), (#[trigger] results@[k]).0@, results@[k].4@, results@[k].2@,
                results@[k].1@, results@[k].3 as int, t),
            eve_run_ok(photons@, 0, chunks_covered(c as int, chunk_len as int, n as int), all_modified@, all_flags,
                all_bases@, all_bits@, total_intercepted as int, t),
        decreases num_chunks - c,
    {
        proof {
            lemma_chunks_tile(c as int, chunk_len as int, n as int);
            lemma_chunk_start_in_range(c as int, chunk_len as int, n as int);
        }
        let ghost start = chunk_start(c as int, chunk_len as int);
        let ghost end = chunk_end(c as int, chunk_len as int, n as int);
        let ghost prev = results@;
        let ghost (o0, f0, b0, t0) = (all_modified@, all_flags, all_bases@, all_bits@);
        let (mut modified, mut bits, mut bases, intercepted, flags) = results.remove(0);
        let ghost (o1, f1, b1, t1) = (modified@, flags@, bases@, bits@);
        proof {
            crate::eve::lemma_runs_concat(photons@, start, end, o0, f0, b0, t0, total_intercepted as int,
                o1, f1, b1, t1, intercepted as int, t);
            lemma_flag_count_bound(f0 + f1);
        }
        all_modified.append(&mut modified);
        all_bits.append(&mut bits);
        all_bases.append(&mut bases);
        total_intercepted = total_intercepted + intercepted;
        proof {
            all_flags = f0 + f1;
        }
        c = c + 1;
        proof {
            assert forall|k: int| 0 <= k < results@.len() implies eve_run_ok(photons@, chunk_start(k + c, chunk_len as int),
                chunk_end(k + c, chunk_len as int, n as int), (#[trigger] results@[k]).0@, results@[k].4@, results@[k].2@,
                results@[k].1@, results@[k].3 as int, t) by {
                assert(results@[k] == prev[k + 1]);
            }
        }
    }
    proof {
        if num_chunks > 0 {
            lemma_chunks_tile(num_chunks - 1, chunk_len as int, n as int);
        }
    }
    let ghost witness = all_flags;
    let eve_results = EveResults {
        intercepted_count: total_intercepted,
        eavesdropped_bits: all_bits,
        eavesdropped_bases: all_bases,
        modified_photons: Vec::new(),
    };
    assert(eve_run_ok(photons@, 0, n as int, all_modified@, witness, eve_results.eavesdropped_bases@,
        eve_results.eavesdropped_bits@, eve_results.intercepted_count as int, t));
    let r = (all_modified, eve_results);
    assert(eve_run_ok(photons@, 0, photons@.len() as int, r.0@, witness, r.1.eavesdropped_bases@,
        r.1.eavesdropped_bits@, r.1.intercepted_count as int, config.interception_threshold));
    r
}

/// Flagged photons and counts of two consecutive runs concatenate.
proof fn lemma_flagged_concat(o0: Seq<Photon>, f0: Seq<bool>, o1: Seq<Photon>, f1: Seq<bool>)
    requires
        o0.len() == f0.len(),
        o1.len() == f1.len(),
    ensures
        flagged_photons(o0 + o1, f0 + f1) == flagged_photons(o0, f0) + flagged_photons(o1, f1),
        flag_count(f0 + f1) == flag_count(f0) + flag_count(f1),
    decreases f1.len(),
{
    if f1.len() == 0 {
        assert(o0 + o1 =~= o0);
        assert(f0 + f1 =~= f0);
        assert(flagged_photons(o0, f0) + flagged_photons(o1, f1) =~= flagged_photons(o0, f0));
    } else {
        lemma_flagged_concat(o0, f0, o1.drop_last(), f1.drop_last());
        assert((o0 + o1).drop_last() =~= o0 + o1.drop_last());
        assert((f0 + f1).drop_last() =~= f0 + f1.drop_last());
        assert((o0 + o1).last() == o1.last());
        assert((f0 + f1).last() == f1.last());
        if f1.last() {
            assert((flagged_photons(o0, f0) + flagged_photons(o1.drop_last(), f1.drop_last())).push(o1.last())
                =~= flagged_photons(o0, f0) + flagged_photons(o1.drop_last(), f1.drop_last()).push(o1.last()));
        }
    }
}

/// Two consecutive runs make one run.
proof fn lemma_runs_concat(photons: Seq<Photon>, mid: int, hi: int,
    o0: Seq<Photon>, f0: Seq<bool>, b0: Seq<Basis>, t0: Seq<Bit>, i0: int,
    o1: Seq<Photon>, f1: Seq<bool>, b1: Seq<Basis>, t1: Seq<Bit>, i1: int, threshold: u64)
    requires
        0 <= mid <= hi,
        eve_run_ok(photons, 0, mid, o0, f0, b0, t0, i0, threshold),
        eve_run_ok(photons, mid, hi, o1, f1, b1, t1, i1, threshold),
    ensures
        eve_run_ok(photons, 0, hi, o0 + o1, f0 + f1, b0 + b1, t0 + t1, i0 + i1, threshold),
{
    let o = o0 + o1;
    let f = f0 + f1;
    assert forall|k: int| 0 <= k < hi implies passes_eve(photons[0 + k], #[trigger] o[k], f[k], threshold) by {
        if k >= mid {
            assert(o[k] == o1[k - mid]);
            assert(f[k] == f1[k - mid]);
            assert(mid + (k - mid) == k);
        } else {
            assert(o[k] == o0[k]);
            assert(f[k] == f0[k]);
        }
    }
    lemma_flagged_concat(o0, f0, o1, f1);
    assert(bases_of(flagged_photons(o0, f0) + flagged_photons(o1, f1)) =~= b0 + b1);
    assert(bits_of(flagged_photons(o0, f0) + flagged_photons(o1, f1)) =~= t0 + t1);
}

/// What holds of packed photon `j` after Eve, whatever she drew, given
/// Eve's output basis and bit (`ob`, `ot`) and the input ones (`ib`, `it`).
pub open spec fn packed_passes_eve(ob: bool, ot: bool, ib: bool, it: bool, lost: bool, intercepted: bool, threshold: u64) -> bool {
    if intercepted {
        &&& !lost
        &&& ob == ib ==> ot == it
        &&& threshold > 0
    } else {
        &&& ob == ib
        &&& ot == it
        &&& !lost ==> threshold < UNIT_SCALE
    }
}

/// Eve's packed output for one chunk of photons `start..start + len`, with
/// `flags` marking the intercepted ones.
pub open spec fn packed_eve_chunk_ok(out_bases: Seq<u64>, out_bits: Seq<u64>, packed_bases: Seq<u64>, packed_bits: Seq<u64>,
    lost_flags: Seq<bool>, start: int, len: int, flags: Seq<bool>, threshold: u64) -> bool {
    &&& chunk_padding_clear(out_bases, len)
    &&& chunk_padding_clear(out_bits, len)
    &&& flags.len() == len
    &&& forall|i: int| 0 <= i < len ==> packed_passes_eve(word_bit(out_bases[i / 64], (i % 64) as u64),
        #[trigger] word_bit(out_bits[i / 64], (i % 64) as u64), packed_bit(packed_bases, start + i),
        packed_bit(packed_bits, start + i), lost_flags[start + i], flags[i], threshold)
}

/// Eve's packed step on one photon (input basis and value bits, loss flag)
/// from her draws (interception word, basis draw, coin): the output basis
/// and value bits and whether she intercepted. She intercepts a photon that
/// arrived exactly when the word falls below the threshold, and then resends
/// it in the basis she drew, with its bit where that basis is the photon's
/// and her coin elsewhere.
pub open spec fn packed_eve_step(ib: bool, it: bool, lost: bool, draw: (u64, bool, bool), threshold: u64) -> (bool, bool, bool) {
    if !lost && unit_below(draw.0, threshold) {
        (draw.1, if ib == draw.1 { it } else { draw.2 }, true)
    } else {
        (ib, it, false)
    }
}

/// Eve's packed output for the photons `start..` and her flags are her
/// steps with the draws `draws`; bit `p % 64` of word `p / 64` is photon
/// `start + p`.
pub open spec fn packed_eve_from_draws(out_bases: Seq<u64>, out_bits: Seq<u64>, packed_bases: Seq<u64>,
    packed_bits: Seq<u64>, lost_flags: Seq<bool>, start: int, draws: Seq<(u64, bool, bool)>, flags: Seq<bool>,
    threshold: u64) -> bool {
    &&& flags.len() == draws.len()
    &&& forall|p: int| 0 <= p < draws.len() ==> #[trigger] flags[p] == packed_eve_step(packed_bit(packed_bases, start + p),
        packed_bit(packed_bits, start + p), lost_flags[start + p], draws[p], threshold).2
    &&& forall|w: int, k: u64| 0 <= w < out_bases.len() && k < 64 && w * 64 + k < draws.len()
        ==> #[trigger] word_bit(out_bases[w], k) == packed_eve_step(packed_bit(packed_bases, start + w * 64 + k),
            packed_bit(packed_bits, start + w * 64 + k), lost_flags[start + w * 64 + k], draws[w * 64 + k], threshold).0
    &&& forall|w: int, k: u64| 0 <= w < out_bits.len() && k < 64 && w * 64 + k < draws.len()
        ==> #[trigger] word_bit(out_bits[w], k) == packed_eve_step(packed_bit(packed_bases, start + w * 64 + k),
            packed_bit(packed_bits, start + w * 64 + k), lost_flags[start + w * 64 + k], draws[w * 64 + k], threshold).1
}

/// Lets one chunk of packed photons pass Eve with the generator of chunk
/// `chunk_idx`; also gives her flags and the draws she consumed.
fn intercept_packed_chunk(packed_bases: &[u64], packed_bits: &[u64], lost_flags: &[bool], config: &EveConfig,
    chunk_idx: usize, start: usize, end: usize, total_photons: usize)
    -> (r: (Vec<u64>, Vec<u64>, usize, Ghost<Seq<bool>>, Ghost<Seq<(u64, bool, bool)>>))
    requires
        start <= end <= total_photons,
        packed_inputs_ok(packed_bases@, packed_bits@, lost_flags@, total_photons as int),
    ensures
        r.4@.len() == end - start,
        packed_eve_from_draws(r.0@, r.1@, packed_bases@, packed_bits@, lost_flags@, start as int, r.4@, r.3@,
            config.interception_threshold),
        packed_eve_chunk_ok(r.0@, r.1@, packed_bases@, packed_bits@, lost_flags@, start as int, end - start, r.3@,
            config.interception_threshold),
        r.2 == count_range(set_at(r.3@), 0, end - start),
{
    let t = config.interception_threshold;
    let len = end - start;
    let mut rng = seeded_rng(chunk_seed(config.seed, chunk_idx));
    let num_u64 = chunk_count(len, 64);
    let mut new_bases: Vec<u64> = vec![0u64; num_u64];
    let mut new_bits: Vec<u64> = vec![0u64; num_u64];
    let mut intercepted: usize = 0;
    let ghost mut flags: Seq<bool> = Seq::empty();
    let ghost mut draws: Seq<(u64, bool, bool)> = Seq::empty();
    proof {
        assert forall|w: int, k: u64| 0 <= w < num_u64 && k < 64 implies !#[trigger] word_bit(new_bases@[w], k) by {
            lemma_bit_zero(k);
        }
        assert forall|w: int, k: u64| 0 <= w < num_u64 && k < 64 implies !#[trigger] word_bit(new_bits@[w], k) by {
            lemma_bit_zero(k);
        }
        lemma_chunk_count_zero(len as int, 64);
        lemma_chunk_count_zero(total_photons as int, 64);
    }
    for i in 0..len
        invariant
            len == end - start,
            end <= total_photons,
            t == config.interception_threshold,
            packed_inputs_ok(packed_bases@, packed_bits@, lost_flags@, total_photons as int),
            num_u64 == ceil_div(len as int, 64),
            new_bases@.len() == num_u64,
            new_bits@.len() == num_u64,
            flags.len() == i,
            forall|w: int, k: u64| 0 <= w < num_u64 && k < 64 && #[trigger] word_bit(new_bases@[w], k) ==> w * 64 + k < i,
            forall|w: int, k: u64| 0 <= w < num_u64 && k < 64 && #[trigger] word_bit(new_bits@[w], k) ==> w * 64 + k < i,
            forall|i2: int| 0 <= i2 < i ==> packed_passes_eve(word_bit(new_bases@[i2 / 64], (i2 % 64) as u64),
                #[trigger] word_bit(new_bits@[i2 / 64], (i2 % 64) as u64), packed_bit(packed_bases@, start + i2),
                packed_bit(packed_bits@, start + i2), lost_flags@[start + i2], flags[i2], t),
            intercepted == count_range(set_at(flags), 0, i as int),
            draws.len() == i,
            forall|p: int| 0 <= p < i ==> #[trigger] flags[p] == packed_eve_step(packed_bit(packed_bases@, start + p),
                packed_bit(packed_bits@, start + p), lost_flags@[start + p], draws[p], t).2,
            forall|w: int, k: u64| 0 <= w < num_u64 && k < 64 && w * 64 + k < i
                ==> #[trigger] word_bit(new_bases@[w], k) == packed_eve_step(packed_bit(packed_bases@, start + w * 64 + k),
                    packed_bit(packed_bits@, start + w * 64 + k), lost_flags@[start + w * 64 + k], draws[w * 64 + k], t).0,
            forall|w: int, k: u64| 0 <= w < num_u64 && k < 64 && w * 64 + k < i
                ==> #[trigger] word_bit(new_bits@[w], k) == packed_eve_step(packed_bit(packed_bases@, start + w * 64 + k),
                    packed_bit(packed_bits@, start + w * 64 + k), lost_flags@[start + w * 64 + k], draws[w * 64 + k], t).1,
    {
        proof {
            lemma_count_bound(set_at(flags), 0, i as int);
        }
        let global_idx = start + i;
        let word_idx = i / 64;
        let bit_idx = (i % 64) as u64;
        let global_word_idx = global_idx / 64;
        let global_bit_idx = (global_idx % 64) as u64;
        proof {
            assert(word_idx < num_u64) by (nonlinear_arith)
                requires word_idx == i / 64, i < len, num_u64 == (len + 63) / 64;
            assert(global_word_idx < ceil_div(total_photons as int, 64)) by (nonlinear_arith)
                requires global_word_idx == global_idx / 64, global_idx < total_photons;
        }
        let basis = test_bit(packed_bases[global_word_idx], global_bit_idx);
        let bit = test_bit(packed_bits[global_word_idx], global_bit_idx);
        let mut out_basis = basis;
        let mut out_bit = bit;
        let mut flag = false;
        let ghost mut draw: (u64, bool, bool) = (0u64, false, false);
        if !lost_flags[global_idx] {
            let word = draw_u64(&mut rng);
            proof {
                lemma_unit_below_bounds(word, t);
                draw = (word, false, false);
            }
            if draw_below(word, t) {
                let eve_basis = draw_bool(&mut rng);
                let random_bit = draw_bool(&mut rng);
                proof {
                    draw = (word, eve_basis, random_bit);
                }
                out_basis = eve_basis;
                out_bit = if basis == eve_basis { bit } else { random_bit };
                flag = true;
                intercepted = intercepted + 1;
            }
        }
        let ghost bases_before = new_bases@;
        let ghost bits_before = new_bits@;
        if out_basis {
            new_bases.set(word_idx, new_bases[word_idx] | (1u64 << bit_idx));
        }
        if out_bit {
            new_bits.set(word_idx, new_bits[word_idx] | (1u64 << bit_idx));
        }
        proof {
            assert(packed_bit(packed_bases@, start + i) == basis);
            assert(packed_bit(packed_bits@, start + i) == bit);
            assert((out_basis, out_bit, flag) == packed_eve_step(basis, bit, lost_flags@[start + i], draw, t));
            draws = draws.push(draw);
            let prev_flags = flags;
            flags = flags.push(flag);
            crate::ranges::lemma_count_ext(set_at(flags), set_at(prev_flags), 0, i as int);
            assert(i == word_idx * 64 + bit_idx);
            assert forall|w: int, k: u64| 0 <= w < num_u64 && k < 64 implies
                #[trigger] word_bit(new_bases@[w], k) == (word_bit(bases_before[w], k) || (out_basis && w == word_idx && k == bit_idx)) by {
                if out_basis && w == word_idx {
                    lemma_bit_set_one(bases_before[w], bit_idx, k);
                }
            }
            assert forall|w: int, k: u64| 0 <= w < num_u64 && k < 64 implies
                #[trigger] word_bit(new_bits@[w], k) == (word_bit(bits_before[w], k) || (out_bit && w == word_idx && k == bit_idx)) by {
                if out_bit && w == word_idx {
                    lemma_bit_set_one(bits_before[w], bit_idx, k);
                }
            }
            assert forall|i2: int| 0 <= i2 < i + 1 implies packed_passes_eve(word_bit(new_bases@[i2 / 64], (i2 % 64) as u64),
                #[trigger] word_bit(new_bits@[i2 / 64], (i2 % 64) as u64), packed_bit(packed_bases@, start + i2),
                packed_bit(packed_bits@, start + i2), lost_flags@[start + i2], flags[i2], t) by {
                assert(i2 / 64 < num_u64) by (nonlinear_arith)
                    requires i2 < i + 1, i < len, num_u64 == (len + 63) / 64, i2 >= 0;
                if i2 < i {
                    assert(i2 / 64 != word_idx || (i2 % 64) as u64 != bit_idx);
                    assert(word_bit(new_bits@[i2 / 64], (i2 % 64) as u64) == word_bit(bits_before[i2 / 64], (i2 % 64) as u64));
                    assert(word_bit(new_bases@[i2 / 64], (i2 % 64) as u64) == word_bit(bases_before[i2 / 64], (i2 % 64) as u64));
                    assert(flags[i2] == prev_flags[i2]);
                } else {
                    assert(i2 == i);
                    assert(!word_bit(bits_before[word_idx as int], bit_idx));
                    assert(!word_bit(bases_before[word_idx as int], bit_idx));
                    assert(packed_bit(packed_bases@, start + i2) == basis);
                    assert(packed_bit(packed_bits@, start + i2) == bit);
                }
            }
            assert forall|p: int| 0 <= p < i + 1 implies #[trigger] flags[p] == packed_eve_step(packed_bit(packed_bases@, start + p),
                packed_bit(packed_bits@, start + p), lost_flags@[start + p], draws[p], t).2 by {
                if p < i {
                    assert(flags[p] == prev_flags[p]);
                }
            }
            assert forall|w: int, k: u64| 0 <= w < num_u64 && k < 64 && w * 64 + k < i + 1
                implies #[trigger] word_bit(new_bases@[w], k) == packed_eve_step(packed_bit(packed_bases@, start + w * 64 + k),
                    packed_bit(packed_bits@, start + w * 64 + k), lost_flags@[start + w * 64 + k], draws[w * 64 + k], t).0 by {
                if w * 64 + k == i {
                    assert(w == word_idx && k == bit_idx);
                }
            }
            assert forall|w: int, k: u64| 0 <= w < num_u64 && k < 64 && w * 64 + k < i + 1
                implies #[trigger] word_bit(new_bits@[w], k) == packed_eve_step(packed_bit(packed_bases@, start + w * 64 + k),
                    packed_bit(packed_bits@, start + w * 64 + k), lost_flags@[start + w * 64 + k], draws[w * 64 + k], t).1 by {
                if w * 64 + k == i {
                    assert(w == word_idx && k == bit_idx);
                }
            }
        }
    }
    (new_bases, new_bits, intercepted, Ghost(flags), Ghost(draws))
}

/// Eve's packed output for `n` photons in chunks of `cs`, with `flags`
/// marking the intercepted photons and `intercepted` their number.
pub open spec fn packed_eve_ok(out_bases: Seq<u64>, out_bits: Seq<u64>, packed_bases: Seq<u64>, packed_bits: Seq<u64>,
    lost_flags: Seq<bool>, n: int, cs: int, flags: Seq<bool>, intercepted: int, threshold: u64) -> bool {
    &&& out_bases.len() == chunked_len(n, cs)
    &&& out_bits.len() == chunked_len(n, cs)
    &&& padding_clear(out_bases, n, cs)
    &&& padding_clear(out_bits, n, cs)
    &&& flags.len() == n
    &&& intercepted == count_range(set_at(flags), 0, n)
    &&& forall|j: int| 0 <= j < n ==> packed_passes_eve(chunked_packed_bit(out_bases, j, cs),
        #[trigger] chunked_packed_bit(out_bits, j, cs), packed_bit(packed_bases, j), packed_bit(packed_bits, j),
        lost_flags[j], flags[j], threshold)
}

/// Intercept-resend attack on packed photons. Disabled, Eve returns copies
/// of the basis and bit words and intercepts nothing. Enabled, each photon
/// that arrives is intercepted with her interception probability and
/// resent in the basis she drew; chunks of at least 65536 photons pack
/// their output on their own (see `layout`). Returns the basis words, the
/// bit words and the number of photons intercepted.
pub fn intercept_and_resend_packed(packed_bases: &[u64], packed_bits: &[u64], lost_flags: &[bool], config: &EveConfig,
    total_photons: usize) -> (r: (Vec<u64>, Vec<u64>, usize))
    requires
        config.enabled ==> packed_inputs_ok(packed_bases@, packed_bits@, lost_flags@, total_photons as int),
    ensures
        !config.enabled ==> r.0@ == packed_bases@ && r.1@ == packed_bits@ && r.2 == 0,
        config.enabled ==> exists|threads: int, flags: Seq<bool>| threads >= 1 && #[trigger] packed_eve_ok(r.0@, r.1@,
            packed_bases@, packed_bits@, lost_flags@, total_photons as int, chunk_size_spec(total_photons as int,
            threads, 65536), flags, r.2 as int, config.interception_threshold),
{
    if !config.enabled {
        let mut bases_copy: Vec<u64> = Vec::new();
        for i in 0..packed_bases.len()
            invariant
                bases_copy@ == packed_bases@.subrange(0, i as int),
        {
            bases_copy.push(packed_bases[i]);
        }
        let mut bits_copy: Vec<u64> = Vec::new();
        for i in 0..packed_bits.len()
            invariant
                bits_copy@ == packed_bits@.subrange(0, i as int),
        {
            bits_copy.push(packed_bits[i]);
        }
        return (bases_copy, bits_copy, 0);
    }
    let n = total_photons;
    let t = config.interception_threshold;
    let num_threads = worker_count();
    let chunk_len = chunk_size(n, num_threads, 65536);
    let num_chunks = chunk_count(n, chunk_len);
    let ghost cs = chunk_len as int;
    let ghost wpc = words_per_chunk(cs);
    let f = |c: usize| -> (r: (Vec<u64>, Vec<u64>, usize, Ghost<Seq<bool>>))
        requires
            c < num_chunks,
        ensures
            packed_eve_chunk_ok(r.0@, r.1@, packed_bases@, packed_bits@, lost_flags@, chunk_start(c as int, chunk_len as int),
                chunk_end(c as int, chunk_len as int, n as int) - chunk_start(c as int, chunk_len as int), r.3@,
                config.interception_threshold),
            r.2 == count_range(set_at(r.3@), 0, chunk_end(c as int, chunk_len as int, n as int) - chunk_start(c as int, chunk_len as int)),
    {
        let (start, end) = chunk_bounds(c, chunk_len, n);
        let (bases, bits, count, flags, _draws) = intercept_packed_chunk(packed_bases, packed_bits, lost_flags, config,
            c, start, end, n);
        (bases, bits, count, flags)
    };
    let mut results = par_map_range(num_chunks, f);
    assert forall|k: int| 0 <= k < num_chunks implies packed_eve_chunk_ok((#[trigger] results@[k]).0@, results@[k].1@,
        packed_bases@, packed_bits@, lost_flags@, chunk_start(k, cs), chunk_end(k, cs, n as int) - chunk_start(k, cs),
        results@[k].3@, t)
        && results@[k].2 == count_range(set_at(results@[k].3@), 0, chunk_end(k, cs, n as int) - chunk_start(k, cs)) by {
        assert(call_ensures(f, (k as usize,), results@[k]));
    }

    let mut all_bases: Vec<u64> = Vec::new();
    let mut all_bits: Vec<u64> = Vec::new();
    let mut total_intercepted: usize = 0;
    let ghost mut all_flags: Seq<bool> = Seq::empty();
    proof {
        lemma_chunk_count_zero(n as int, cs);
        assert(0 * wpc == 0);
    }
    let mut c: usize = 0;
    while c < num_chunks
        invariant
            0 <= c <= num_chunks,
            num_chunks == ceil_div(n as int, cs),
            cs == chunk_len,
            cs >= 65536,
            wpc == words_per_chunk(cs),
            t == config.interception_threshold,
            results@.len() == num_chunks - c,
            forall|k: int| 0 <= k < results@.len() ==> packed_eve_chunk_ok((#[trigger] results@[k]).0@, results@[k].1@,
                packed_bases@, packed_bits@, lost_flags@, chunk_start(k + c, cs), chunk_end(k + c, cs, n as int) - chunk_start(k + c, cs),
                results@[k].3@, t)
                && results@[k].2 == count_range(set_at(results@[k].3@), 0, chunk_end(k + c, cs, n as int) - chunk_start(k + c, cs)),
            c < num_chunks ==> all_bases@.len() == c * wpc && all_bits@.len() == c * wpc,
            c == num_chunks ==> all_bases@.len() == chunked_len(n as int, cs) && all_bits@.len() == chunked_len(n as int, cs),
            padding_clear(all_bases@, n as int, cs),
            padding_clear(all_bits@, n as int, cs),
            all_flags.len() == chunks_covered(c as int, cs, n as int),
            forall|j: int| 0 <= j < chunks_covered(c as int, cs, n as int) ==> packed_passes_eve(chunked_packed_bit(all_bases@, j, cs),
                #[trigger] chunked_packed_bit(all_bits@, j, cs), packed_bit(packed_bases@, j), packed_bit(packed_bits@, j),
                lost_flags@[j], all_flags[j], t),
            total_intercepted == count_range(set_at(all_flags), 0, all_flags.len() as int),
        decreases num_chunks - c,
    {
        proof {
            lemma_chunks_tile(c as int, cs, n as int);
            lemma_chunked_len_parts(c as int, cs, n as int);
            lemma_chunk_start_in_range(c as int, cs, n as int);
        }
        let ghost start = chunk_start(c as int, cs);
        let ghost end = chunk_end(c as int, cs, n as int);
        let ghost len = end - start;
        let ghost prev = results@;
        let ghost (b0, t0, f0) = (all_bases@, all_bits@, all_flags);
        let (mut bases, mut bits, intercepted, flags) = results.remove(0);
        let ghost (b1, t1, f1) = (bases@, bits@, flags@);
        proof {
            crate::eve::lemma_count_concat(f0, f1);
            lemma_count_bound(set_at(f0 + f1), 0, end);
        }
        all_bases.append(&mut bases);
        all_bits.append(&mut bits);
        total_intercepted = total_intercepted + intercepted;
        proof {
            all_flags = f0 + f1;
        }
        c = c + 1;
        proof {
            let cc = c - 1;
            assert(b0.len() == cc * wpc);
            assert forall|w: int, k: u64| 0 <= w < all_bases@.len() && k < 64 && #[trigger] word_bit(all_bases@[w], k) implies
                (w % wpc) * 64 + k < cs && (w / wpc) * cs + (w % wpc) * 64 + k < n by {
                if w >= b0.len() {
                    let lw = w - b0.len();
                    assert(all_bases@[w] == b1[lw]);
                    lemma_chunked_word_split(cc, lw, cs);
                    assert(lw * 64 + k < len);
                } else {
                    assert(all_bases@[w] == b0[w]);
                }
            }
            assert forall|w: int, k: u64| 0 <= w < all_bits@.len() && k < 64 && #[trigger] word_bit(all_bits@[w], k) implies
                (w % wpc) * 64 + k < cs && (w / wpc) * cs + (w % wpc) * 64 + k < n by {
                if w >= t0.len() {
                    let lw = w - t0.len();
                    assert(all_bits@[w] == t1[lw]);
                    lemma_chunked_word_split(cc, lw, cs);
                    assert(lw * 64 + k < len);
                } else {
                    assert(all_bits@[w] == t0[w]);
                }
            }
            assert forall|j: int| 0 <= j < end implies packed_passes_eve(chunked_packed_bit(all_bases@, j, cs),
                #[trigger] chunked_packed_bit(all_bits@, j, cs), packed_bit(packed_bases@, j), packed_bit(packed_bits@, j),
                lost_flags@[j], all_flags[j], t) by {
                if j >= start {
                    let i = j - start;
                    lemma_chunked_position(cc, i, cs);
                    assert(j == cc * cs + i);
                    assert(i / 64 < b1.len()) by (nonlinear_arith)
                        requires i < len, b1.len() == (len + 63) / 64, i >= 0;
                    assert(chunked_word(j, cs) == b0.len() + i / 64);
                    assert(all_bases@[chunked_word(j, cs)] == b1[i / 64]);
                    assert(all_bits@[chunked_word(j, cs)] == t1[i / 64]);
                    assert(start + i == j);
                    assert(packed_eve_chunk_ok(b1, t1, packed_bases@, packed_bits@, lost_flags@, start, len, f1, t));
                    assert(chunked_packed_bit(all_bits@, j, cs) == word_bit(t1[i / 64], (i % 64) as u64));
                    assert(chunked_packed_bit(all_bases@, j, cs) == word_bit(b1[i / 64], (i % 64) as u64));
                    assert(all_flags[j] == f1[i]);
                } else {
                    assert(chunked_word(j, cs) < b0.len()) by {
                        crate::layout::lemma_chunked_word_before(j, cs, cc);
                    }
                    assert(all_bases@[chunked_word(j, cs)] == b0[chunked_word(j, cs)]);
                    assert(all_bits@[chunked_word(j, cs)] == t0[chunked_word(j, cs)]);
                    assert(chunked_packed_bit(t0, j, cs) == chunked_packed_bit(all_bits@, j, cs));
                    assert(chunked_packed_bit(b0, j, cs) == chunked_packed_bit(all_bases@, j, cs));
                    assert(all_flags[j] == f0[j]);
                }
            }
            if c < num_chunks {
                assert(c * wpc == cc * wpc + wpc) by (nonlinear_arith)
                    requires cc == c - 1;
            }
            assert forall|k: int| 0 <= k < results@.len() implies packed_eve_chunk_ok((#[trigger] results@[k]).0@, results@[k].1@,
                packed_bases@, packed_bits@, lost_flags@, chunk_start(k + c, cs), chunk_end(k + c, cs, n as int) - chunk_start(k + c, cs),
                results@[k].3@, t)
                && results@[k].2 == count_range(set_at(results@[k].3@), 0, chunk_end(k + c, cs, n as int) - chunk_start(k + c, cs)) by {
                assert(results@[k] == prev[k + 1]);
            }
        }
    }
    proof {
        if num_chunks > 0 {
            lemma_chunks_tile(num_chunks - 1, cs, n as int);
        } else {
            assert(chunked_len(0, cs) == 0) by (nonlinear_arith)
                requires cs >= 1;
        }
    }
    let ghost witness = all_flags;
    let r = (all_bases, all_bits, total_intercepted);
    assert(packed_eve_ok(r.0@, r.1@, packed_bases@, packed_bits@, lost_flags@, n as int,
        chunk_size_spec(n as int, num_threads as int, 65536), witness, r.2 as int, t));
    r
}

/// Counting the marks of two consecutive flag runs adds up.
proof fn lemma_count_concat(f0: Seq<bool>, f1: Seq<bool>)
    ensures
        count_range(set_at(f0 + f1), 0, (f0.len() + f1.len()) as int)
            == count_range(set_at(f0), 0, f0.len() as int) + count_range(set_at(f1), 0, f1.len() as int),
    decreases f1.len(),
{
    let f = f0 + f1;
    let m = f0.len() as int;
    crate::ranges::lemma_count_split(set_at(f), 0, m, m + f1.len());
    crate::ranges::lemma_count_ext(set_at(f), set_at(f0), 0, m);
    lemma_count_shifted(f0, f1);
}

/// Counting the second run inside the concatenation counts the second run.
proof fn lemma_count_shifted(f0: Seq<bool>, f1: Seq<bool>)
    ensures
        count_range(set_at(f0 + f1), f0.len() as int, (f0.len() + f1.len()) as int)
            == count_range(set_at(f1), 0, f1.len() as int),
    decreases f1.len(),
{
    if f1.len() > 0 {
        let g1 = f1.drop_last();
        lemma_count_shifted(f0, g1);
        crate::ranges::lemma_count_ext(set_at(f0 + f1), set_at(f0 + g1), f0.len() as int, (f0.len() + g1.len()) as int);
        crate::ranges::lemma_count_ext(set_at(f1), set_at(g1), 0, g1.len() as int);
    }
}

} // verus!
