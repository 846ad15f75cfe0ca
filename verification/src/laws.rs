use vstd::prelude::*;

use crate::alice::{generated_ok, prepared_from_draws, prepared_photon};
use crate::bob::{bob_outcome, packed_outcome, records_from_draws};
use crate::eve::{eve_from_draws, eve_step, packed_eve_step};
use crate::rng::UNIT_SCALE;
use crate::bob::measured_ok;
use crate::channel::{sift_keep, SiftedKey};
use crate::eve::{eve_run_ok, flag_count, passes_eve};
use crate::photon::{Basis, Bit, Photon};
use crate::pipeline::{batch_positions, batches_sifted_alice, batches_sifted_bob, MeasuredBatch};
use crate::channel::{gather, packed_sift_keep, unpacked_bits};
use crate::bob::packed_measure_ok;
use crate::ranges::positions;
use crate::qber::{mismatches, qber_exceeds, differs, QberResult};
use crate::ranges::{lemma_count_none_all, lemma_positions_facts};

verus! {

/// Which photons were lost, position by position.
pub open spec fn lost_flags_of(photons: Seq<Photon>) -> Seq<bool> {
    Seq::new(photons.len(), |i: int| photons[i].lost)
}

/// BB84 without an eavesdropper: when Bob measures the photons Alice sent
/// and the exchange is sifted, Alice's and Bob's sifted keys are identical,
/// whatever bases and bits were drawn.
pub proof fn lemma_sifted_keys_agree_without_eve(photons: Seq<Photon>, alice_bases: Seq<Basis>, alice_bits: Seq<Bit>,
    bob_bases: Seq<Basis>, bob_bits: Seq<Bit>, key: SiftedKey, attenuation_threshold: u64)
    requires
        photons.len() <= usize::MAX,
        generated_ok(photons, alice_bases, alice_bits, photons.len() as int, attenuation_threshold),
        measured_ok(photons, 0, photons.len() as int, bob_bases, bob_bits),
        key.sifts(alice_bases, alice_bits, bob_bases, bob_bits, lost_flags_of(photons)),
    ensures
        key.alice_bits@ == key.bob_bits@,
{
    let n = photons.len() as int;
    let keep = sift_keep(alice_bases, bob_bases, lost_flags_of(photons));
    lemma_positions_facts(keep, 0, n);
    assert forall|k: int| 0 <= k < key.alice_bits@.len() implies key.alice_bits@[k] == key.bob_bits@[k] by {
        let i = key.indices@[k] as int;
        assert(keep(i));
        assert(bob_bits[0 + i] == photons[0 + i].bit);
    }
    assert(key.alice_bits@ =~= key.bob_bits@);
}

/// BB84 with an intercept-resend eavesdropper: every error in the sifted
/// key sits at a photon that Eve intercepted and measured in the basis
/// other than Alice's.
pub proof fn lemma_sifted_errors_come_from_wrong_basis_interceptions(photons: Seq<Photon>, alice_bases: Seq<Basis>,
    alice_bits: Seq<Bit>, resent: Seq<Photon>, flags: Seq<bool>, eve_bases: Seq<Basis>, eve_bits: Seq<Bit>,
    intercepted: int, interception_threshold: u64, bob_bases: Seq<Basis>, bob_bits: Seq<Bit>, key: SiftedKey,
    attenuation_threshold: u64)
    requires
        photons.len() <= usize::MAX,
        generated_ok(photons, alice_bases, alice_bits, photons.len() as int, attenuation_threshold),
        eve_run_ok(photons, 0, photons.len() as int, resent, flags, eve_bases, eve_bits, intercepted,
            interception_threshold),
        measured_ok(resent, 0, photons.len() as int, bob_bases, bob_bits),
        key.sifts(alice_bases, alice_bits, bob_bases, bob_bits, lost_flags_of(photons)),
    ensures
        forall|k: int| 0 <= k < key.alice_bits@.len() && key.alice_bits@[k] != key.bob_bits@[k] ==> {
            let i = key.indices@[k] as int;
            &&& flags[i]
            &&& resent[i].basis != alice_bases[i]
        },
{
    let n = photons.len() as int;
    let keep = sift_keep(alice_bases, bob_bases, lost_flags_of(photons));
    lemma_positions_facts(keep, 0, n);
    assert forall|k: int| 0 <= k < key.alice_bits@.len() && key.alice_bits@[k] != key.bob_bits@[k] implies {
        let i = key.indices@[k] as int;
        &&& flags[i]
        &&& resent[i].basis != alice_bases[i]
    } by {
        let i = key.indices@[k] as int;
        assert(keep(i));
        assert(passes_eve(photons[0 + i], resent[i], flags[i], interception_threshold));
        assert(!resent[0 + i].lost && bob_bases[i] == resent[0 + i].basis ==> bob_bits[i] == resent[0 + i].bit);
    }
}

/// Identical keys have no errors, so their error rate never exceeds the
/// threshold.
pub proof fn lemma_identical_keys_pass(alice: Seq<Bit>, bob: Seq<Bit>, result: QberResult, compared: int)
    requires
        alice == bob,
        0 <= compared,
        result.of_prefix(alice, bob, compared),
    ensures
        result.error_count == 0,
        !result.threshold_exceeded,
{
    lemma_count_none_all(differs(alice, bob), 0, compared);
}

/// The error count never exceeds the number of bits compared, and an
/// exceeded threshold implies at least one error.
pub proof fn lemma_qber_bounds(alice: Seq<Bit>, bob: Seq<Bit>, result: QberResult, compared: int)
    requires
        0 <= compared,
        result.of_prefix(alice, bob, compared),
    ensures
        result.error_count <= result.total_compared,
        result.threshold_exceeded ==> result.error_count > 0,
{
    crate::ranges::lemma_count_bound(differs(alice, bob), 0, compared);
}

/// An eavesdropper who never intercepts leaves the photons unchanged and
/// learns nothing.
pub proof fn lemma_eve_without_interception(photons: Seq<Photon>, out: Seq<Photon>, flags: Seq<bool>,
    eve_bases: Seq<Basis>, eve_bits: Seq<Bit>, intercepted: int)
    requires
        eve_run_ok(photons, 0, photons.len() as int, out, flags, eve_bases, eve_bits, intercepted, 0),
    ensures
        out == photons,
        intercepted == 0,
        eve_bases.len() == 0,
        eve_bits.len() == 0,
{
    assert forall|k: int| 0 <= k < flags.len() implies !flags[k] by {
        assert(passes_eve(photons[0 + k], out[k], flags[k], 0));
    }
    crate::eve::lemma_no_flags(out, flags);
    assert(out =~= photons) by {
        assert forall|k: int| 0 <= k < out.len() implies out[k] == photons[k] by {
            assert(passes_eve(photons[0 + k], out[k], flags[k], 0));
        }
    }
}

/// One batch of an exchange without an eavesdropper sifts to identical
/// bits on both sides.
proof fn lemma_batch_sift_agrees(photons: Seq<Photon>, m: MeasuredBatch, attenuation_threshold: u64)
    requires
        photons.len() <= usize::MAX,
        generated_ok(photons, m.alice_bases@, m.alice_bits@, photons.len() as int, attenuation_threshold),
        measured_ok(photons, 0, photons.len() as int, m.bob_bases@, m.bob_bits@),
        m.lost_flags@ == lost_flags_of(photons),
    ensures
        gather(m.alice_bits@, batch_positions(m)) == gather(m.bob_bits@, batch_positions(m)),
{
    let n = photons.len() as int;
    let keep = sift_keep(m.alice_bases@, m.bob_bases@, m.lost_flags@);
    lemma_positions_facts(keep, 0, n);
    let idx = batch_positions(m);
    assert forall|k: int| 0 <= k < idx.len() implies m.alice_bits@[idx[k] as int] == m.bob_bits@[idx[k] as int] by {
        let i = idx[k] as int;
        assert(keep(i));
        assert(m.bob_bits@[0 + i] == photons[0 + i].bit);
    }
    assert(gather(m.alice_bits@, idx) =~= gather(m.bob_bits@, idx));
}

/// The streamed exchange without an eavesdropper: when every batch that
/// Bob measured holds the photons Alice prepared, the sifted keys that the
/// batches yield are identical on both sides.
pub proof fn lemma_streamed_keys_agree_without_eve(batches: Seq<MeasuredBatch>, photons: Seq<Seq<Photon>>,
    attenuation_threshold: u64)
    requires
        photons.len() == batches.len(),
        forall|i: int| 0 <= i < batches.len() ==> {
            &&& (#[trigger] photons[i]).len() <= usize::MAX
            &&& generated_ok(photons[i], batches[i].alice_bases@, batches[i].alice_bits@, photons[i].len() as int,
                attenuation_threshold)
            &&& measured_ok(photons[i], 0, photons[i].len() as int, batches[i].bob_bases@, batches[i].bob_bits@)
            &&& batches[i].lost_flags@ == lost_flags_of(photons[i])
        },
    ensures
        batches_sifted_alice(batches) == batches_sifted_bob(batches),
    decreases batches.len(),
{
    if batches.len() > 0 {
        let last = batches.len() - 1;
        lemma_streamed_keys_agree_without_eve(batches.drop_last(), photons.drop_last(), attenuation_threshold);
        assert(photons[last] == photons[last]);
        lemma_batch_sift_agrees(photons[last], batches.last(), attenuation_threshold);
    }
}

/// The packed exchange without an eavesdropper: when Bob measured Alice's
/// packed photons and the exchange is sifted, the sifted keys are
/// identical, provided Bob's chunks hold a multiple of 64 photons or the
/// run is a single chunk (otherwise his packing is not the one that sifting
/// reads).
pub proof fn lemma_packed_sifted_keys_agree_without_eve(alice_bases: Seq<u64>, alice_bits: Seq<u64>, lost_flags: Seq<bool>,
    bob_bases: Seq<u64>, bob_bits: Seq<u64>, n: int, cs: int, indices: Seq<usize>, alice_key: Seq<Bit>, bob_key: Seq<Bit>)
    requires
        0 <= n <= usize::MAX,
        cs >= 1,
        cs % 64 == 0 || n <= cs,
        packed_measure_ok(bob_bases, bob_bits, alice_bases, alice_bits, lost_flags, n, cs),
        indices == positions(packed_sift_keep(alice_bases, bob_bases, lost_flags), 0, n),
        alice_key == gather(unpacked_bits(alice_bits, n), indices),
        bob_key == gather(unpacked_bits(bob_bits, n), indices),
    ensures
        alice_key == bob_key,
{
    let keep = packed_sift_keep(alice_bases, bob_bases, lost_flags);
    lemma_positions_facts(keep, 0, n);
    assert forall|k: int| 0 <= k < indices.len() implies alice_key[k] == bob_key[k] by {
        let j = indices[k] as int;
        assert(keep(j));
        if n <= cs {
            crate::layout::lemma_chunked_first_chunk(j, cs);
        } else {
            crate::layout::lemma_chunked_plain(j, cs);
        }
        assert(crate::layout::chunked_packed_bit(bob_bits, j, cs) == crate::bits::packed_bit(bob_bits, j));
        assert(crate::layout::chunked_packed_bit(bob_bases, j, cs) == crate::bits::packed_bit(bob_bases, j));
    }
    assert(alice_key =~= bob_key);
}

/// Alice's photon follows her draws: the basis draw picks the basis
/// (rectilinear on `true`), the bit draw is the bit, and the photon is lost
/// exactly when the top 53 bits of the loss word fall below the
/// attenuation threshold. Different bit draws give different bits, and
/// different basis draws different bases.
pub proof fn lemma_preparation_follows_draws(basis_draw: bool, bit_draw: bool, loss_word: u64, attenuation_threshold: u64)
    ensures
        prepared_photon(basis_draw, bit_draw, loss_word, attenuation_threshold).basis
            == (if basis_draw { Basis::Rectilinear } else { Basis::Diagonal }),
        prepared_photon(basis_draw, bit_draw, loss_word, attenuation_threshold).bit
            == (if bit_draw { Bit::One } else { Bit::Zero }),
        prepared_photon(basis_draw, bit_draw, loss_word, attenuation_threshold).lost
            == (loss_word / 2048 < attenuation_threshold),
        prepared_photon(basis_draw, true, loss_word, attenuation_threshold).bit
            != prepared_photon(basis_draw, false, loss_word, attenuation_threshold).bit,
        prepared_photon(true, bit_draw, loss_word, attenuation_threshold).basis
            != prepared_photon(false, bit_draw, loss_word, attenuation_threshold).basis,
{
}

/// Bob's record follows his draws: the basis draw picks his basis
/// (rectilinear on `true`); a lost photon reads zero; a photon that arrived
/// reads its own bit when his basis is the photon's, and his coin
/// otherwise. Different basis draws give different bases.
pub proof fn lemma_measurement_follows_draws(photon: Photon, basis_draw: bool, random_bit: bool)
    ensures
        bob_outcome(photon, basis_draw, random_bit).0 == (if basis_draw { Basis::Rectilinear } else { Basis::Diagonal }),
        photon.lost ==> bob_outcome(photon, basis_draw, random_bit).1 == Bit::Zero,
        !photon.lost && bob_outcome(photon, basis_draw, random_bit).0 == photon.basis
            ==> bob_outcome(photon, basis_draw, random_bit).1 == photon.bit,
        !photon.lost && bob_outcome(photon, basis_draw, random_bit).0 != photon.basis
            ==> bob_outcome(photon, basis_draw, random_bit).1 == (if random_bit { Bit::One } else { Bit::Zero }),
        bob_outcome(photon, true, random_bit).0 != bob_outcome(photon, false, random_bit).0,
{
}

/// Eve's interception follows her draw: a photon is intercepted exactly
/// when it arrived and the top 53 bits of her word fall below the
/// interception threshold; a photon she does not intercept passes
/// unchanged, and one she does is resent, arriving, in the basis her basis
/// draw picks. With a threshold strictly between 0 and certainty, the
/// word decides: the zero word intercepts an arriving photon and the
/// largest word lets it pass.
pub proof fn lemma_interception_follows_draw(photon: Photon, draw: (u64, bool, bool), threshold: u64)
    ensures
        eve_step(photon, draw, threshold).1 == (!photon.lost && draw.0 / 2048 < threshold),
        !eve_step(photon, draw, threshold).1 ==> eve_step(photon, draw, threshold).0 == photon,
        eve_step(photon, draw, threshold).1 ==> !eve_step(photon, draw, threshold).0.lost
            && eve_step(photon, draw, threshold).0.basis == (if draw.1 { Basis::Rectilinear } else { Basis::Diagonal }),
        !photon.lost && 0 < threshold < UNIT_SCALE ==> eve_step(photon, (0u64, draw.1, draw.2), threshold).1
            && !eve_step(photon, (0xffff_ffff_ffff_ffffu64, draw.1, draw.2), threshold).1,
{
}

/// The packed and the plain paths decide alike: with a photon's basis bit
/// set for rectilinear and its value bit set for one, Bob's packed outcome
/// and Eve's packed step, on the same draws, are the plain ones.
pub proof fn lemma_packed_steps_match_plain(photon: Photon, basis_draw: bool, random_bit: bool, draw: (u64, bool, bool),
    threshold: u64)
    ensures
        packed_outcome(photon.lost, photon.basis == Basis::Rectilinear, photon.bit == Bit::One, basis_draw, random_bit)
            == (bob_outcome(photon, basis_draw, random_bit).1 == Bit::One),
        packed_eve_step(photon.basis == Basis::Rectilinear, photon.bit == Bit::One, photon.lost, draw, threshold) == (
            eve_step(photon, draw, threshold).0.basis == Basis::Rectilinear,
            eve_step(photon, draw, threshold).0.bit == Bit::One,
            eve_step(photon, draw, threshold).1,
        ),
{
}

/// A run of Alice's preparations follows the draws it consumed, photon by
/// photon: each photon's bit is its bit draw and its basis its basis draw.
pub proof fn lemma_prepared_run_follows_draws(photons: Seq<Photon>, draws: Seq<(bool, bool, u64)>, attenuation_threshold: u64)
    requires
        prepared_from_draws(photons, draws, attenuation_threshold),
    ensures
        photons.len() == draws.len(),
        forall|k: int| 0 <= k < draws.len() ==> (#[trigger] photons[k]).bit == (if draws[k].1 { Bit::One } else { Bit::Zero })
            && photons[k].basis == (if draws[k].0 { Basis::Rectilinear } else { Basis::Diagonal })
            && photons[k].lost == (draws[k].2 / 2048 < attenuation_threshold),
{
}

/// A run of Bob's measurements follows the draws it consumed: at each
/// position his basis is the one his basis draw picks.
pub proof fn lemma_measured_run_follows_draws(photons: Seq<Photon>, lo: int, draws: Seq<(bool, bool)>, bases: Seq<Basis>,
    bits: Seq<Bit>)
    requires
        records_from_draws(photons, lo, draws, bases, bits),
    ensures
        forall|k: int| 0 <= k < draws.len() ==> #[trigger] bases[k] == (if draws[k].0 { Basis::Rectilinear } else {
            Basis::Diagonal
        }),
{
    assert forall|k: int| 0 <= k < draws.len() implies #[trigger] bases[k] == (if draws[k].0 { Basis::Rectilinear } else {
        Basis::Diagonal
    }) by {
        assert((bases[k], bits[k]) == bob_outcome(photons[lo + k], draws[k].0, draws[k].1));
    }
}

/// A run of Eve's steps follows her draws: she intercepts exactly the
/// photons that arrived and whose word falls below the threshold, and
/// every other photon passes unchanged.
pub proof fn lemma_eve_run_follows_draws(photons: Seq<Photon>, lo: int, draws: Seq<(u64, bool, bool)>, out: Seq<Photon>,
    flags: Seq<bool>, threshold: u64)
    requires
        eve_from_draws(photons, lo, draws, out, flags, threshold),
    ensures
        forall|k: int| 0 <= k < draws.len() ==> #[trigger] flags[k] == (!photons[lo + k].lost && draws[k].0 / 2048 < threshold),
        forall|k: int| 0 <= k < draws.len() && !flags[k] ==> #[trigger] out[k] == photons[lo + k],
{
    assert forall|k: int| 0 <= k < draws.len() implies #[trigger] flags[k] == (!photons[lo + k].lost
        && draws[k].0 / 2048 < threshold) by {
        assert((out[k], flags[k]) == eve_step(photons[lo + k], draws[k], threshold));
    }
    assert forall|k: int| 0 <= k < draws.len() && !flags[k] implies #[trigger] out[k] == photons[lo + k] by {
        assert((out[k], flags[k]) == eve_step(photons[lo + k], draws[k], threshold));
    }
}

} // verus!
