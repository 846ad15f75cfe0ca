use qkd_network_sim::alice::{generate_photons_packed, generate_photons_parallel, prepare_photon, AliceConfig};
use qkd_network_sim::bob::{bob_measure, measure_photons_packed, measure_photons_parallel, BobConfig};
use qkd_network_sim::channel::{reconcile_bases_packed, reconcile_bases_parallel};
use qkd_network_sim::eve::{intercept_and_resend_packed, intercept_and_resend_parallel, resend_photon, EveConfig};
use qkd_network_sim::photon::{Basis, Bit, Photon};
use qkd_network_sim::qber::calculate_qber_from_sifted;

const CERTAIN: u64 = 1u64 << 53;

#[test]
fn default_party_configs() {
    let a = AliceConfig::default();
    assert_eq!(a.num_photons, 1_000_000);
    assert_eq!(a.attenuation_threshold, 90_071_992_547_410);
    assert_eq!(a.seed, 42);
    assert_eq!(BobConfig::default().seed, 12345);
    let e = EveConfig::default();
    assert!(e.enabled);
    assert_eq!(e.interception_threshold, 1u64 << 52);
    assert_eq!(e.seed, 67890);
}

#[test]
fn preparing_from_draws() {
    let p = prepare_photon(true, false, 0, 1);
    assert_eq!(p.basis, Basis::Rectilinear);
    assert_eq!(p.bit, Bit::Zero);
    assert!(p.lost);
    let p = prepare_photon(false, true, 2048, 1);
    assert_eq!(p.basis, Basis::Diagonal);
    assert_eq!(p.bit, Bit::One);
    assert!(!p.lost);
    assert!(!prepare_photon(true, true, u64::MAX, CERTAIN - 1).lost);
    assert!(prepare_photon(true, true, u64::MAX, CERTAIN).lost);
}

#[test]
fn generation_without_loss() {
    let cfg = AliceConfig { num_photons: 5000, attenuation_threshold: 0, seed: 1 };
    let g = generate_photons_parallel(&cfg);
    assert_eq!(g.len(), 5000);
    assert_eq!(g.total_generated, 5000);
    assert_eq!(g.total_lost, 0);
    for i in 0..5000 {
        assert!(!g.photons[i].lost);
        assert_eq!(g.photons[i].basis, g.bases[i]);
        assert_eq!(g.photons[i].bit, g.bits[i]);
    }
    let rect = g.bases.iter().filter(|&&b| b == Basis::Rectilinear).count();
    assert!(rect > 2000 && rect < 3000);
}

#[test]
fn generation_with_certain_loss() {
    let cfg = AliceConfig { num_photons: 3000, attenuation_threshold: CERTAIN, seed: 2 };
    let g = generate_photons_parallel(&cfg);
    assert!(g.photons.iter().all(|p| p.lost));
    assert_eq!(g.total_lost, 0);
}

#[test]
fn generation_is_reproducible() {
    let cfg = AliceConfig { num_photons: 4000, attenuation_threshold: 90_071_992_547_410, seed: 9 };
    let a = generate_photons_parallel(&cfg);
    let b = generate_photons_parallel(&cfg);
    assert_eq!(a.bases, b.bases);
    assert_eq!(a.bits, b.bits);
}

#[test]
fn bob_records_from_draws() {
    let p = Photon::new(Basis::Rectilinear, Bit::One);
    assert_eq!(bob_measure(&p, true, false), (Basis::Rectilinear, Bit::One));
    assert_eq!(bob_measure(&p, false, false), (Basis::Diagonal, Bit::Zero));
    let mut lost = p;
    lost.lost = true;
    assert_eq!(bob_measure(&lost, true, true), (Basis::Rectilinear, Bit::Zero));
}

#[test]
fn bob_measures_what_alice_sent() {
    let g = generate_photons_parallel(&AliceConfig { num_photons: 6000, attenuation_threshold: 90_071_992_547_410, seed: 3 });
    let r = measure_photons_parallel(&g.photons, &BobConfig { seed: 4 });
    assert_eq!(r.len(), 6000);
    assert_eq!(r.measurement_bases.len(), 6000);
    let lost = g.photons.iter().filter(|p| p.lost).count();
    assert_eq!(r.lost_count, lost);
    assert_eq!(r.received_count, 6000 - lost);
    for i in 0..6000 {
        let p = g.photons[i];
        if p.lost {
            assert_eq!(r.measured_bits[i], Bit::Zero);
        } else if r.measurement_bases[i] == p.basis {
            assert_eq!(r.measured_bits[i], p.bit);
        }
    }
}

#[test]
fn bb84_without_eve_gives_identical_keys() {
    let g = generate_photons_parallel(&AliceConfig { num_photons: 20_000, attenuation_threshold: 90_071_992_547_410, seed: 42 });
    let r = measure_photons_parallel(&g.photons, &BobConfig { seed: 12387 });
    let lost: Vec<bool> = g.photons.iter().map(|p| p.lost).collect();
    let key = reconcile_bases_parallel(&g.bases, &g.bits, &r.measurement_bases, &r.measured_bits, &lost);
    assert_eq!(key.alice_bits, key.bob_bits);
    assert!(key.length > 9000 && key.length < 11000);
    let q = calculate_qber_from_sifted(&key);
    assert_eq!(q.error_count, 0);
    assert!(!q.threshold_exceeded);
}

#[test]
fn eve_disabled_changes_nothing() {
    let g = generate_photons_parallel(&AliceConfig { num_photons: 1000, attenuation_threshold: 90_071_992_547_410, seed: 5 });
    let (out, res) = intercept_and_resend_parallel(&g.photons, &EveConfig { enabled: false, interception_threshold: CERTAIN, seed: 1 });
    assert_eq!(out.len(), g.photons.len());
    for i in 0..out.len() {
        assert_eq!(out[i].basis, g.photons[i].basis);
        assert_eq!(out[i].bit, g.photons[i].bit);
        assert_eq!(out[i].lost, g.photons[i].lost);
    }
    assert_eq!(res.intercepted_count, 0);
    assert!(res.eavesdropped_bits.is_empty());
    assert!(res.eavesdropped_bases.is_empty());
}

#[test]
fn eve_resends_from_draws() {
    let p = Photon::new(Basis::Diagonal, Bit::One);
    let same = resend_photon(&p, false, false);
    assert_eq!((same.basis, same.bit, same.lost), (Basis::Diagonal, Bit::One, false));
    let other = resend_photon(&p, true, false);
    assert_eq!((other.basis, other.bit), (Basis::Rectilinear, Bit::Zero));
}

#[test]
fn eve_intercepting_everything() {
    let g = generate_photons_parallel(&AliceConfig { num_photons: 5000, attenuation_threshold: 90_071_992_547_410, seed: 6 });
    let (out, res) = intercept_and_resend_parallel(&g.photons, &EveConfig { enabled: true, interception_threshold: CERTAIN, seed: 7 });
    let arrived = g.photons.iter().filter(|p| !p.lost).count();
    assert_eq!(res.intercepted_count, arrived);
    assert_eq!(res.eavesdropped_bits.len(), arrived);
    assert_eq!(res.eavesdropped_bases.len(), arrived);
    assert!(res.modified_photons.is_empty());
    let mut k = 0;
    for i in 0..5000 {
        if g.photons[i].lost {
            assert!(out[i].lost);
        } else {
            assert!(!out[i].lost);
            assert_eq!(out[i].basis, res.eavesdropped_bases[k]);
            assert_eq!(out[i].bit, res.eavesdropped_bits[k]);
            if out[i].basis == g.photons[i].basis {
                assert_eq!(out[i].bit, g.photons[i].bit);
            }
            k += 1;
        }
    }
}

#[test]
fn eve_never_intercepting() {
    let g = generate_photons_parallel(&AliceConfig { num_photons: 2000, attenuation_threshold: 90_071_992_547_410, seed: 8 });
    let (out, res) = intercept_and_resend_parallel(&g.photons, &EveConfig { enabled: true, interception_threshold: 0, seed: 9 });
    assert_eq!(res.intercepted_count, 0);
    for i in 0..2000 {
        assert_eq!((out[i].basis, out[i].bit, out[i].lost), (g.photons[i].basis, g.photons[i].bit, g.photons[i].lost));
    }
}

#[test]
fn eavesdropping_is_detected() {
    let g = generate_photons_parallel(&AliceConfig { num_photons: 20_000, attenuation_threshold: 90_071_992_547_410, seed: 42 });
    let (out, res) = intercept_and_resend_parallel(&g.photons, &EveConfig { enabled: true, interception_threshold: CERTAIN, seed: 67932 });
    assert!(res.intercepted_count > 19_000);
    let r = measure_photons_parallel(&out, &BobConfig { seed: 12387 });
    let lost: Vec<bool> = g.photons.iter().map(|p| p.lost).collect();
    let key = reconcile_bases_parallel(&g.bases, &g.bits, &r.measurement_bases, &r.measured_bits, &lost);
    let q = calculate_qber_from_sifted(&key);
    assert!(q.threshold_exceeded, "errors {} of {}", q.error_count, q.total_compared);
    let rate = q.error_count as f64 / q.total_compared as f64;
    assert!(rate > 0.2 && rate < 0.3);
}

#[test]
fn packed_generation_shapes() {
    let n = 1000;
    let (bases, bits, lost, total_lost) = generate_photons_packed(&AliceConfig { num_photons: n, attenuation_threshold: 0, seed: 1 });
    assert_eq!(bases.len(), (n + 63) / 64);
    assert_eq!(bits.len(), (n + 63) / 64);
    assert_eq!(lost, vec![false; n]);
    assert_eq!(total_lost, 0);
    assert_eq!(bases[bases.len() - 1] >> (n % 64), 0);
    assert_eq!(bits[bits.len() - 1] >> (n % 64), 0);
}

#[test]
fn packed_measurement_and_interception() {
    let n = 1000;
    let (bases, bits, lost, _) = generate_photons_packed(&AliceConfig { num_photons: n, attenuation_threshold: 90_071_992_547_410, seed: 11 });
    let bit_at = |w: &Vec<u64>, i: usize| (w[i / 64] >> (i % 64)) & 1 == 1;
    let (mb, mr, received, lost_count) = measure_photons_packed(&bases, &bits, &lost, &BobConfig { seed: 2 }, n);
    let lost_n = lost.iter().filter(|&&l| l).count();
    assert_eq!(lost_count, lost_n);
    assert_eq!(received, n - lost_n);
    for i in 0..n {
        if lost[i] {
            assert!(!bit_at(&mr, i));
        } else if bit_at(&mb, i) == bit_at(&bases, i) {
            assert_eq!(bit_at(&mr, i), bit_at(&bits, i));
        }
    }
    let (eb, et, intercepted) = intercept_and_resend_packed(&bases, &bits, &lost,
        &EveConfig { enabled: true, interception_threshold: CERTAIN, seed: 3 }, n);
    assert_eq!(intercepted, n - lost_n);
    for i in 0..n {
        if lost[i] {
            assert_eq!(bit_at(&eb, i), bit_at(&bases, i));
            assert_eq!(bit_at(&et, i), bit_at(&bits, i));
        } else if bit_at(&eb, i) == bit_at(&bases, i) {
            assert_eq!(bit_at(&et, i), bit_at(&bits, i));
        }
    }
    let (cb, ct, none) = intercept_and_resend_packed(&bases, &bits, &lost,
        &EveConfig { enabled: false, interception_threshold: CERTAIN, seed: 3 }, n);
    assert_eq!((cb, ct, none), (bases.clone(), bits.clone(), 0));
}

#[test]
fn packed_bb84_without_eve_gives_identical_keys() {
    let n = 5000;
    let (bases, bits, lost, _) = generate_photons_packed(&AliceConfig { num_photons: n, attenuation_threshold: 90_071_992_547_410, seed: 21 });
    let (mb, mr, _, _) = measure_photons_packed(&bases, &bits, &lost, &BobConfig { seed: 22 }, n);
    let (alice_key, bob_key, indices) = reconcile_bases_packed(&bases, &bits, &mb, &mr, &lost, n);
    assert_eq!(alice_key, bob_key);
    assert_eq!(alice_key.len(), indices.len());
    assert!(indices.len() > 2000 && indices.len() < 3000);
    let bit_at = |w: &Vec<u64>, i: usize| (w[i / 64] >> (i % 64)) & 1 == 1;
    for &i in &indices {
        assert!(!lost[i]);
        assert_eq!(bit_at(&bases, i), bit_at(&mb, i));
    }
}
