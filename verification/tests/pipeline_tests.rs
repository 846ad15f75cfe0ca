use qkd_network_sim::pipeline::{
    alice_make_batch, batch_count, bob_measure_batch, compute_qber_from_sifted, eve_process_batch, reconcile_batches,
    sort_batches, MeasuredBatch, PipelineConfig, BATCH_SIZE, CHANNEL_CAPACITY,
};
use qkd_network_sim::photon::{Basis, Bit};
use rand::SeedableRng;
use rand_chacha::ChaCha8Rng;

fn config(n: usize, eve: bool) -> PipelineConfig {
    PipelineConfig {
        num_photons: n,
        attenuation_threshold: 90_071_992_547_410,
        eve_enabled: eve,
        interception_threshold: 1u64 << 53,
        alice_seed: 42,
        bob_seed: 12387,
        eve_seed: 67932,
    }
}

#[test]
fn batch_sizes() {
    assert_eq!(CHANNEL_CAPACITY, 64);
    assert_eq!(BATCH_SIZE, 65_536);
    assert_eq!(batch_count(0), 0);
    assert_eq!(batch_count(1), 1);
    assert_eq!(batch_count(65_536), 1);
    assert_eq!(batch_count(65_537), 2);
}

#[test]
fn alice_batches_cover_the_stream() {
    let cfg = config(70_000, false);
    let mut rng = ChaCha8Rng::seed_from_u64(cfg.alice_seed);
    let b0 = alice_make_batch(&cfg, &mut rng, 0);
    let b1 = alice_make_batch(&cfg, &mut rng, 1);
    assert_eq!(b0.photons.len(), 65_536);
    assert_eq!(b1.photons.len(), 70_000 - 65_536);
    assert_eq!(b1.batch_index, 1);
    assert_eq!(b0.lost_in_batch, b0.photons.iter().filter(|p| p.lost).count());
    assert!(b0.lost_in_batch > 400 && b0.lost_in_batch < 900);
    for i in 0..b1.photons.len() {
        assert_eq!(b1.photons[i].basis, b1.bases[i]);
        assert_eq!(b1.photons[i].bit, b1.bits[i]);
    }
}

#[test]
fn streamed_exchange_without_eve_agrees() {
    let cfg = config(100_000, false);
    let mut alice_rng = ChaCha8Rng::seed_from_u64(cfg.alice_seed);
    let mut bob_rng = ChaCha8Rng::seed_from_u64(cfg.bob_seed);
    let mut measured = Vec::new();
    for idx in 0..batch_count(cfg.num_photons) {
        let batch = alice_make_batch(&cfg, &mut alice_rng, idx);
        let m = bob_measure_batch(&mut bob_rng, batch);
        assert_eq!(m.received_in_batch + m.lost_in_batch, m.alice_bases.len());
        measured.push(m);
    }
    let measured = sort_batches(measured);
    let (a, b, n) = reconcile_batches(measured);
    assert_eq!(a, b);
    assert_eq!(n, a.len());
    let q = compute_qber_from_sifted(&a, &b);
    assert_eq!(q.error_count, 0);
    assert!(!q.threshold_exceeded);
}

#[test]
fn streamed_exchange_with_eve_is_detected() {
    let cfg = config(100_000, true);
    let mut alice_rng = ChaCha8Rng::seed_from_u64(cfg.alice_seed);
    let mut eve_rng = ChaCha8Rng::seed_from_u64(cfg.eve_seed);
    let mut bob_rng = ChaCha8Rng::seed_from_u64(cfg.bob_seed);
    let mut measured = Vec::new();
    let mut intercepted = 0;
    for idx in 0..batch_count(cfg.num_photons) {
        let batch = alice_make_batch(&cfg, &mut alice_rng, idx);
        let lost = batch.lost_in_batch;
        let len = batch.photons.len();
        let (batch, count) = eve_process_batch(&cfg, &mut eve_rng, batch);
        assert_eq!(count, len - lost);
        intercepted += count;
        measured.push(bob_measure_batch(&mut bob_rng, batch));
    }
    assert!(intercepted > 98_000);
    let (a, b, _) = reconcile_batches(sort_batches(measured));
    let q = compute_qber_from_sifted(&a, &b);
    assert!(q.threshold_exceeded);
}

fn empty_batch(index: usize) -> MeasuredBatch {
    MeasuredBatch {
        alice_bases: vec![Basis::Rectilinear],
        alice_bits: vec![Bit::One],
        bob_bases: vec![Basis::Rectilinear],
        bob_bits: vec![if index % 2 == 0 { Bit::One } else { Bit::Zero }],
        lost_flags: vec![false],
        batch_index: index,
        received_in_batch: 1,
        lost_in_batch: 0,
    }
}

#[test]
fn batches_are_sorted_by_index() {
    let batches = vec![empty_batch(3), empty_batch(0), empty_batch(2), empty_batch(1)];
    let sorted = sort_batches(batches);
    let order: Vec<usize> = sorted.iter().map(|b| b.batch_index).collect();
    assert_eq!(order, vec![0, 1, 2, 3]);
    let (a, b, n) = reconcile_batches(sorted);
    assert_eq!(n, 4);
    assert_eq!(a, vec![Bit::One; 4]);
    assert_eq!(b, vec![Bit::One, Bit::Zero, Bit::One, Bit::Zero]);
}

#[test]
fn batches_hold_every_photon() {
    for &n in &[0usize, 1, 65_535, 65_536, 65_537, 200_000] {
        let cfg = config(n, false);
        let mut rng = ChaCha8Rng::seed_from_u64(cfg.alice_seed);
        let total: usize = (0..batch_count(n)).map(|i| alice_make_batch(&cfg, &mut rng, i).photons.len()).sum();
        assert_eq!(total, n);
    }
}

#[test]
fn stable_order_of_equal_indices() {
    let mut a = empty_batch(1);
    a.received_in_batch = 10;
    let mut b = empty_batch(1);
    b.received_in_batch = 20;
    let sorted = sort_batches(vec![empty_batch(2), a, empty_batch(0), b]);
    let order: Vec<(usize, usize)> = sorted.iter().map(|m| (m.batch_index, m.received_in_batch)).collect();
    assert_eq!(order, vec![(0, 1), (1, 10), (1, 20), (2, 1)]);
}
