use qkd_network_sim::channel::SiftedKey;
use qkd_network_sim::photon::Bit;
use qkd_network_sim::qber::{calculate_qber_from_sifted, calculate_qber_full, calculate_qber_parallel, exceeds_threshold};

fn bits_from(pattern: &[u8]) -> Vec<Bit> {
    pattern.iter().map(|&b| if b == 1 { Bit::One } else { Bit::Zero }).collect()
}

#[test]
fn threshold_matches_float_comparison() {
    for total in [1usize, 7, 100, 1000, 12345, 1_000_000] {
        for errors in 0..=total.min(2000) {
            let expected = (errors as f64 / total as f64) > 0.11;
            assert_eq!(exceeds_threshold(errors, total), expected, "{} / {}", errors, total);
        }
    }
    assert!(!exceeds_threshold(0, 0));
    assert!(!exceeds_threshold(11, 100));
    assert!(exceeds_threshold(12, 100));
}

#[test]
fn identical_keys_have_no_errors() {
    let a = bits_from(&[1, 0, 1, 1, 0, 0, 1]);
    let r = calculate_qber_full(&a, &a);
    assert_eq!(r.error_count, 0);
    assert_eq!(r.total_compared, 7);
    assert_eq!(r.sample_size, 7);
    assert!(!r.threshold_exceeded);
}

#[test]
fn full_qber_counts_mismatches() {
    let a = bits_from(&[1, 0, 1, 1, 0, 0, 1, 0]);
    let b = bits_from(&[1, 1, 1, 0, 0, 0, 1, 1]);
    let r = calculate_qber_full(&a, &b);
    assert_eq!(r.error_count, 3);
    assert_eq!(r.total_compared, 8);
    assert!(r.threshold_exceeded);
}

#[test]
fn full_qber_of_large_keys_over_chunks() {
    let n = 10_000;
    let a: Vec<Bit> = (0..n).map(|i| if i % 3 == 0 { Bit::One } else { Bit::Zero }).collect();
    let mut b = a.clone();
    for i in (0..n).step_by(100) {
        b[i] = if b[i] == Bit::One { Bit::Zero } else { Bit::One };
    }
    let r = calculate_qber_full(&a, &b);
    assert_eq!(r.error_count, 100);
    assert!(!r.threshold_exceeded);
}

#[test]
fn empty_keys_pass() {
    let r = calculate_qber_full(&[], &[]);
    assert_eq!(r.error_count, 0);
    assert_eq!(r.total_compared, 0);
    assert!(!r.threshold_exceeded);
}

#[test]
fn sample_is_at_least_one_hundred() {
    let n = 1000;
    let a: Vec<Bit> = vec![Bit::One; n];
    let mut b = a.clone();
    for i in 0..50 {
        b[i] = Bit::Zero;
    }
    let r = calculate_qber_parallel(&a, &b, 5);
    assert_eq!(r.sample_size, 100);
    assert_eq!(r.total_compared, 100);
    assert_eq!(r.error_count, 50);
    assert!(r.threshold_exceeded);
}

#[test]
fn sample_is_at_most_the_key() {
    let a = bits_from(&[1, 0, 1]);
    let b = bits_from(&[1, 1, 1]);
    let r = calculate_qber_parallel(&a, &b, 500);
    assert_eq!(r.sample_size, 3);
    assert_eq!(r.error_count, 1);
}

#[test]
fn sample_of_requested_size() {
    let n = 5000;
    let a: Vec<Bit> = vec![Bit::Zero; n];
    let mut b = a.clone();
    b[2000] = Bit::One;
    b[100] = Bit::One;
    let r = calculate_qber_parallel(&a, &b, 1500);
    assert_eq!(r.sample_size, 1500);
    assert_eq!(r.error_count, 1);
}

#[test]
fn qber_of_sifted_key() {
    let key = SiftedKey {
        alice_bits: bits_from(&[1, 1, 0, 0]),
        bob_bits: bits_from(&[1, 0, 0, 0]),
        indices: vec![0, 3, 4, 9],
        length: 4,
    };
    let r = calculate_qber_from_sifted(&key);
    assert_eq!(r.error_count, 1);
    assert_eq!(r.total_compared, 4);
    assert!(r.threshold_exceeded);
}
