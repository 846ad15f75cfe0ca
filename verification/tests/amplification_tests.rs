use qkd_network_sim::photon::Bit;
use qkd_network_sim::privacy_amplification::{
    bits_to_packed_words, packed_words_to_hex, run_privacy_amplification_pipeline, select_ldpc_corrections,
    simulate_ldpc_correction,
    AmplificationConfig, LdpcConfig, ToeplitzMatrix,
};
use qkd_network_sim::text::{count_differing_bytes, format_num};

fn bits_of(pattern: &[u8]) -> Vec<Bit> {
    pattern.iter().map(|&b| if b == 1 { Bit::One } else { Bit::Zero }).collect()
}

fn pseudo_bits(n: usize, seed: u64) -> Vec<Bit> {
    let mut x = seed.wrapping_mul(6364136223846793005).wrapping_add(1442695040888963407);
    (0..n)
        .map(|_| {
            x = x.wrapping_mul(6364136223846793005).wrapping_add(1442695040888963407);
            if (x >> 63) == 1 { Bit::One } else { Bit::Zero }
        })
        .collect()
}

#[test]
fn packing_small_key() {
    let (words, len) = bits_to_packed_words(&bits_of(&[1, 0, 1]));
    assert_eq!(words, vec![5]);
    assert_eq!(len, 3);
}

#[test]
fn packing_crosses_words() {
    let mut bits = vec![Bit::Zero; 70];
    bits[0] = Bit::One;
    bits[63] = Bit::One;
    bits[64] = Bit::One;
    bits[69] = Bit::One;
    let (words, len) = bits_to_packed_words(&bits);
    assert_eq!(len, 70);
    assert_eq!(words, vec![1u64 | (1u64 << 63), 1u64 | (1u64 << 5)]);
}

#[test]
fn packing_large_key_over_chunks() {
    let bits = pseudo_bits(20_001, 3);
    let (words, len) = bits_to_packed_words(&bits);
    assert_eq!(len, 20_001);
    assert_eq!(words.len(), (20_001 + 63) / 64);
    for (i, b) in bits.iter().enumerate() {
        assert_eq!((words[i / 64] >> (i % 64)) & 1 == 1, *b == Bit::One);
    }
    assert_eq!(words[words.len() - 1] >> (20_001 % 64), 0);
}

#[test]
fn packing_nothing() {
    let (words, len) = bits_to_packed_words(&[]);
    assert!(words.is_empty());
    assert_eq!(len, 0);
}

#[test]
fn hex_rendering_of_nibbles() {
    assert_eq!(packed_words_to_hex(&[0x1234], 16), "4321");
    assert_eq!(packed_words_to_hex(&[0xfedcba9876543210], 64), "0123456789abcdef");
    assert_eq!(packed_words_to_hex(&[0xff], 6), "f3");
    assert_eq!(packed_words_to_hex(&[0xff], 200), "ff00000000000000");
    assert_eq!(packed_words_to_hex(&[], 8), "");
}

#[test]
fn formatting_numbers_in_groups() {
    assert_eq!(format_num(0), "0");
    assert_eq!(format_num(7), "7");
    assert_eq!(format_num(999), "999");
    assert_eq!(format_num(1000), "1_000");
    assert_eq!(format_num(1234567), "1_234_567");
    assert_eq!(format_num(10_000_000), "10_000_000");
}

#[test]
fn ldpc_disabled_counts_errors() {
    let alice = bits_of(&[1, 0, 1, 1, 0]);
    let mut bob = bits_of(&[1, 1, 1, 0, 0, 1]);
    let before = bob.clone();
    let cfg = LdpcConfig { enabled: false, max_iterations: 10, seed: 1 };
    assert_eq!(simulate_ldpc_correction(&alice, &mut bob, &cfg), 2);
    assert_eq!(bob, before);
}

#[test]
fn ldpc_corrects_only_toward_alice() {
    let n = 10_000;
    let alice = pseudo_bits(n, 5);
    let mut bob = alice.clone();
    for i in (0..n).step_by(10) {
        bob[i] = if bob[i] == Bit::One { Bit::Zero } else { Bit::One };
    }
    let before = bob.clone();
    let corrected = simulate_ldpc_correction(&alice, &mut bob, &LdpcConfig::default());
    let changed = (0..n).filter(|&i| bob[i] != before[i]).count();
    assert_eq!(corrected, changed);
    for i in 0..n {
        assert!(bob[i] == before[i] || (bob[i] == alice[i] && alice[i] != before[i]));
    }
    assert!(corrected > 800, "corrected {}", corrected);
}

#[test]
fn default_configs() {
    let l = LdpcConfig::default();
    assert!(l.enabled);
    assert_eq!(l.max_iterations, 10);
    assert_eq!(l.seed, 99999);
    assert_eq!(AmplificationConfig::default().seed, 77777);
}

#[test]
fn toeplitz_dimensions() {
    let t = ToeplitzMatrix::generate(256, 1000, 77777);
    assert_eq!(t.m, 256);
    assert_eq!(t.n, 1000);
    assert_eq!(t.diagonal_len, 1255);
    assert_eq!(t.diagonal.len(), (1255 + 63) / 64);
}

#[test]
fn toeplitz_product_is_linear() {
    let n = 3000;
    let m = 1500;
    let t = ToeplitzMatrix::generate(m, n, 42);
    let (x, _) = bits_to_packed_words(&pseudo_bits(n, 1));
    let (y, _) = bits_to_packed_words(&pseudo_bits(n, 2));
    let xy: Vec<u64> = x.iter().zip(y.iter()).map(|(a, b)| a ^ b).collect();
    let px = t.multiply_gf2(&x, n);
    let py = t.multiply_gf2(&y, n);
    let pxy = t.multiply_gf2(&xy, n);
    assert_eq!(px.len(), (m + 63) / 64);
    let expected: Vec<u64> = px.iter().zip(py.iter()).map(|(a, b)| a ^ b).collect();
    assert_eq!(pxy, expected);
}

#[test]
fn toeplitz_product_of_zero_is_zero() {
    let t = ToeplitzMatrix::generate(300, 700, 9);
    let zero = vec![0u64; (700 + 63) / 64];
    assert!(t.multiply_gf2(&zero, 700).iter().all(|&w| w == 0));
}

#[test]
fn identical_keys_amplify_to_identical_keys() {
    let key = pseudo_bits(4000, 8);
    let (a, b, stats, remaining) = run_privacy_amplification_pipeline(
        &key, &key, &LdpcConfig::default(), &AmplificationConfig::default(), 2000);
    assert_eq!(remaining, 0);
    assert_eq!(a, b);
    assert_eq!(a.len(), 500);
    assert_eq!(stats.sifted_key_length, 4000);
    assert_eq!(stats.corrected_key_length, 4000);
    assert_eq!(stats.corrected_errors, 0);
    assert_eq!(stats.toeplitz_input_bits, 4000);
    assert_eq!(stats.toeplitz_output_bits, 2000);
    assert_eq!(stats.toeplitz_diagonal_bits, 5999);
    assert_eq!(stats.final_key_bytes, 250);
}

#[test]
fn amplified_length_is_at_least_256_bits() {
    let key = pseudo_bits(1000, 4);
    let (a, _, stats, _) = run_privacy_amplification_pipeline(
        &key, &key, &LdpcConfig::default(), &AmplificationConfig::default(), 10);
    assert_eq!(stats.toeplitz_output_bits, 256);
    assert_eq!(a.len(), 64);
    let short = pseudo_bits(100, 4);
    let (a, _, stats, _) = run_privacy_amplification_pipeline(
        &short, &short, &LdpcConfig::default(), &AmplificationConfig::default(), 50);
    assert_eq!(stats.toeplitz_output_bits, 100);
    assert_eq!(a.len(), 25);
}

#[test]
fn uncorrected_errors_change_the_final_key() {
    let alice = pseudo_bits(2000, 12);
    let mut bob = alice.clone();
    bob[17] = if bob[17] == Bit::One { Bit::Zero } else { Bit::One };
    let ldpc = LdpcConfig { enabled: false, max_iterations: 10, seed: 1 };
    let (a, b, stats, remaining) = run_privacy_amplification_pipeline(
        &alice, &bob, &ldpc, &AmplificationConfig::default(), 1000);
    assert_eq!(remaining, 1);
    assert_eq!(stats.corrected_errors, 1);
    assert_ne!(a, b);
}

#[test]
fn ldpc_selection_from_draws() {
    let alice = bits_of(&[1, 0, 1, 1, 0]);
    let bob = bits_of(&[0, 0, 0, 1, 1]);
    // Mismatches at 0, 2 and 4; only those with a clear syndrome bit use a
    // confidence word, in order: 0 takes u64::MAX (refused), 4 takes 0 (accepted).
    let syndrome = [false, true, true, false, false];
    let confidence = [u64::MAX, 0];
    let corr = select_ldpc_corrections(&alice, &bob, &syndrome, &confidence, 0, 5);
    assert_eq!(corr, vec![(2, Bit::One), (4, Bit::Zero)]);
    // 0.85 of the scale: a word just below it is accepted, one at it refused.
    let below = [(7_656_119_366_529_843u64 - 1) << 11];
    let at = [7_656_119_366_529_843u64 << 11];
    let one_a = bits_of(&[1]);
    let one_b = bits_of(&[0]);
    assert_eq!(select_ldpc_corrections(&one_a, &one_b, &[false], &below, 0, 1), vec![(0, Bit::One)]);
    assert_eq!(select_ldpc_corrections(&one_a, &one_b, &[false], &at, 0, 1), vec![]);
    // A sub-range keeps absolute positions.
    let corr = select_ldpc_corrections(&alice, &bob, &[true, false], &[u64::MAX], 3, 5);
    assert_eq!(corr, vec![]);
    let corr = select_ldpc_corrections(&alice, &bob, &[false, true], &[], 3, 5);
    assert_eq!(corr, vec![(4, Bit::Zero)]);
}

#[test]
fn differing_hex_digits() {
    assert_eq!(count_differing_bytes(b"0a1b2c", b"0a1b2c"), 0);
    assert_eq!(count_differing_bytes(b"0a1b2c", b"1a1b3c"), 2);
    assert_eq!(count_differing_bytes(b"ffff", b"ff"), 0);
    assert_eq!(count_differing_bytes(b"", b"abc"), 0);
    assert_eq!(count_differing_bytes(b"abc", b"xyz9"), 3);
}
