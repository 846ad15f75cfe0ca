use qkd_network_sim::photon::{measure_photon, measure_photon_fast, Basis, Bit, Photon};
use rand::SeedableRng;
use rand_chacha::ChaCha8Rng;

#[test]
fn bit_from_bool() {
    assert_eq!(Bit::from(true), Bit::One);
    assert_eq!(Bit::from(false), Bit::Zero);
}

#[test]
fn new_photon_is_not_lost() {
    let p = Photon::new(Basis::Diagonal, Bit::One);
    assert_eq!(p.basis, Basis::Diagonal);
    assert_eq!(p.bit, Bit::One);
    assert!(!p.lost);
}

#[test]
fn symbols_of_bases_and_bits() {
    assert_eq!(Basis::Rectilinear.symbol(), 'Z');
    assert_eq!(Basis::Diagonal.symbol(), 'X');
    assert_eq!(Bit::Zero.symbol(), '0');
    assert_eq!(Bit::One.symbol(), '1');
}

#[test]
fn fast_measurement_in_matching_basis_keeps_bit() {
    for &bit in &[Bit::Zero, Bit::One] {
        for &coin in &[false, true] {
            assert_eq!(measure_photon_fast(Basis::Rectilinear, bit, Basis::Rectilinear, coin), bit);
            assert_eq!(measure_photon_fast(Basis::Diagonal, bit, Basis::Diagonal, coin), bit);
        }
    }
}

#[test]
fn fast_measurement_in_other_basis_yields_coin() {
    assert_eq!(measure_photon_fast(Basis::Rectilinear, Bit::Zero, Basis::Diagonal, true), Bit::One);
    assert_eq!(measure_photon_fast(Basis::Diagonal, Bit::One, Basis::Rectilinear, false), Bit::Zero);
}

#[test]
fn measure_lost_photon_gives_nothing() {
    let mut rng = ChaCha8Rng::seed_from_u64(7);
    let mut p = Photon::new(Basis::Rectilinear, Bit::One);
    p.lost = true;
    assert_eq!(p.measure(Basis::Rectilinear, &mut rng), None);
    assert_eq!(p.measure(Basis::Diagonal, &mut rng), None);
}

#[test]
fn measure_in_matching_basis_gives_bit() {
    let mut rng = ChaCha8Rng::seed_from_u64(7);
    let p = Photon::new(Basis::Diagonal, Bit::Zero);
    for _ in 0..20 {
        assert_eq!(p.measure(Basis::Diagonal, &mut rng), Some(Bit::Zero));
        assert!(p.measure(Basis::Rectilinear, &mut rng).is_some());
        assert_eq!(measure_photon(Basis::Diagonal, Bit::One, Basis::Diagonal, &mut rng), Bit::One);
    }
}

#[test]
fn measure_in_other_basis_gives_both_outcomes() {
    let mut rng = ChaCha8Rng::seed_from_u64(11);
    let p = Photon::new(Basis::Rectilinear, Bit::Zero);
    let mut ones = 0;
    for _ in 0..200 {
        if p.measure(Basis::Diagonal, &mut rng) == Some(Bit::One) {
            ones += 1;
        }
    }
    assert!(ones > 50 && ones < 150);
}
