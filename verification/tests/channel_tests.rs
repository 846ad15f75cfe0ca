use qkd_network_sim::channel::{reconcile_bases_packed, reconcile_bases_parallel, PublicChannel};
use qkd_network_sim::photon::{Basis, Bit};

fn basis(b: u8) -> Basis {
    if b == 1 { Basis::Rectilinear } else { Basis::Diagonal }
}

fn bit(b: u8) -> Bit {
    if b == 1 { Bit::One } else { Bit::Zero }
}

#[test]
fn sifting_keeps_matching_arrived_positions() {
    let ab: Vec<Basis> = [1, 0, 1, 0, 1, 1].iter().map(|&b| basis(b)).collect();
    let bb: Vec<Basis> = [1, 1, 1, 0, 0, 1].iter().map(|&b| basis(b)).collect();
    let abits: Vec<Bit> = [1, 0, 0, 1, 1, 0].iter().map(|&b| bit(b)).collect();
    let bbits: Vec<Bit> = [1, 1, 0, 0, 1, 0].iter().map(|&b| bit(b)).collect();
    let lost = vec![false, false, true, false, false, false];
    let key = reconcile_bases_parallel(&ab, &abits, &bb, &bbits, &lost);
    assert_eq!(key.indices, vec![0, 3, 5]);
    assert_eq!(key.alice_bits, vec![Bit::One, Bit::One, Bit::Zero]);
    assert_eq!(key.bob_bits, vec![Bit::One, Bit::Zero, Bit::Zero]);
    assert_eq!(key.length, 3);
    assert_eq!(key.len(), 3);
    assert!(!key.is_empty());
}

#[test]
fn sifting_nothing() {
    let key = reconcile_bases_parallel(&[], &[], &[], &[], &[]);
    assert!(key.is_empty());
    assert_eq!(key.len(), 0);
}

#[test]
fn sifting_large_exchange_over_chunks() {
    let n = 20_000;
    let ab: Vec<Basis> = (0..n).map(|i| basis((i % 2) as u8)).collect();
    let bb: Vec<Basis> = (0..n).map(|i| basis(((i / 2) % 2) as u8)).collect();
    let abits: Vec<Bit> = (0..n).map(|i| bit((i % 5 == 0) as u8)).collect();
    let bbits = abits.clone();
    let lost: Vec<bool> = (0..n).map(|i| i % 7 == 0).collect();
    let key = reconcile_bases_parallel(&ab, &abits, &bb, &bbits, &lost);
    let expected: Vec<usize> = (0..n).filter(|&i| !lost[i] && ab[i] == bb[i]).collect();
    assert_eq!(key.indices, expected);
    assert_eq!(key.alice_bits, key.bob_bits);
    assert_eq!(key.length, expected.len());
}

#[test]
fn packed_sifting_matches_unpacked() {
    let n = 200;
    let ab: Vec<bool> = (0..n).map(|i| (i * 7) % 3 == 0).collect();
    let bb: Vec<bool> = (0..n).map(|i| (i * 5) % 4 < 2).collect();
    let abits: Vec<bool> = (0..n).map(|i| i % 2 == 0).collect();
    let bbits: Vec<bool> = (0..n).map(|i| i % 3 == 0).collect();
    let lost: Vec<bool> = (0..n).map(|i| i % 11 == 0).collect();
    let pack = |v: &Vec<bool>| {
        let mut w = vec![0u64; (n + 63) / 64];
        for (i, &b) in v.iter().enumerate() {
            if b {
                w[i / 64] |= 1u64 << (i % 64);
            }
        }
        w
    };
    let (a, b, idx) = reconcile_bases_packed(&pack(&ab), &pack(&abits), &pack(&bb), &pack(&bbits), &lost, n);
    let expected: Vec<usize> = (0..n).filter(|&i| !lost[i] && ab[i] == bb[i]).collect();
    assert_eq!(idx, expected);
    let ea: Vec<Bit> = expected.iter().map(|&i| Bit::from(abits[i])).collect();
    let eb: Vec<Bit> = expected.iter().map(|&i| Bit::from(bbits[i])).collect();
    assert_eq!(a, ea);
    assert_eq!(b, eb);
}

#[test]
fn public_channel_announces_and_compares() {
    let ch = PublicChannel::new();
    let a = vec![Basis::Rectilinear, Basis::Diagonal, Basis::Diagonal];
    let b = vec![Basis::Rectilinear, Basis::Rectilinear];
    assert_eq!(ch.announce_bases(&a), a);
    assert_eq!(ch.compare_bases(&a, &b), vec![true, false]);
    assert_eq!(ch.compare_bases(&b, &a), vec![true, false]);
    assert_eq!(ch.compare_bases(&a, &a), vec![true, true, true]);
}
