use vstd::prelude::*;

use crate::bits::{packed_bit, test_bit};
use crate::chunks::{
    ceil_div, chunk_bounds, chunk_count, chunk_end, chunk_size, chunk_start, chunks_covered,
    lemma_chunk_count_zero, lemma_chunk_start_in_range, lemma_chunks_tile,
};
use crate::parallel::{par_map_range, worker_count};
use crate::photon::{bit_of_bool, Basis, Bit};
use crate::ranges::{lemma_positions_split, positions};

verus! {

/// The elements of `s` at the positions `idx`, in that order.
pub open spec fn gather<T>(s: Seq<T>, idx: Seq<usize>) -> Seq<T> {
    Seq::new(idx.len(), |k: int| s[idx[k] as int])
}

/// Gathering at a concatenation of positions concatenates the gatherings.
pub proof fn lemma_gather_concat<T>(s: Seq<T>, a: Seq<usize>, b: Seq<usize>)
    ensures
        gather(s, a + b) == gather(s, a) + gather(s, b),
{
    assert(gather(s, a + b) =~= gather(s, a) + gather(s, b));
}

/// Sifting keeps position `i` when the photon arrived and Alice and Bob
/// chose the same basis.
pub open spec fn sift_keep(alice_bases: Seq<Basis>, bob_bases: Seq<Basis>, lost_flags: Seq<bool>) -> spec_fn(int) -> bool {
    |i: int| !lost_flags[i] && alice_bases[i] == bob_bases[i]
}

/// The key that survives basis reconciliation.
#[derive(Debug, Clone)]
pub struct SiftedKey {
    pub alice_bits: Vec<Bit>,
    pub bob_bits: Vec<Bit>,
    pub indices: Vec<usize>,
    pub length: usize,
}

impl SiftedKey {
    /// This key is the sifting of the given exchange: the kept positions in
    /// increasing order, and Alice's and Bob's bits at them.
    pub open spec fn sifts(&self, alice_bases: Seq<Basis>, alice_bits: Seq<Bit>, bob_bases: Seq<Basis>,
        bob_bits: Seq<Bit>, lost_flags: Seq<bool>) -> bool {
        &&& self.indices@ == positions(sift_keep(alice_bases, bob_bases, lost_flags), 0, alice_bases.len() as int)
        &&& self.alice_bits@ == gather(alice_bits, self.indices@)
        &&& self.bob_bits@ == gather(bob_bits, self.indices@)
        &&& self.length == self.indices@.len()
    }

    pub fn len(&self) -> (r: usize)
        ensures
            r == self.length,
    {
        self.length
    }

    pub fn is_empty(&self) -> (r: bool)
        ensures
            r == (self.length == 0),
    {
        self.length == 0
    }
}

/// Sifts the positions `start..end`.
pub(crate) fn sift_chunk(alice_bases: &[Basis], alice_bits: &[Bit], bob_bases: &[Basis], bob_bits: &[Bit],
    lost_flags: &[bool], start: usize, end: usize) -> (r: (Vec<Bit>, Vec<Bit>, Vec<usize>))
    requires
        start <= end <= alice_bases@.len(),
        alice_bits@.len() >= alice_bases@.len(),
        bob_bases@.len() >= alice_bases@.len(),
        bob_bits@.len() >= alice_bases@.len(),
        lost_flags@.len() >= alice_bases@.len(),
    ensures
        r.2@ == positions(sift_keep(alice_bases@, bob_bases@, lost_flags@), start as int, end as int),
        r.0@ == gather(alice_bits@, r.2@),
        r.1@ == gather(bob_bits@, r.2@),
{
    let ghost keep = sift_keep(alice_bases@, bob_bases@, lost_flags@);
    let mut alice_sifted: Vec<Bit> = Vec::new();
    let mut bob_sifted: Vec<Bit> = Vec::new();
    let mut indices: Vec<usize> = Vec::new();
    for i in start..end
        invariant
            end <= alice_bases@.len(),
            alice_bits@.len() >= alice_bases@.len(),
            bob_bases@.len() >= alice_bases@.len(),
            bob_bits@.len() >= alice_bases@.len(),
            lost_flags@.len() >= alice_bases@.len(),
            keep == sift_keep(alice_bases@, bob_bases@, lost_flags@),
            indices@ == positions(keep, start as int, i as int),
            alice_sifted@ == gather(alice_bits@, indices@),
            bob_sifted@ == gather(bob_bits@, indices@),
    {
        if !lost_flags[i] && alice_bases[i] == bob_bases[i] {
            alice_sifted.push(alice_bits[i]);
            bob_sifted.push(bob_bits[i]);
            indices.push(i);
        }
        assert(alice_sifted@ =~= gather(alice_bits@, indices@));
        assert(bob_sifted@ =~= gather(bob_bits@, indices@));
    }
    (alice_sifted, bob_sifted, indices)
}

/// Basis reconciliation over the public channel: keeps the positions where
/// the photon arrived and Alice's and Bob's bases agree.
pub fn reconcile_bases_parallel(alice_bases: &[Basis], alice_bits: &[Bit], bob_bases: &[Basis], bob_bits: &[Bit],
    lost_flags: &[bool]) -> (r: SiftedKey)
    requires
        alice_bits@.len() >= alice_bases@.len(),
        bob_bases@.len() >= alice_bases@.len(),
        bob_bits@.len() >= alice_bases@.len(),
        lost_flags@.len() >= alice_bases@.len(),
    ensures
        r.sifts(alice_bases@, alice_bits@, bob_bases@, bob_bits@, lost_flags@),
{
    let len = alice_bases.len();
    let num_threads = worker_count();
    let chunk_len = chunk_size(len, num_threads, 1024);
    let num_chunks = chunk_count(len, chunk_len);
    let ghost keep = sift_keep(alice_bases@, bob_bases@, lost_flags@);

    let f = |c: usize| -> (r: (Vec<Bit>, Vec<Bit>, Vec<usize>))
        requires
            c < num_chunks,
        ensures
            r.2@ == positions(sift_keep(alice_bases@, bob_bases@, lost_flags@), chunk_start(c as int, chunk_len as int),
                chunk_end(c as int, chunk_len as int, len as int)),
            r.0@ == gather(alice_bits@, r.2@),
            r.1@ == gather(bob_bits@, r.2@),
    {
        let (start, end) = chunk_bounds(c, chunk_len, len);
        sift_chunk(alice_bases, alice_bits, bob_bases, bob_bits, lost_flags, start, end)
    };
    let mut results = par_map_range(num_chunks, f);
    assert forall|k: int| 0 <= k < num_chunks implies
        (#[trigger] results@[k]).2@ == positions(keep, chunk_start(k, chunk_len as int), chunk_end(k, chunk_len as int, len as int))
        && results@[k].0@ == gather(alice_bits@, results@[k].2@)
        && results@[k].1@ == gather(bob_bits@, results@[k].2@) by {
        assert(call_ensures(f, (k as usize,), results@[k]));
    }

    let mut all_alice: Vec<Bit> = Vec::new();
    let mut all_bob: Vec<Bit> = Vec::new();
    let mut all_indices: Vec<usize> = Vec::new();
    proof {
        lemma_chunk_count_zero(len as int, chunk_len as int);
    }
    let mut c: usize = 0;
    while c < num_chunks
        invariant
            0 <= c <= num_chunks,
            num_chunks == ceil_div(len as int, chunk_len as int),
            chunk_len >= 1,
            len == alice_bases@.len(),
            results@.len() == num_chunks - c,
            forall|k: int| 0 <= k < results@.len() ==>
                (#[trigger] results@[k]).2@ == positions(keep, chunk_start(k + c, chunk_len as int),
                    chunk_end(k + c, chunk_len as int, len as int))
                && results@[k].0@ == gather(alice_bits@, results@[k].2@)
                && results@[k].1@ == gather(bob_bits@, results@[k].2@),
            all_indices@ == positions(keep, 0, chunks_covered(c as int, chunk_len as int, len as int)),
            all_alice@ == gather(alice_bits@, all_indices@),
            all_bob@ == gather(bob_bits@, all_indices@),
        decreases num_chunks - c,
    {
        proof {
            lemma_chunks_tile(c as int, chunk_len as int, len as int);
            lemma_chunk_start_in_range(c as int, chunk_len as int, len as int);
        }
        let ghost prev = results@;
        let ghost prev_indices = all_indices@;
        let (mut alice, mut bob, mut idx) = results.remove(0);
        proof {
            lemma_positions_split(keep, 0, chunk_start(c as int, chunk_len as int),
                chunk_end(c as int, chunk_len as int, len as int));
            lemma_gather_concat(alice_bits@, prev_indices, idx@);
            lemma_gather_concat(bob_bits@, prev_indices, idx@);
        }
        all_alice.append(&mut alice);
        all_bob.append(&mut bob);
        all_indices.append(&mut idx);
        c = c + 1;
        proof {
            assert forall|k: int| 0 <= k < results@.len() implies
                (#[trigger] results@[k]).2@ == positions(keep, chunk_start(k + c, chunk_len as int),
                    chunk_end(k + c, chunk_len as int, len as int))
                && results@[k].0@ == gather(alice_bits@, results@[k].2@)
                && results@[k].1@ == gather(bob_bits@, results@[k].2@) by {
                assert(results@[k] == prev[k + 1]);
            }
        }
    }
    proof {
        if num_chunks > 0 {
            lemma_chunks_tile(num_chunks - 1, chunk_len as int, len as int);
        }
    }
    let length = all_alice.len();
    SiftedKey { alice_bits: all_alice, bob_bits: all_bob, indices: all_indices, length }
}

/// Sifting of packed exchanges keeps position `i` when the photon arrived
/// and the packed basis bits agree.
pub open spec fn packed_sift_keep(alice_packed_bases: Seq<u64>, bob_packed_bases: Seq<u64>, lost_flags: Seq<bool>) -> spec_fn(int) -> bool {
    |i: int| !lost_flags[i] && packed_bit(alice_packed_bases, i) == packed_bit(bob_packed_bases, i)
}

/// The key bits that `n` packed bits stand for.
pub open spec fn unpacked_bits(words: Seq<u64>, n: int) -> Seq<Bit> {
    Seq::new(n as nat, |i: int| bit_of_bool(packed_bit(words, i)))
}

/// The packed inputs hold every word that reconciliation reads: the basis
/// words of the photons that arrived, and the bit words of those kept.
pub open spec fn packed_reconcile_reads_ok(alice_packed_bases: Seq<u64>, alice_packed_bits: Seq<u64>,
    bob_packed_bases: Seq<u64>, bob_packed_bits: Seq<u64>, lost_flags: Seq<bool>, total_photons: int) -> bool {
    &&& lost_flags.len() >= total_photons
    &&& forall|i: int| 0 <= i < total_photons && !#[trigger] lost_flags[i] ==>
        i / 64 < alice_packed_bases.len() && i / 64 < bob_packed_bases.len()
    &&& forall|i: int| 0 <= i < total_photons && #[trigger] packed_sift_keep(alice_packed_bases, bob_packed_bases, lost_flags)(i) ==>
        i / 64 < alice_packed_bits.len() && i / 64 < bob_packed_bits.len()
}

/// Sifts the packed positions `start..end`.
fn sift_packed_chunk(alice_packed_bases: &[u64], alice_packed_bits: &[u64], bob_packed_bases: &[u64],
    bob_packed_bits: &[u64], lost_flags: &[bool], total_photons: usize, start: usize, end: usize) -> (r: (Vec<Bit>, Vec<Bit>, Vec<usize>))
    requires
        start <= end <= total_photons,
        packed_reconcile_reads_ok(alice_packed_bases@, alice_packed_bits@, bob_packed_bases@, bob_packed_bits@,
            lost_flags@, total_photons as int),
    ensures
        r.2@ == positions(packed_sift_keep(alice_packed_bases@, bob_packed_bases@, lost_flags@), start as int, end as int),
        r.0@ == gather(unpacked_bits(alice_packed_bits@, total_photons as int), r.2@),
        r.1@ == gather(unpacked_bits(bob_packed_bits@, total_photons as int), r.2@),
{
    let ghost keep = packed_sift_keep(alice_packed_bases@, bob_packed_bases@, lost_flags@);
    let ghost alice_key = unpacked_bits(alice_packed_bits@, total_photons as int);
    let ghost bob_key = unpacked_bits(bob_packed_bits@, total_photons as int);
    let mut alice_sifted: Vec<Bit> = Vec::new();
    let mut bob_sifted: Vec<Bit> = Vec::new();
    let mut indices: Vec<usize> = Vec::new();
    for i in start..end
        invariant
            end <= total_photons,
            packed_reconcile_reads_ok(alice_packed_bases@, alice_packed_bits@, bob_packed_bases@, bob_packed_bits@,
                lost_flags@, total_photons as int),
            keep == packed_sift_keep(alice_packed_bases@, bob_packed_bases@, lost_flags@),
            alice_key == unpacked_bits(alice_packed_bits@, total_photons as int),
            bob_key == unpacked_bits(bob_packed_bits@, total_photons as int),
            indices@ == positions(keep, start as int, i as int),
            alice_sifted@ == gather(alice_key, indices@),
            bob_sifted@ == gather(bob_key, indices@),
    {
        let word_idx = i / 64;
        let bit_idx = (i % 64) as u64;
        if !lost_flags[i] {
            let alice_basis = test_bit(alice_packed_bases[word_idx], bit_idx);
            let bob_basis = test_bit(bob_packed_bases[word_idx], bit_idx);
            if alice_basis == bob_basis {
                assert(keep(i as int));
                let alice_bit = test_bit(alice_packed_bits[word_idx], bit_idx);
                let bob_bit = test_bit(bob_packed_bits[word_idx], bit_idx);
                alice_sifted.push(Bit::from(alice_bit));
                bob_sifted.push(Bit::from(bob_bit));
                indices.push(i);
            }
        }
        assert(alice_sifted@ =~= gather(alice_key, indices@));
        assert(bob_sifted@ =~= gather(bob_key, indices@));
    }
    (alice_sifted, bob_sifted, indices)
}

/// Basis reconciliation on packed bases and bits: keeps the positions below
/// `total_photons` where the photon arrived and the basis bits agree;
/// returns Alice's bits, Bob's bits and the positions kept.
pub fn reconcile_bases_packed(alice_packed_bases: &[u64], alice_packed_bits: &[u64], bob_packed_bases: &[u64],
    bob_packed_bits: &[u64], lost_flags: &[bool], total_photons: usize) -> (r: (Vec<Bit>, Vec<Bit>, Vec<usize>))
    requires
        packed_reconcile_reads_ok(alice_packed_bases@, alice_packed_bits@, bob_packed_bases@, bob_packed_bits@,
            lost_flags@, total_photons as int),
    ensures
        r.2@ == positions(packed_sift_keep(alice_packed_bases@, bob_packed_bases@, lost_flags@), 0, total_photons as int),
        r.0@ == gather(unpacked_bits(alice_packed_bits@, total_photons as int), r.2@),
        r.1@ == gather(unpacked_bits(bob_packed_bits@, total_photons as int), r.2@),
{
    let len = total_photons;
    let num_threads = worker_count();
    let chunk_len = chunk_size(len, num_threads, 65536);
    let num_chunks = chunk_count(len, chunk_len);
    let ghost keep = packed_sift_keep(alice_packed_bases@, bob_packed_bases@, lost_flags@);
    let ghost alice_key = unpacked_bits(alice_packed_bits@, total_photons as int);
    let ghost bob_key = unpacked_bits(bob_packed_bits@, total_photons as int);

    let f = |c: usize| -> (r: (Vec<Bit>, Vec<Bit>, Vec<usize>))
        requires
            c < num_chunks,
        ensures
            r.2@ == positions(packed_sift_keep(alice_packed_bases@, bob_packed_bases@, lost_flags@),
                chunk_start(c as int, chunk_len as int), chunk_end(c as int, chunk_len as int, len as int)),
            r.0@ == gather(unpacked_bits(alice_packed_bits@, total_photons as int), r.2@),
            r.1@ == gather(unpacked_bits(bob_packed_bits@, total_photons as int), r.2@),
    {
        let (start, end) = chunk_bounds(c, chunk_len, len);
        sift_packed_chunk(alice_packed_bases, alice_packed_bits, bob_packed_bases, bob_packed_bits, lost_flags,
            total_photons, start, end)
    };
    let mut results = par_map_range(num_chunks, f);
    assert forall|k: int| 0 <= k < num_chunks implies
        (#[trigger] results@[k]).2@ == positions(keep, chunk_start(k, chunk_len as int), chunk_end(k, chunk_len as int, len as int))
        && results@[k].0@ == gather(alice_key, results@[k].2@)
        && results@[k].1@ == gather(bob_key, results@[k].2@) by {
        assert(call_ensures(f, (k as usize,), results@[k]));
    }

    let mut all_alice: Vec<Bit> = Vec::new();
    let mut all_bob: Vec<Bit> = Vec::new();
    let mut all_indices: Vec<usize> = Vec::new();
    proof {
        lemma_chunk_count_zero(len as int, chunk_len as int);
    }
    let mut c: usize = 0;
    while c < num_chunks
        invariant
            0 <= c <= num_chunks,
            num_chunks == ceil_div(len as int, chunk_len as int),
            chunk_len >= 1,
            results@.len() == num_chunks - c,
            forall|k: int| 0 <= k < results@.len() ==>
                (#[trigger] results@[k]).2@ == positions(keep, chunk_start(k + c, chunk_len as int),
                    chunk_end(k + c, chunk_len as int, len as int))
                && results@[k].0@ == gather(alice_key, results@[k].2@)
                && results@[k].1@ == gather(bob_key, results@[k].2@),
            all_indices@ == positions(keep, 0, chunks_covered(c as int, chunk_len as int, len as int)),
            all_alice@ == gather(alice_key, all_indices@),
            all_bob@ == gather(bob_key, all_indices@),
        decreases num_chunks - c,
    {
        proof {
            lemma_chunks_tile(c as int, chunk_len as int, len as int);
            lemma_chunk_start_in_range(c as int, chunk_len as int, len as int);
        }
        let ghost prev = results@;
        let ghost prev_indices = all_indices@;
        let (mut alice, mut bob, mut idx) = results.remove(0);
        proof {
            lemma_positions_split(keep, 0, chunk_start(c as int, chunk_len as int),
                chunk_end(c as int, chunk_len as int, len as int));
            lemma_gather_concat(alice_key, prev_indices, idx@);
            lemma_gather_concat(bob_key, prev_indices, idx@);
        }
        all_alice.append(&mut alice);
        all_bob.append(&mut bob);
        all_indices.append(&mut idx);
        c = c + 1;
        proof {
            assert forall|k: int| 0 <= k < results@.len() implies
                (#[trigger] results@[k]).2@ == positions(keep, chunk_start(k + c, chunk_len as int),
                    chunk_end(k + c, chunk_len as int, len as int))
                && results@[k].0@ == gather(alice_key, results@[k].2@)
                && results@[k].1@ == gather(bob_key, results@[k].2@) by {
                assert(results@[k] == prev[k + 1]);
            }
        }
    }
    proof {
        if num_chunks > 0 {
            lemma_chunks_tile(num_chunks - 1, chunk_len as int, len as int);
        }
    }
    (all_alice, all_bob, all_indices)
}

/// The authenticated classical channel on which the bases are announced.
pub struct PublicChannel;

impl PublicChannel {
    pub fn new() -> (r: PublicChannel) {
        PublicChannel
    }

    /// Announces the bases: a copy of them.
    pub fn announce_bases(&self, bases: &[Basis]) -> (r: Vec<Basis>)
        ensures
            r@ == bases@,
    {
        let mut out: Vec<Basis> = Vec::new();
        for i in 0..bases.len()
            invariant
                out@ == bases@.subrange(0, i as int),
        {
            out.push(bases[i]);
        }
        out
    }

    /// Compares the announced bases position by position, up to the
    /// shorter of the two.
    pub fn compare_bases(&self, alice_bases: &[Basis], bob_bases: &[Basis]) -> (r: Vec<bool>)
        ensures
            r@.len() == (if alice_bases@.len() < bob_bases@.len() { alice_bases@.len() } else { bob_bases@.len() }),
            forall|i: int| 0 <= i < r@.len() ==> #[trigger] r@[i] == (alice_bases@[i] == bob_bases@[i]),
    {
        let n = if alice_bases.len() < bob_bases.len() { alice_bases.len() } else { bob_bases.len() };
        let mut out: Vec<bool> = Vec::new();
        for i in 0..n
            invariant
                n <= alice_bases@.len(),
                n <= bob_bases@.len(),
                out@.len() == i,
                forall|j: int| 0 <= j < i ==> #[trigger] out@[j] == (alice_bases@[j] == bob_bases@[j]),
        {
            out.push(alice_bases[i] == bob_bases[i]);
        }
        out
    }
}

} // verus!
