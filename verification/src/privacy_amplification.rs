use vstd::prelude::*;

use crate::photon::Bit;
use crate::bits::{
    lemma_bit_or, lemma_bit_set_one, lemma_bit_zero, lemma_xor_assoc, lemma_xor_zero, low_mask, low_mask_exec, packed_bit, test_bit,
    word_bit,
};
use crate::chunks::{
    ceil_div, chunk_bounds, chunk_count, chunk_end, chunk_size, chunk_start, lemma_chunk_count_zero,
    chunks_covered, lemma_chunk_start_in_range, lemma_chunks_tile,
};
use crate::parallel::{par_map_range, worker_count};
use crate::qber::{differs, mismatches};
use crate::ranges::{count_range, lemma_count_bound, lemma_count_split, lemma_positions_facts, positions};
use crate::rng::{chunk_seed, draw_below, draw_bool, draw_u64, seeded_rng, unit_below};
use crate::text::{hex_digit, hex_digit_exec, push_char};

verus! {

/// A binary Toeplitz matrix of `m` rows and `n` columns, given by its
/// `m + n - 1` diagonals packed little-endian into 64-bit words.
pub struct ToeplitzMatrix {
    pub m: usize,
    pub n: usize,
    pub diagonal: Vec<u64>,
    pub diagonal_len: usize,
}

/// The input word `src`, with the bits at positions `n` and beyond cleared
/// when `src` is the last input word.
pub open spec fn masked_input_word(input: Seq<u64>, src: int, n: int) -> u64 {
    if src == input.len() - 1 && n - src * 64 < 64 {
        input[src] & low_mask((n - src * 64) as u64)
    } else {
        input[src]
    }
}

/// Clears the bits of output word `i` at positions `m` and beyond.
pub open spec fn mask_output_word(w: u64, m: int, i: int) -> u64 {
    if m - i * 64 < 64 {
        w & low_mask((m - i * 64) as u64)
    } else {
        w
    }
}

/// The word that the diagonal at distance `s` above the main diagonal
/// XORs into output word `i`: the input shifted down by `s` bits.
pub open spec fn right_shift_delta(input: Seq<u64>, s: int, n: int, m: int, i: int) -> u64 {
    let iw = input.len() as int;
    let sw = s / 64;
    let bs = (s % 64) as u64;
    if bs == 0 {
        let src = sw + i;
        if src < iw && i * 64 < m {
            masked_input_word(input, src, n)
        } else {
            0
        }
    } else {
        let src0 = sw + i;
        let src1 = src0 + 1;
        let w = if src0 < iw { 0u64 | (masked_input_word(input, src0, n) >> bs) } else { 0u64 };
        let w = if src1 < iw { w | (masked_input_word(input, src1, n) << ((64 - bs) as u64)) } else { w };
        mask_output_word(w, m, i)
    }
}

/// The word that the diagonal at distance `s` below the main diagonal
/// XORs into output word `i`. The input moves up by whole words; within a
/// word, when `s` is not a multiple of 64, the bits are shifted the other
/// way (the first word is `input[0] >> s % 64`, and each later word joins
/// the lower input word shifted left with the higher one shifted right), so
/// this is not the input moved up by `s` bits.
pub open spec fn left_shift_delta(input: Seq<u64>, s: int, m: int, ow: int, i: int) -> u64 {
    let iw = input.len() as int;
    let sw = s / 64;
    let bs = (s % 64) as u64;
    if bs == 0 {
        if sw <= i < ow && i - sw < iw {
            input[i - sw]
        } else {
            0
        }
    } else if i == sw && sw < ow {
        mask_output_word(input[0] >> bs, m, sw)
    } else if sw < i < ow {
        let src0 = i - sw - 1;
        let src1 = src0 + 1;
        let w = if src0 < iw { 0u64 | (input[src0] << ((64 - bs) as u64)) } else { 0u64 };
        let w = if src1 < iw { w | (input[src1] >> bs) } else { w };
        mask_output_word(w, m, i)
    } else {
        0
    }
}

/// The shifted-down input reads its last word only where that word holds
/// no bits beyond `n` that would have to be cleared from below zero.
pub open spec fn right_shift_safe(iw: int, s: int, n: int, ow: int) -> bool {
    let sw = s / 64;
    let top = if s % 64 == 0 { sw + ow - 1 } else { sw + ow };
    iw == 0 || !(sw <= iw - 1 <= top) || n >= (iw - 1) * 64
}

/// The shifted-up input reads its first word only where there is one.
pub open spec fn left_shift_safe(iw: int, s: int, ow: int) -> bool {
    s % 64 == 0 || s / 64 >= ow || iw >= 1
}

/// Number of output words for `m` output bits.
pub open spec fn output_words(m: int) -> int {
    ceil_div(m, 64)
}

/// What diagonal `d` (counted from the top-right corner, `n - 1` being the
/// main diagonal) XORs into output word `i`, for an input of `n_eff` bits.
pub open spec fn diagonal_delta(input: Seq<u64>, n_eff: int, n: int, m: int, d: int, i: int) -> u64 {
    let offset = n - 1;
    if d >= offset {
        let s = d - offset;
        if s < n_eff { right_shift_delta(input, s, n_eff, m, i) } else { 0 }
    } else {
        let s = offset - d;
        if s < m { left_shift_delta(input, s, m, output_words(m), i) } else { 0 }
    }
}

/// The diagonal `d` does not make the product read out of bounds.
pub open spec fn diagonal_safe(iw: int, n_eff: int, n: int, m: int, d: int) -> bool {
    let offset = n - 1;
    if d >= offset {
        let s = d - offset;
        s < n_eff ==> right_shift_safe(iw, s, n_eff, output_words(m))
    } else {
        let s = offset - d;
        s < m ==> left_shift_safe(iw, s, output_words(m))
    }
}

/// XOR of the contributions to output word `i` of the set diagonal bits
/// `lo <= d < hi`, taken in increasing order.
pub open spec fn diagonal_sum(diag: Seq<u64>, input: Seq<u64>, n_eff: int, n: int, m: int, lo: int, hi: int, i: int) -> u64
    decreases hi - lo,
{
    if hi <= lo {
        0
    } else {
        let prev = diagonal_sum(diag, input, n_eff, n, m, lo, hi - 1, i);
        if packed_bit(diag, hi - 1) {
            prev ^ diagonal_delta(input, n_eff, n, m, hi - 1, i)
        } else {
            prev
        }
    }
}

/// Word `i` of the word-shift product that `multiply_gf2` computes from
/// the packed diagonals `diag` of an `m` by `n` Toeplitz matrix and the
/// first `min(n, input_len_bits)` bits of `input`: the XOR, over every set
/// bit of the diagonal words (those past `m + n - 1` in the last word
/// included), of that diagonal's shifted input. For the diagonals on and
/// above the main one, and those below it at a multiple of 64, this is the
/// matrix-vector product over GF(2); for the others, see `left_shift_delta`.
pub open spec fn shifted_diagonal_word(diag: Seq<u64>, m: int, n: int, input: Seq<u64>, input_len_bits: int, i: int) -> u64 {
    diagonal_sum(diag, input, if n < input_len_bits { n } else { input_len_bits }, n, m, 0, (diag.len() * 64) as int, i)
}

/// All output words of that product.
pub open spec fn shifted_diagonal_product(diag: Seq<u64>, m: int, n: int, input: Seq<u64>, input_len_bits: int) -> Seq<u64> {
    Seq::new(output_words(m) as nat, |i: int| shifted_diagonal_word(diag, m, n, input, input_len_bits, i))
}

impl ToeplitzMatrix {
    /// The matrix is as `generate` builds it.
    pub open spec fn wf(&self) -> bool {
        &&& self.n >= 1
        &&& self.diagonal_len == self.m + self.n - 1
        &&& self.diagonal_len + 63 <= usize::MAX
        &&& self.diagonal@.len() == ceil_div(self.diagonal_len as int, 64)
    }

    /// Number of input bits that the product reads: `min(n, input_len_bits)`.
    pub open spec fn effective_input_bits(&self, input_len_bits: int) -> int {
        if (self.n as int) < input_len_bits { self.n as int } else { input_len_bits }
    }

    /// Word `i` of the product of this matrix with `input`.
    pub open spec fn product_word(&self, input: Seq<u64>, input_len_bits: int, i: int) -> u64 {
        shifted_diagonal_word(self.diagonal@, self.m as int, self.n as int, input, input_len_bits, i)
    }

    /// No set diagonal bit makes the product read out of bounds.
    pub open spec fn product_safe(&self, input: Seq<u64>, input_len_bits: int) -> bool {
        forall|d: int| 0 <= d < self.diagonal@.len() * 64 && #[trigger] packed_bit(self.diagonal@, d)
            ==> diagonal_safe(input.len() as int, self.effective_input_bits(input_len_bits),
                self.n as int, self.m as int, d)
    }

    /// XORs the input, shifted down by `shift_right` bits, into `out`.
    fn apply_shift_right_xor(&self, out: &mut Vec<u64>, input: &[u64], shift_right: usize, n: usize, m: usize)
        requires
            old(out)@.len() == output_words(m as int),
            right_shift_safe(input@.len() as int, shift_right as int, n as int, old(out)@.len() as int),
        ensures
            final(out)@.len() == old(out)@.len(),
            forall|i: int| 0 <= i < old(out)@.len() ==>
                #[trigger] final(out)@[i] == old(out)@[i] ^ right_shift_delta(input@, shift_right as int, n as int, m as int, i),
    {
        let input_words = input.len();
        let output_words = out.len();
        let start_word = shift_right / 64;
        let bit_shift = (shift_right % 64) as u64;
        proof {
            lemma_chunk_count_zero(m as int, 64);
        }
        if bit_shift == 0 {
            for i in 0..output_words
                invariant
                    out@.len() == output_words,
                    output_words == ceil_div(m as int, 64),
                    input_words == input@.len(),
                    start_word == shift_right / 64,
                    bit_shift == (shift_right % 64) as u64,
                    bit_shift == 0,
                    right_shift_safe(input@.len() as int, shift_right as int, n as int, output_words as int),
                    forall|j: int| 0 <= j < i ==> #[trigger] out@[j] == old(out)@[j]
                        ^ right_shift_delta(input@, shift_right as int, n as int, m as int, j),
                    forall|j: int| i <= j < output_words ==> #[trigger] out@[j] == old(out)@[j],
            {
                proof {
                    lemma_word_below_output(m as int, i as int);
                }
                let ghost delta = right_shift_delta(input@, shift_right as int, n as int, m as int, i as int);
                if start_word < input_words && i < input_words - start_word && i * 64 < m {
                    let src = start_word + i;
                    let mut w = input[src];
                    if src == input_words - 1 {
                        let rem = n - src * 64;
                        if rem < 64 {
                            w = w & low_mask_exec(rem as u64);
                        }
                    }
                    assert(w == delta);
                    out[i] = out[i] ^ w;
                } else {
                    proof {
                        lemma_xor_zero(out@[i as int]);
                    }
                }
            }
        } else {
            let inv_shift = 64 - bit_shift;
            for i in 0..output_words
                invariant
                    out@.len() == output_words,
                    output_words == ceil_div(m as int, 64),
                    input_words == input@.len(),
                    start_word == shift_right / 64,
                    bit_shift == (shift_right % 64) as u64,
                    bit_shift != 0,
                    inv_shift == 64 - bit_shift,
                    right_shift_safe(input@.len() as int, shift_right as int, n as int, output_words as int),
                    forall|j: int| 0 <= j < i ==> #[trigger] out@[j] == old(out)@[j]
                        ^ right_shift_delta(input@, shift_right as int, n as int, m as int, j),
                    forall|j: int| i <= j < output_words ==> #[trigger] out@[j] == old(out)@[j],
            {
                proof {
                    lemma_word_below_output(m as int, i as int);
                }
                let mut w = 0u64;
                let in_range0 = start_word < input_words && i < input_words - start_word;
                if in_range0 {
                    let src0 = start_word + i;
                    let mut w0 = input[src0];
                    if src0 == input_words - 1 {
                        let rem = n - src0 * 64;
                        if rem < 64 {
                            w0 = w0 & low_mask_exec(rem as u64);
                        }
                    }
                    w = w | (w0 >> bit_shift);
                }
                let in_range1 = start_word < input_words && i + 1 < input_words - start_word;
                if in_range1 {
                    let src1 = start_word + i + 1;
                    let mut w1 = input[src1];
                    if src1 == input_words - 1 {
                        let rem = n - src1 * 64;
                        if rem < 64 {
                            w1 = w1 & low_mask_exec(rem as u64);
                        }
                    }
                    w = w | (w1 << inv_shift);
                }
                let remaining = m - i * 64;
                if remaining < 64 {
                    w = w & low_mask_exec(remaining as u64);
                }
                assert(w == right_shift_delta(input@, shift_right as int, n as int, m as int, i as int));
                out[i] = out[i] ^ w;
            }
        }
    }

    /// XORs the input, shifted up by `shift_left` bits as this product does
    /// it, into `out`.
    fn apply_shift_left_xor(&self, out: &mut Vec<u64>, input: &[u64], shift_left: usize, m: usize)
        requires
            old(out)@.len() == output_words(m as int),
            left_shift_safe(input@.len() as int, shift_left as int, old(out)@.len() as int),
        ensures
            final(out)@.len() == old(out)@.len(),
            forall|i: int| 0 <= i < old(out)@.len() ==>
                #[trigger] final(out)@[i] == old(out)@[i] ^ left_shift_delta(input@, shift_left as int, m as int, old(out)@.len() as int, i),
    {
        let output_words = out.len();
        let input_words = input.len();
        let start_word = shift_left / 64;
        let bit_shift = (shift_left % 64) as u64;
        proof {
            lemma_chunk_count_zero(m as int, 64);
            assert forall|j: int| 0 <= j < output_words && j < start_word implies
                left_shift_delta(input@, shift_left as int, m as int, output_words as int, j) == 0 by {}
            assert forall|j: int| 0 <= j < output_words implies
                #[trigger] (old(out)@[j] ^ 0u64) == old(out)@[j] by {
                lemma_xor_zero(old(out)@[j]);
            }
        }
        if bit_shift == 0 {
            let mut i = start_word;
            while i < output_words
                invariant
                    out@.len() == output_words,
                    output_words == old(out)@.len(),
                    input_words == input@.len(),
                    start_word == shift_left / 64,
                    bit_shift == (shift_left % 64) as u64,
                    bit_shift == 0,
                    start_word <= i || output_words <= i,
                    forall|j: int| 0 <= j < output_words && (j < i || j < start_word) ==> #[trigger] out@[j] == old(out)@[j]
                        ^ left_shift_delta(input@, shift_left as int, m as int, output_words as int, j),
                    forall|j: int| i <= j < output_words && j >= start_word ==> #[trigger] out@[j] == old(out)@[j],
                decreases output_words - i,
            {
                let src = i - start_word;
                if src < input_words {
                    out[i] = out[i] ^ input[src];
                } else {
                    proof {
                        lemma_xor_zero(out@[i as int]);
                    }
                }
                i = i + 1;
            }
        } else {
            let inv_shift = 64 - bit_shift;
            if start_word < output_words {
                let mut w0 = input[0] >> bit_shift;
                let remaining = m - start_word * 64;
                proof {
                    lemma_word_below_output(m as int, start_word as int);
                }
                if remaining < 64 {
                    w0 = w0 & low_mask_exec(remaining as u64);
                }
                out[start_word] = out[start_word] ^ w0;
            }
            let mut i = start_word + 1;
            while i < output_words
                invariant
                    out@.len() == output_words,
                    output_words == old(out)@.len(),
                    output_words == ceil_div(m as int, 64),
                    input_words == input@.len(),
                    start_word == shift_left / 64,
                    bit_shift == (shift_left % 64) as u64,
                    bit_shift != 0,
                    inv_shift == 64 - bit_shift,
                    start_word + 1 <= i,
                    forall|j: int| 0 <= j < output_words && j < i ==> #[trigger] out@[j] == old(out)@[j]
                        ^ left_shift_delta(input@, shift_left as int, m as int, output_words as int, j),
                    forall|j: int| i <= j < output_words ==> #[trigger] out@[j] == old(out)@[j],
                decreases output_words - i,
            {
                proof {
                    lemma_word_below_output(m as int, i as int);
                }
                let src0 = i - start_word - 1;
                let mut w = 0u64;
                if src0 < input_words {
                    w = w | (input[src0] << inv_shift);
                }
                if src0 + 1 < input_words {
                    w = w | (input[src0 + 1] >> bit_shift);
                }
                let remaining = m - i * 64;
                if remaining < 64 {
                    w = w & low_mask_exec(remaining as u64);
                }
                out[i] = out[i] ^ w;
                i = i + 1;
            }
        }
    }
}

impl ToeplitzMatrix {
    /// Product of the diagonal words `start_dw..end_dw` with the input:
    /// the XOR of the contributions of their set bits.
    fn diagonal_chunk_product(&self, input: &[u64], start_dw: usize, end_dw: usize, n: usize, m: usize) -> (out: Vec<u64>)
        requires
            self.wf(),
            n as int == self.effective_input_bits(n as int),
            self.product_safe(input@, n as int),
            start_dw <= end_dw <= self.diagonal@.len(),
            m == self.m,
        ensures
            out@.len() == output_words(m as int),
            forall|i: int| 0 <= i < out@.len() ==> #[trigger] out@[i] == diagonal_sum(self.diagonal@, input@,
                n as int, self.n as int, m as int, start_dw * 64, end_dw * 64, i),
    {
        let output_words = chunk_count(m, 64);
        let diag_offset = self.n - 1;
        let mut out: Vec<u64> = vec![0u64; output_words];
        let ghost diag = self.diagonal@;
        let ghost lo = start_dw * 64;
        for dw in start_dw..end_dw
            invariant
                self.wf(),
                n as int == self.effective_input_bits(n as int),
                self.product_safe(input@, n as int),
                end_dw <= self.diagonal@.len(),
                diag == self.diagonal@,
                lo == start_dw * 64,
                m == self.m,
                diag_offset == self.n - 1,
                output_words == ceil_div(m as int, 64),
                out@.len() == output_words,
                forall|i: int| 0 <= i < output_words ==> #[trigger] out@[i] == diagonal_sum(diag, input@,
                    n as int, self.n as int, m as int, lo, dw * 64, i),
        {
            let dword = self.diagonal[dw];
            for b in 0..64u64
                invariant
                    self.wf(),
                    n as int == self.effective_input_bits(n as int),
                    self.product_safe(input@, n as int),
                    dw < self.diagonal@.len(),
                    start_dw <= dw,
                    diag == self.diagonal@,
                    dword == diag[dw as int],
                    lo == start_dw * 64,
                    m == self.m,
                    diag_offset == self.n - 1,
                    output_words == ceil_div(m as int, 64),
                    out@.len() == output_words,
                    forall|i: int| 0 <= i < output_words ==> #[trigger] out@[i] == diagonal_sum(diag, input@,
                        n as int, self.n as int, m as int, lo, dw * 64 + b, i),
            {
                let diag_idx = dw * 64 + b as usize;
                proof {
                    assert(diag_idx / 64 == dw as int && diag_idx % 64 == b as int) by (nonlinear_arith)
                        requires diag_idx == dw * 64 + b, 0 <= b < 64;
                    assert(lo <= diag_idx) by (nonlinear_arith)
                        requires lo == start_dw * 64, start_dw <= dw, diag_idx == dw * 64 + b, b >= 0;
                    assert(diag_idx < diag.len() * 64) by (nonlinear_arith)
                        requires dw < diag.len(), diag_idx == dw * 64 + b, b < 64;
                }
                let set = test_bit(dword, b);
                assert(set == packed_bit(diag, diag_idx as int));
                if set {
                    if diag_idx >= diag_offset {
                        let shift_right = diag_idx - diag_offset;
                        if shift_right < n {
                            self.apply_shift_right_xor(&mut out, input, shift_right, n, m);
                        } else {
                            proof {
                                assert forall|i: int| 0 <= i < output_words implies #[trigger] out@[i]
                                    == out@[i] ^ 0u64 by {
                                    lemma_xor_zero(out@[i]);
                                }
                            }
                        }
                    } else {
                        let shift_left = diag_offset - diag_idx;
                        if shift_left < m {
                            self.apply_shift_left_xor(&mut out, input, shift_left, m);
                        } else {
                            proof {
                                assert forall|i: int| 0 <= i < output_words implies #[trigger] out@[i]
                                    == out@[i] ^ 0u64 by {
                                    lemma_xor_zero(out@[i]);
                                }
                            }
                        }
                    }
                }
                assert forall|i: int| 0 <= i < output_words implies #[trigger] out@[i] == diagonal_sum(diag, input@,
                    n as int, self.n as int, m as int, lo, dw * 64 + b + 1, i) by {
                    assert(dw * 64 + b + 1 - 1 == diag_idx);
                }
            }
        }
        out
    }

    /// The word-shift product of this matrix with the first
    /// `min(n, input_len_bits)` bits of `input` (`shifted_diagonal_product`):
    /// output word `i` is the XOR, over the set diagonal bits, of the input
    /// shifted by that diagonal's distance from the main one. Diagonals below
    /// the main one at a distance that is not a multiple of 64 shift within
    /// words the other way (see `left_shift_delta`), so the result is then
    /// not the matrix-vector product.
    pub fn multiply_gf2(&self, input: &[u64], input_len_bits: usize) -> (r: Vec<u64>)
        requires
            self.wf(),
            self.product_safe(input@, input_len_bits as int),
        ensures
            r@.len() == output_words(self.m as int),
            forall|i: int| 0 <= i < r@.len() ==> #[trigger] r@[i] == self.product_word(input@, input_len_bits as int, i),
    {
        let m = self.m;
        let n = if self.n < input_len_bits { self.n } else { input_len_bits };
        let output_words = chunk_count(m, 64);
        let num_threads = worker_count();
        let diag_words = self.diagonal.len();
        let chunk_dw = chunk_size(diag_words, num_threads, 8);
        let num_chunks = chunk_count(diag_words, chunk_dw);
        let ghost diag = self.diagonal@;
        let ghost n_self = self.n as int;
        assert(self.effective_input_bits(n as int) == n as int);
        assert forall|d: int| 0 <= d < self.diagonal@.len() * 64 && #[trigger] packed_bit(self.diagonal@, d) implies
            diagonal_safe(input@.len() as int, self.effective_input_bits(n as int), self.n as int, self.m as int, d) by {
            assert(self.effective_input_bits(input_len_bits as int) == n as int);
        }

        let f = |c: usize| -> (out: Vec<u64>)
            requires
                c < num_chunks,
            ensures
                out@.len() == output_words,
                forall|i: int| 0 <= i < out@.len() ==> #[trigger] out@[i] == diagonal_sum(self.diagonal@, input@,
                    n as int, self.n as int, m as int, chunk_start(c as int, chunk_dw as int) * 64,
                    chunk_end(c as int, chunk_dw as int, diag_words as int) * 64, i),
        {
            let (start, end) = chunk_bounds(c, chunk_dw, diag_words);
            self.diagonal_chunk_product(input, start, end, n, m)
        };
        let outputs = par_map_range(num_chunks, f);
        assert forall|k: int| 0 <= k < num_chunks implies (#[trigger] outputs@[k])@.len() == output_words
            && forall|i: int| 0 <= i < output_words ==> #[trigger] outputs@[k]@[i] == diagonal_sum(diag, input@,
                n as int, n_self, m as int, chunk_start(k, chunk_dw as int) * 64,
                chunk_end(k, chunk_dw as int, diag_words as int) * 64, i) by {
            assert(call_ensures(f, (k as usize,), outputs@[k]));
        }

        let mut final_output: Vec<u64> = vec![0u64; output_words];
        proof {
            lemma_chunk_count_zero(diag_words as int, chunk_dw as int);
            assert(chunks_covered(0, chunk_dw as int, diag_words as int) == 0);
            assert forall|i: int| 0 <= i < output_words implies #[trigger] final_output@[i] == diagonal_sum(diag, input@,
                n as int, n_self, m as int, 0, 0, i) by {}
        }
        for c in 0..num_chunks
            invariant
                outputs@.len() == num_chunks,
                num_chunks == ceil_div(diag_words as int, chunk_dw as int),
                chunk_dw >= 1,
                diag_words == diag.len(),
                final_output@.len() == output_words,
                forall|k: int| 0 <= k < num_chunks ==> (#[trigger] outputs@[k])@.len() == output_words
                    && forall|i: int| 0 <= i < output_words ==> #[trigger] outputs@[k]@[i] == diagonal_sum(diag, input@,
                        n as int, n_self, m as int, chunk_start(k, chunk_dw as int) * 64,
                        chunk_end(k, chunk_dw as int, diag_words as int) * 64, i),
                forall|i: int| 0 <= i < output_words ==> #[trigger] final_output@[i] == diagonal_sum(diag, input@,
                    n as int, n_self, m as int, 0, chunks_covered(c as int, chunk_dw as int, diag_words as int) * 64, i),
        {
            proof {
                lemma_chunks_tile(c as int, chunk_dw as int, diag_words as int);
                lemma_chunk_start_in_range(c as int, chunk_dw as int, diag_words as int);
                assert(chunk_start(c as int, chunk_dw as int) <= chunk_end(c as int, chunk_dw as int, diag_words as int));
                assert(chunks_covered(c as int, chunk_dw as int, diag_words as int) == chunk_start(c as int, chunk_dw as int));
            }
            let ghost prev = final_output@;
            let chunk_out = &outputs[c];
            assert(chunk_out@.len() == output_words);
            for i in 0..output_words
                invariant
                    final_output@.len() == output_words,
                    chunk_out@.len() == output_words,
                    prev.len() == output_words,
                    forall|j: int| 0 <= j < i ==> #[trigger] final_output@[j] == prev[j] ^ chunk_out@[j],
                    forall|j: int| i <= j < output_words ==> #[trigger] final_output@[j] == prev[j],
            {
                final_output[i] = final_output[i] ^ chunk_out[i];
            }
            proof {
                let s64 = chunk_start(c as int, chunk_dw as int) * 64;
                let e64 = chunk_end(c as int, chunk_dw as int, diag_words as int) * 64;
                assert forall|i: int| 0 <= i < output_words implies #[trigger] final_output@[i] == diagonal_sum(diag, input@,
                    n as int, n_self, m as int, 0, e64, i) by {
                    assert(outputs@[c as int]@[i] == diagonal_sum(diag, input@, n as int, n_self, m as int, s64, e64, i));
                    lemma_diagonal_sum_split(diag, input@, n as int, n_self, m as int, 0, s64, e64, i);
                }
                assert(chunks_covered(c + 1, chunk_dw as int, diag_words as int) * 64 == e64);
            }
        }
        assert(chunks_covered(num_chunks as int, chunk_dw as int, diag_words as int) == diag_words);
        assert forall|i: int| 0 <= i < final_output@.len() implies #[trigger] final_output@[i] == self.product_word(input@, input_len_bits as int, i) by {
            assert(self.effective_input_bits(input_len_bits as int) == n as int);
        }
        final_output
    }
}

/// Splits a diagonal sum at `mid`.
pub proof fn lemma_diagonal_sum_split(diag: Seq<u64>, input: Seq<u64>, n_eff: int, n: int, m: int, lo: int, mid: int, hi: int, i: int)
    requires
        lo <= mid <= hi,
    ensures
        diagonal_sum(diag, input, n_eff, n, m, lo, hi, i)
            == diagonal_sum(diag, input, n_eff, n, m, lo, mid, i) ^ diagonal_sum(diag, input, n_eff, n, m, mid, hi, i),
    decreases hi - mid,
{
    if hi == mid {
        lemma_xor_zero(diagonal_sum(diag, input, n_eff, n, m, lo, mid, i));
    } else {
        lemma_diagonal_sum_split(diag, input, n_eff, n, m, lo, mid, hi - 1, i);
        if packed_bit(diag, hi - 1) {
            lemma_xor_assoc(diagonal_sum(diag, input, n_eff, n, m, lo, mid, i),
                diagonal_sum(diag, input, n_eff, n, m, mid, hi - 1, i),
                diagonal_delta(input, n_eff, n, m, hi - 1, i));
        }
    }
}

impl ToeplitzMatrix {
    /// Draws the `ceil((m + n - 1) / 64)` diagonal words of an `m` by `n`
    /// Toeplitz matrix: chunk `c` of words comes from a ChaCha8 generator
    /// seeded with `chunk_seed(seed, c)`. The words drawn are left unstated.
    pub fn generate(m: usize, n: usize, seed: u64) -> (r: ToeplitzMatrix)
        requires
            m + n >= 1,
            m + n + 62 <= usize::MAX,
        ensures
            r.m == m,
            r.n == n,
            r.diagonal_len == m + n - 1,
            r.diagonal@.len() == ceil_div(m + n - 1, 64),
            n >= 1 ==> r.wf(),
    {
        let diagonal_len = m + n - 1;
        let num_words = chunk_count(diagonal_len, 64);
        let num_threads = worker_count();
        let chunk_words = chunk_size(num_words, num_threads, 128);
        let num_chunks = chunk_count(num_words, chunk_words);

        let f = |c: usize| -> (chunk: Vec<u64>)
            requires
                c < num_chunks,
            ensures
                chunk@.len() == chunk_end(c as int, chunk_words as int, num_words as int)
                    - chunk_start(c as int, chunk_words as int),
        {
            let (start, end) = chunk_bounds(c, chunk_words, num_words);
            let mut rng = seeded_rng(chunk_seed(seed, c));
            let mut chunk: Vec<u64> = Vec::new();
            for _k in 0..end - start
                invariant
                    chunk@.len() == _k,
            {
                chunk.push(draw_u64(&mut rng));
            }
            chunk
        };
        let mut chunks = par_map_range(num_chunks, f);
        assert forall|k: int| 0 <= k < num_chunks implies (#[trigger] chunks@[k])@.len()
            == chunk_end(k, chunk_words as int, num_words as int) - chunk_start(k, chunk_words as int) by {
            assert(call_ensures(f, (k as usize,), chunks@[k]));
        }

        let mut all_diagonal: Vec<u64> = Vec::new();
        proof {
            lemma_chunk_count_zero(num_words as int, chunk_words as int);
        }
        let mut c: usize = 0;
        while c < num_chunks
            invariant
                0 <= c <= num_chunks,
                num_chunks == ceil_div(num_words as int, chunk_words as int),
                chunk_words >= 1,
                chunks@.len() == num_chunks - c,
                forall|k: int| 0 <= k < chunks@.len() ==> (#[trigger] chunks@[k])@.len()
                    == chunk_end(k + c, chunk_words as int, num_words as int) - chunk_start(k + c, chunk_words as int),
                all_diagonal@.len() == chunks_covered(c as int, chunk_words as int, num_words as int),
            decreases num_chunks - c,
        {
            proof {
                lemma_chunks_tile(c as int, chunk_words as int, num_words as int);
                lemma_chunk_start_in_range(c as int, chunk_words as int, num_words as int);
            }
            let ghost prev = chunks@;
            let mut chunk = chunks.remove(0);
            all_diagonal.append(&mut chunk);
            c = c + 1;
            proof {
                assert forall|k: int| 0 <= k < chunks@.len() implies (#[trigger] chunks@[k])@.len()
                    == chunk_end(k + c, chunk_words as int, num_words as int) - chunk_start(k + c, chunk_words as int) by {
                    assert(chunks@[k] == prev[k + 1]);
                }
            }
        }
        ToeplitzMatrix { m, n, diagonal: all_diagonal, diagonal_len }
    }
}

/// `words` holds `bits` packed little-endian, one bit per key bit
/// (`Bit::One` set), with every bit past the end clear.
pub open spec fn packs_bits(words: Seq<u64>, bits: Seq<Bit>) -> bool {
    &&& words.len() == ceil_div(bits.len() as int, 64)
    &&& forall|w: int, k: u64| 0 <= w < words.len() && k < 64 ==>
        (#[trigger] word_bit(words[w], k)) == (w * 64 + k < bits.len() && bits[w * 64 + k] == Bit::One)
}

/// The word `w` restricted to the key bits at positions `lo..hi`.
pub open spec fn partial_word_ok(word: u64, w: int, bits: Seq<Bit>, lo: int, hi: int) -> bool {
    forall|k: u64| k < 64 ==>
        (#[trigger] word_bit(word, k)) == (lo <= w * 64 + k < hi && bits[w * 64 + k] == Bit::One)
}

/// The updates that packing the key bits `start..end` yields: one partial
/// word for each word that the range touches, in order.
pub open spec fn chunk_updates_ok(updates: Seq<(usize, u64)>, bits: Seq<Bit>, start: int, end: int) -> bool {
    &&& updates.len() == (end - 1) / 64 - start / 64 + 1
    &&& forall|j: int| 0 <= j < updates.len() ==> (#[trigger] updates[j]).0 == start / 64 + j
        && partial_word_ok(updates[j].1, start / 64 + j, bits, start, end)
}

/// Packs the key bits `start..end` into partial words.
fn pack_chunk(bits: &[Bit], start: usize, end: usize) -> (updates: Vec<(usize, u64)>)
    requires
        start < end <= bits@.len(),
    ensures
        chunk_updates_ok(updates@, bits@, start as int, end as int),
{
    let mut updates: Vec<(usize, u64)> = Vec::new();
    let mut word: u64 = 0;
    let mut current_word_idx = usize::MAX;
    proof {
        assert forall|k: u64| k < 64 implies !#[trigger] word_bit(0u64, k) by {
            lemma_bit_zero(k);
        }
    }
    for i in start..end
        invariant
            start < end <= bits@.len(),
            i == start ==> current_word_idx == usize::MAX,
            i > start ==> current_word_idx == (i - 1) / 64,
            i > start ==> updates@.len() == (i - 1) / 64 - start / 64,
            i == start ==> updates@.len() == 0,
            forall|j: int| 0 <= j < updates@.len() ==> (#[trigger] updates@[j]).0 == start / 64 + j
                && partial_word_ok(updates@[j].1, start / 64 + j, bits@, start as int, end as int),
            i > start ==> partial_word_ok(word, current_word_idx as int, bits@, start as int, i as int),
    {
        let word_idx = i / 64;
        let bit_idx = (i % 64) as u64;
        if word_idx != current_word_idx {
            if current_word_idx != usize::MAX {
                proof {
                    assert(word_idx == current_word_idx + 1);
                    assert forall|k: u64| k < 64 implies (#[trigger] word_bit(word, k)) == (start <= current_word_idx * 64 + k < end
                        && bits@[current_word_idx * 64 + k] == Bit::One) by {
                        assert(current_word_idx * 64 + k < i);
                    }
                }
                updates.push((current_word_idx, word));
            }
            current_word_idx = word_idx;
            word = 0;
            proof {
                assert forall|k: u64| k < 64 implies (#[trigger] word_bit(word, k)) == (start <= current_word_idx * 64 + k < i
                    && bits@[current_word_idx * 64 + k] == Bit::One) by {
                    lemma_bit_zero(k);
                }
            }
        }
        let ghost before = word;
        match bits[i] {
            Bit::One => {
                word = word | (1u64 << bit_idx);
            },
            Bit::Zero => {},
        }
        proof {
            assert(i == word_idx * 64 + bit_idx);
            assert forall|k: u64| k < 64 implies (#[trigger] word_bit(word, k)) == (start <= current_word_idx * 64 + k < i + 1
                && bits@[current_word_idx * 64 + k] == Bit::One) by {
                if bits@[i as int] == Bit::One {
                    lemma_bit_set_one(before, bit_idx, k);
                }
            }
        }
    }
    proof {
        assert forall|k: u64| k < 64 implies (#[trigger] word_bit(word, k)) == (start <= current_word_idx * 64 + k < end
            && bits@[current_word_idx * 64 + k] == Bit::One) by {}
    }
    updates.push((current_word_idx, word));
    updates
}

/// Packs key bits little-endian into 64-bit words; returns the words and
/// the number of bits.
pub fn bits_to_packed_words(bits: &[Bit]) -> (r: (Vec<u64>, usize))
    ensures
        r.1 == bits@.len(),
        packs_bits(r.0@, bits@),
{
    let len = bits.len();
    let num_words = chunk_count(len, 64);
    let mut packed: Vec<u64> = vec![0u64; num_words];
    let num_threads = worker_count();
    let chunk_len = chunk_size(len, num_threads, 4096);
    let num_chunks = chunk_count(len, chunk_len);

    let f = |c: usize| -> (updates: Vec<(usize, u64)>)
        requires
            c < num_chunks,
        ensures
            chunk_updates_ok(updates@, bits@, chunk_start(c as int, chunk_len as int),
                chunk_end(c as int, chunk_len as int, len as int)),
    {
        let (start, end) = chunk_bounds(c, chunk_len, len);
        pack_chunk(bits, start, end)
    };
    let chunks = par_map_range(num_chunks, f);
    assert forall|c: int| 0 <= c < num_chunks implies chunk_updates_ok(#[trigger] chunks@[c]@, bits@,
        chunk_start(c, chunk_len as int), chunk_end(c, chunk_len as int, len as int)) by {
        assert(call_ensures(f, (c as usize,), chunks@[c]));
    }
    proof {
        lemma_chunk_count_zero(len as int, chunk_len as int);
        lemma_chunk_count_zero(len as int, 64);
        assert forall|w: int, k: u64| 0 <= w < num_words && k < 64 implies
            (#[trigger] word_bit(packed@[w], k)) == (w * 64 + k < 0 && bits@[w * 64 + k] == Bit::One) by {
            lemma_bit_zero(k);
        }
    }
    for c in 0..num_chunks
        invariant
            chunks@.len() == num_chunks,
            num_chunks == ceil_div(len as int, chunk_len as int),
            chunk_len >= 1,
            len == bits@.len(),
            num_words == ceil_div(len as int, 64),
            packed@.len() == num_words,
            forall|c: int| 0 <= c < num_chunks ==> chunk_updates_ok(#[trigger] chunks@[c]@, bits@,
                chunk_start(c, chunk_len as int), chunk_end(c, chunk_len as int, len as int)),
            forall|w: int, k: u64| 0 <= w < num_words && k < 64 ==>
                (#[trigger] word_bit(packed@[w], k)) == (w * 64 + k < chunks_covered(c as int, chunk_len as int, len as int)
                    && bits@[w * 64 + k] == Bit::One),
    {
        proof {
            lemma_chunks_tile(c as int, chunk_len as int, len as int);
            lemma_chunk_start_in_range(c as int, chunk_len as int, len as int);
        }
        let ghost start = chunk_start(c as int, chunk_len as int);
        let ghost end = chunk_end(c as int, chunk_len as int, len as int);
        let updates = &chunks[c];
        proof {
            lemma_chunk_start_in_range(start / 64, 64, len as int);
            assert((end - 1) / 64 < num_words) by {
                lemma_chunk_count_zero(len as int, 64);
                assert((end - 1) / 64 * 64 <= end - 1);
            }
        }
        for j in 0..updates.len()
            invariant
                start == chunk_start(c as int, chunk_len as int),
                end == chunk_end(c as int, chunk_len as int, len as int),
                0 <= start < end <= len,
                (end - 1) / 64 < num_words,
                len == bits@.len(),
                packed@.len() == num_words,
                chunk_updates_ok(updates@, bits@, start, end),
                forall|w: int, k: u64| 0 <= w < num_words && k < 64 ==>
                    (#[trigger] word_bit(packed@[w], k)) == ((w * 64 + k < start
                        || (start <= w * 64 + k < end && w < start / 64 + j)) && bits@[w * 64 + k] == Bit::One),
        {
            let (w, word) = updates[j];
            let ghost before = packed@;
            packed[w] = packed[w] | word;
            proof {
                assert forall|v: int, k: u64| 0 <= v < num_words && k < 64 implies
                    (#[trigger] word_bit(packed@[v], k)) == ((v * 64 + k < start
                        || (start <= v * 64 + k < end && v < start / 64 + j + 1)) && bits@[v * 64 + k] == Bit::One) by {
                    if v == w {
                        lemma_bit_or(before[v], word, k);
                    } else {
                        assert(packed@[v] == before[v]);
                    }
                }
            }
        }
        proof {
            assert forall|w: int, k: u64| 0 <= w < num_words && k < 64 implies
                (#[trigger] word_bit(packed@[w], k)) == (w * 64 + k < end && bits@[w * 64 + k] == Bit::One) by {
                if start <= w * 64 + k < end {
                    assert(w <= (end - 1) / 64) by (nonlinear_arith)
                        requires w * 64 + k < end, k >= 0, w >= 0;
                }
            }
        }
    }
    proof {
        if num_chunks > 0 {
            lemma_chunks_tile(num_chunks - 1, chunk_len as int, len as int);
        }
    }
    (packed, len)
}

/// Bit `j` of nibble `k` of the first `total_bits` packed bits, as 0 or 1.
pub open spec fn nibble_bit(words: Seq<u64>, total_bits: int, k: int, j: int) -> u8 {
    if 4 * k + j < total_bits && packed_bit(words, 4 * k + j) { 1 } else { 0 }
}

/// Nibble `k` of the first `total_bits` packed bits: bits `4k..4k+4`,
/// least significant first, those at or past `total_bits` counting as zero.
pub open spec fn nibble_value(words: Seq<u64>, total_bits: int, k: int) -> u8 {
    (nibble_bit(words, total_bits, k, 0) + 2 * nibble_bit(words, total_bits, k, 1)
        + 4 * nibble_bit(words, total_bits, k, 2) + 8 * nibble_bit(words, total_bits, k, 3)) as u8
}

/// Number of bits that `packed_words_to_hex` renders.
pub open spec fn hex_total_bits(words: Seq<u64>, output_bits: int) -> int {
    if output_bits < words.len() * 64 { output_bits } else { (words.len() * 64) as int }
}

/// The hexadecimal rendering of the first `total_bits` packed bits, one
/// lower-case digit per nibble.
pub open spec fn hex_of_packed(words: Seq<u64>, total_bits: int) -> Seq<char> {
    Seq::new(ceil_div(total_bits, 4) as nat, |k: int| hex_digit(nibble_value(words, total_bits, k)))
}

/// Renders the first `min(output_bits, 64 * words.len())` bits of `words`
/// as lower-case hexadecimal, one digit per four bits, least significant
/// bit of each nibble first in the key.
pub fn packed_words_to_hex(words: &[u64], output_bits: usize) -> (hex: String)
    requires
        output_bits + 3 <= usize::MAX,
        words@.len() * 64 <= usize::MAX,
    ensures
        hex@ == hex_of_packed(words@, hex_total_bits(words@, output_bits as int)),
{
    let mut hex = String::new();
    let all_bits = words.len() * 64;
    let total_bits = if output_bits < all_bits { output_bits } else { all_bits };
    let num_nibbles = chunk_count(total_bits, 4);
    let ghost target = hex_of_packed(words@, total_bits as int);
    for k in 0..num_nibbles
        invariant
            total_bits == hex_total_bits(words@, output_bits as int),
            total_bits <= words@.len() * 64,
            num_nibbles == ceil_div(total_bits as int, 4),
            target == hex_of_packed(words@, total_bits as int),
            hex@ == target.subrange(0, k as int),
    {
        proof {
            lemma_chunk_start_in_range(k as int, 4, total_bits as int);
        }
        let bit_idx = k * 4;
        let word_idx = bit_idx / 64;
        let local_bit = bit_idx % 64;
        let bits_left = total_bits - bit_idx;
        let bits_to_take = if bits_left < 4 { bits_left } else { 4 };
        let mut nibble: u8 = 0;
        for b in 0..bits_to_take
            invariant
                bit_idx == k * 4,
                bit_idx < total_bits,
                total_bits <= words@.len() * 64,
                word_idx == bit_idx / 64,
                local_bit == bit_idx % 64,
                bits_to_take <= 4,
                bits_to_take == total_bits - bit_idx || bits_to_take == 4,
                bits_to_take <= total_bits - bit_idx,
                nibble as int == (if b > 0 { nibble_bit(words@, total_bits as int, k as int, 0) } else { 0 })
                    + (if b > 1 { 2 * nibble_bit(words@, total_bits as int, k as int, 1) } else { 0 })
                    + (if b > 2 { 4 * nibble_bit(words@, total_bits as int, k as int, 2) } else { 0 })
                    + (if b > 3 { 8 * nibble_bit(words@, total_bits as int, k as int, 3) } else { 0 }),
        {
            proof {
                assert(local_bit + b < 64) by (nonlinear_arith)
                    requires local_bit == bit_idx % 64, bit_idx == k * 4, b < 4;
                assert(word_idx < words@.len()) by (nonlinear_arith)
                    requires word_idx == bit_idx / 64, bit_idx < total_bits, total_bits <= words@.len() * 64;
                assert((bit_idx + b) / 64 == word_idx && (bit_idx + b) % 64 == local_bit + b) by (nonlinear_arith)
                    requires word_idx == bit_idx / 64, local_bit == bit_idx % 64, local_bit + b < 64, b >= 0;
            }
            assert(bit_idx + b < total_bits);
            assert(packed_bit(words@, bit_idx + b) == word_bit(words@[word_idx as int], (local_bit + b) as u64));
            if local_bit + b < 64 && word_idx < words.len() {
                if test_bit(words[word_idx], (local_bit + b) as u64) {
                    let ghost before = nibble;
                    assert(before < (1u8 << (b as u8))) by {
                        assert(b == 0 ==> 1u8 << 0u8 == 1) by (bit_vector);
                        assert(b == 1 ==> 1u8 << 1u8 == 2) by (bit_vector);
                        assert(b == 2 ==> 1u8 << 2u8 == 4) by (bit_vector);
                        assert(b == 3 ==> 1u8 << 3u8 == 8) by (bit_vector);
                    }
                    nibble = nibble | (1u8 << (b as u8));
                    proof {
                        let bb = b as u8;
                        assert(before < (1u8 << bb) && bb < 4 ==> (before | (1u8 << bb)) == before + (1u8 << bb)) by (bit_vector);
                        assert(b == 0 ==> 1u8 << 0u8 == 1) by (bit_vector);
                        assert(b == 1 ==> 1u8 << 1u8 == 2) by (bit_vector);
                        assert(b == 2 ==> 1u8 << 2u8 == 4) by (bit_vector);
                        assert(b == 3 ==> 1u8 << 3u8 == 8) by (bit_vector);
                    }
                }
            }
        }
        assert(bits_to_take < 4 ==> 4 * k + 3 >= total_bits);
        assert(bits_to_take < 3 ==> 4 * k + 2 >= total_bits);
        assert(bits_to_take < 2 ==> 4 * k + 1 >= total_bits);
        assert(nibble == nibble_value(words@, total_bits as int, k as int));
        let c = hex_digit_exec(nibble);
        push_char(&mut hex, c);
        assert(hex@ == target.subrange(0, k + 1));
    }
    hex
}

/// Error-correction settings. The correction is simulated: a mismatched
/// bit is repaired when its syndrome bit is set or, failing that, with
/// probability 0.85. `max_iterations` is carried but not used.
#[derive(Debug, Clone, Copy)]
pub struct LdpcConfig {
    pub enabled: bool,
    pub max_iterations: usize,
    pub seed: u64,
}

impl Default for LdpcConfig {
    fn default() -> (r: LdpcConfig)
        ensures
            r.enabled,
            r.max_iterations == 10,
            r.seed == 99999,
    {
        LdpcConfig { enabled: true, max_iterations: 10, seed: 99999 }
    }
}

/// The probability 0.85 in units of `2^-53` (it is `7656119366529843 / 2^53`
/// exactly as an `f64`).
pub const LDPC_ACCEPT_THRESHOLD: u64 = 7_656_119_366_529_843;

/// The simulated decoder repairs a mismatched bit when its syndrome bit is
/// set or the confidence word falls below 0.85.
pub open spec fn ldpc_accepts(syndrome_bit: bool, confidence_word: u64) -> bool {
    syndrome_bit || unit_below(confidence_word, LDPC_ACCEPT_THRESHOLD)
}

/// Decides `ldpc_accepts`.
pub fn ldpc_accept(syndrome_bit: bool, confidence_word: u64) -> (r: bool)
    ensures
        r == ldpc_accepts(syndrome_bit, confidence_word),
{
    syndrome_bit || draw_below(confidence_word, LDPC_ACCEPT_THRESHOLD)
}

/// Corrections proposed for the positions `start..end`: strictly increasing
/// positions where Bob's bit differs from Alice's, each with Alice's bit.
pub open spec fn corrections_ok(corr: Seq<(usize, Bit)>, alice: Seq<Bit>, bob: Seq<Bit>, start: int, end: int) -> bool {
    &&& forall|j: int| 0 <= j < corr.len() ==> start <= (#[trigger] corr[j]).0 < end
        && alice[corr[j].0 as int] != bob[corr[j].0 as int] && corr[j].1 == alice[corr[j].0 as int]
    &&& forall|j1: int, j2: int| 0 <= j1 < j2 < corr.len() ==> corr[j1].0 < corr[j2].0
}

/// Positions whose bits differ and whose syndrome bit (the one at
/// `i - start`) is clear: those that consume a confidence word, in order.
pub open spec fn needs_confidence(alice: Seq<Bit>, bob: Seq<Bit>, syndrome: Seq<bool>, start: int) -> spec_fn(int) -> bool {
    |i: int| alice[i] != bob[i] && !syndrome[i - start]
}

/// The decoder corrects position `i`: the bits differ and it accepts them
/// with the position's syndrome bit and, where that is clear, the
/// confidence word that the position consumes.
pub open spec fn ldpc_corrects(alice: Seq<Bit>, bob: Seq<Bit>, syndrome: Seq<bool>, confidence: Seq<u64>, start: int)
    -> spec_fn(int) -> bool {
    |i: int| alice[i] != bob[i] && ldpc_accepts(syndrome[i - start],
        confidence[count_range(needs_confidence(alice, bob, syndrome, start), start, i) as int])
}

/// The corrections for the positions `start..end`: each corrected position,
/// in increasing order, with Alice's bit.
pub open spec fn ldpc_corrections(alice: Seq<Bit>, bob: Seq<Bit>, syndrome: Seq<bool>, confidence: Seq<u64>,
    start: int, end: int) -> Seq<(usize, Bit)> {
    let pos = positions(ldpc_corrects(alice, bob, syndrome, confidence, start), start, end);
    Seq::new(pos.len(), |j: int| (pos[j], alice[pos[j] as int]))
}

/// The simulated decoder on the positions `start..end`, given one syndrome
/// bit per position and the confidence words in the order they are
/// consumed: corrects each mismatch whose syndrome bit is set or whose
/// confidence word falls below 0.85.
pub fn select_ldpc_corrections(alice_bits: &[Bit], bob_bits: &[Bit], syndrome_bits: &[bool], confidence_words: &[u64],
    start: usize, end: usize) -> (corr: Vec<(usize, Bit)>)
    requires
        start <= end <= alice_bits@.len(),
        end <= bob_bits@.len(),
        syndrome_bits@.len() == end - start,
        confidence_words@.len() >= count_range(needs_confidence(alice_bits@, bob_bits@, syndrome_bits@, start as int),
            start as int, end as int),
    ensures
        corr@ == ldpc_corrections(alice_bits@, bob_bits@, syndrome_bits@, confidence_words@, start as int, end as int),
{
    let ghost needs = needs_confidence(alice_bits@, bob_bits@, syndrome_bits@, start as int);
    let ghost p = ldpc_corrects(alice_bits@, bob_bits@, syndrome_bits@, confidence_words@, start as int);
    let mut corrections: Vec<(usize, Bit)> = Vec::new();
    let mut next: usize = 0;
    assert(corrections@ =~= ldpc_corrections(alice_bits@, bob_bits@, syndrome_bits@, confidence_words@, start as int,
        start as int));
    for i in start..end
        invariant
            end <= alice_bits@.len(),
            end <= bob_bits@.len(),
            syndrome_bits@.len() == end - start,
            needs == needs_confidence(alice_bits@, bob_bits@, syndrome_bits@, start as int),
            p == ldpc_corrects(alice_bits@, bob_bits@, syndrome_bits@, confidence_words@, start as int),
            confidence_words@.len() >= count_range(needs, start as int, end as int),
            next == count_range(needs, start as int, i as int),
            corrections@ == ldpc_corrections(alice_bits@, bob_bits@, syndrome_bits@, confidence_words@, start as int,
                i as int),
    {
        proof {
            lemma_count_split(needs, start as int, i + 1, end as int);
        }
        let ghost before = corrections@;
        if alice_bits[i] != bob_bits[i] {
            let accept = if syndrome_bits[i - start] {
                true
            } else {
                let w = confidence_words[next];
                next = next + 1;
                ldpc_accept(false, w)
            };
            if accept {
                corrections.push((i, alice_bits[i]));
            }
        }
        proof {
            assert(next == count_range(needs, start as int, i + 1));
            assert(corrections@ =~= ldpc_corrections(alice_bits@, bob_bits@, syndrome_bits@, confidence_words@,
                start as int, i + 1));
        }
    }
    corrections
}

/// The decoder's corrections are corrections of mismatches toward Alice, in
/// increasing order of position.
proof fn lemma_ldpc_corrections_ok(alice: Seq<Bit>, bob: Seq<Bit>, syndrome: Seq<bool>, confidence: Seq<u64>,
    start: int, end: int)
    requires
        0 <= start <= end <= usize::MAX,
    ensures
        corrections_ok(ldpc_corrections(alice, bob, syndrome, confidence, start, end), alice, bob, start, end),
{
    lemma_positions_facts(ldpc_corrects(alice, bob, syndrome, confidence, start), start, end);
}

/// Proposes corrections for the positions `start..end` with the generator
/// of chunk `chunk_idx`: first one syndrome bit per position, then one
/// confidence word for each mismatch whose syndrome bit is clear, in order.
fn ldpc_chunk(alice_bits: &[Bit], bob_bits: &[Bit], seed: u64, chunk_idx: usize, start: usize, end: usize)
    -> (corr: Vec<(usize, Bit)>)
    requires
        start <= end <= alice_bits@.len(),
        end <= bob_bits@.len(),
    ensures
        corrections_ok(corr@, alice_bits@, bob_bits@, start as int, end as int),
        exists|syndrome: Seq<bool>, confidence: Seq<u64>| syndrome.len() == end - start
            && #[trigger] ldpc_corrections(alice_bits@, bob_bits@, syndrome, confidence, start as int, end as int) == corr@,
{
    let mut rng = seeded_rng(chunk_seed(seed, chunk_idx));
    let mut syndrome_bits: Vec<bool> = Vec::new();
    for _k in 0..end - start
        invariant
            syndrome_bits@.len() == _k,
    {
        syndrome_bits.push(draw_bool(&mut rng));
    }
    let ghost needs = needs_confidence(alice_bits@, bob_bits@, syndrome_bits@, start as int);
    let mut needed: usize = 0;
    for i in start..end
        invariant
            end <= alice_bits@.len(),
            end <= bob_bits@.len(),
            syndrome_bits@.len() == end - start,
            needs == needs_confidence(alice_bits@, bob_bits@, syndrome_bits@, start as int),
            needed == count_range(needs, start as int, i as int),
    {
        proof {
            lemma_count_bound(needs, start as int, i as int);
        }
        if alice_bits[i] != bob_bits[i] && !syndrome_bits[i - start] {
            needed = needed + 1;
        }
    }
    let mut confidence_words: Vec<u64> = Vec::new();
    for _k in 0..needed
        invariant
            confidence_words@.len() == _k,
    {
        confidence_words.push(draw_u64(&mut rng));
    }
    let corrections = select_ldpc_corrections(alice_bits, bob_bits, syndrome_bits.as_slice(),
        confidence_words.as_slice(), start, end);
    proof {
        lemma_ldpc_corrections_ok(alice_bits@, bob_bits@, syndrome_bits@, confidence_words@, start as int, end as int);
    }
    corrections
}

/// Simulated LDPC error correction of Bob's bits against Alice's over the
/// first `min(alice_bits.len(), bob_bits.len())` positions. Disabled, it
/// changes nothing and returns the number of mismatches. Enabled, it sets
/// some mismatched bits of Bob to Alice's value and returns how many bits
/// it changed.
pub fn simulate_ldpc_correction(alice_bits: &[Bit], bob_bits: &mut [Bit], config: &LdpcConfig) -> (r: usize)
    ensures
        final(bob_bits)@.len() == old(bob_bits)@.len(),
        !config.enabled ==> final(bob_bits)@ == old(bob_bits)@,
        !config.enabled ==> r == mismatches(alice_bits@, old(bob_bits)@, 0, min_len(alice_bits@.len(), old(bob_bits)@.len())),
        config.enabled ==> corrected_toward(alice_bits@, old(bob_bits)@, final(bob_bits)@,
            min_len(alice_bits@.len(), old(bob_bits)@.len())),
        config.enabled ==> r == mismatches(final(bob_bits)@, old(bob_bits)@, 0,
            min_len(alice_bits@.len(), old(bob_bits)@.len())),
{
    let len = if alice_bits.len() < bob_bits.len() { alice_bits.len() } else { bob_bits.len() };
    if !config.enabled {
        let mut errors: usize = 0;
        for i in 0..len
            invariant
                len <= alice_bits@.len(),
                len <= bob_bits@.len(),
                bob_bits@ == old(bob_bits)@,
                errors == mismatches(alice_bits@, bob_bits@, 0, i as int),
        {
            proof {
                lemma_count_bound(differs(alice_bits@, bob_bits@), 0, i as int);
            }
            if alice_bits[i] != bob_bits[i] {
                errors = errors + 1;
            }
        }
        return errors;
    }
    let ghost old_bob = bob_bits@;
    let mut total_corrected: usize = 0;
    let num_threads = worker_count();
    let chunk_len = chunk_size(len, num_threads, 4096);
    let num_chunks = chunk_count(len, chunk_len);
    let seed = config.seed;
    let corrections = {
        let bob_view: &[Bit] = &*bob_bits;
        let f = |c: usize| -> (corr: Vec<(usize, Bit)>)
            requires
                c < num_chunks,
            ensures
                corrections_ok(corr@, alice_bits@, bob_view@, chunk_start(c as int, chunk_len as int),
                    chunk_end(c as int, chunk_len as int, len as int)),
        {
            let (start, end) = chunk_bounds(c, chunk_len, len);
            ldpc_chunk(alice_bits, bob_view, seed, c, start, end)
        };
        let corrections = par_map_range(num_chunks, f);
        assert forall|k: int| 0 <= k < num_chunks implies corrections_ok(#[trigger] corrections@[k]@, alice_bits@, old_bob,
            chunk_start(k, chunk_len as int), chunk_end(k, chunk_len as int, len as int)) by {
            assert(call_ensures(f, (k as usize,), corrections@[k]));
        }
        corrections
    };
    proof {
        lemma_chunk_count_zero(len as int, chunk_len as int);
        crate::ranges::lemma_count_none_all(differs(bob_bits@, old_bob), 0, len as int);
    }
    let mut frontier: usize = 0;
    for c in 0..num_chunks
        invariant
            corrections@.len() == num_chunks,
            num_chunks == ceil_div(len as int, chunk_len as int),
            chunk_len >= 1,
            len <= alice_bits@.len(),
            len <= old_bob.len(),
            bob_bits@.len() == old_bob.len(),
            forall|k: int| 0 <= k < num_chunks ==> corrections_ok(#[trigger] corrections@[k]@, alice_bits@, old_bob,
                chunk_start(k, chunk_len as int), chunk_end(k, chunk_len as int, len as int)),
            frontier <= chunks_covered(c as int, chunk_len as int, len as int),
            corrected_toward(alice_bits@, old_bob, bob_bits@, len as int),
            forall|i: int| frontier <= i < bob_bits@.len() ==> #[trigger] bob_bits@[i] == old_bob[i],
            total_corrected == mismatches(bob_bits@, old_bob, 0, len as int),
    {
        proof {
            lemma_chunks_tile(c as int, chunk_len as int, len as int);
            lemma_chunk_start_in_range(c as int, chunk_len as int, len as int);
        }
        let chunk_corrections = &corrections[c];
        let ghost start = chunk_start(c as int, chunk_len as int);
        let ghost end = chunk_end(c as int, chunk_len as int, len as int);
        for j in 0..chunk_corrections.len()
            invariant
                len <= alice_bits@.len(),
                len <= old_bob.len(),
                bob_bits@.len() == old_bob.len(),
                0 <= start < end <= len,
                corrections_ok(chunk_corrections@, alice_bits@, old_bob, start, end),
                frontier <= end,
                j > 0 ==> frontier == chunk_corrections@[j - 1].0 + 1,
                j == 0 ==> frontier <= start,
                corrected_toward(alice_bits@, old_bob, bob_bits@, len as int),
                forall|i: int| frontier <= i < bob_bits@.len() ==> #[trigger] bob_bits@[i] == old_bob[i],
                total_corrected == mismatches(bob_bits@, old_bob, 0, len as int),
        {
            let (idx, correct_bit) = chunk_corrections[j];
            proof {
                if j > 0 {
                    assert(chunk_corrections@[j - 1].0 < chunk_corrections@[j as int].0);
                }
                crate::ranges::lemma_count_bound(differs(bob_bits@, old_bob), 0, len as int);
            }
            if bob_bits[idx] != correct_bit {
                let ghost before = bob_bits@;
                bob_bits[idx] = correct_bit;
                proof {
                    crate::privacy_amplification::lemma_count_one_more(before, bob_bits@, old_bob, idx as int, len as int);
                    crate::ranges::lemma_count_bound(differs(bob_bits@, old_bob), 0, len as int);
                }
                total_corrected = total_corrected + 1;
            }
            frontier = idx + 1;
        }
    }
    total_corrected
}

/// The shorter of two lengths.
pub open spec fn min_len(a: nat, b: nat) -> int {
    if a < b { a as int } else { b as int }
}

/// Bob's bits after correction: the same length, unchanged past `len`, and
/// below `len` each either unchanged or set to Alice's differing bit.
pub open spec fn corrected_toward(alice: Seq<Bit>, before: Seq<Bit>, after: Seq<Bit>, len: int) -> bool {
    &&& after.len() == before.len()
    &&& forall|i: int| len <= i < after.len() ==> #[trigger] after[i] == before[i]
    &&& forall|i: int| 0 <= i < len ==> #[trigger] after[i] == before[i]
        || (after[i] == alice[i] && alice[i] != before[i])
}

/// Changing one more position adds one to the count of changed positions.
proof fn lemma_count_one_more(before: Seq<Bit>, after: Seq<Bit>, orig: Seq<Bit>, idx: int, len: int)
    requires
        0 <= idx < len,
        before.len() == after.len(),
        len <= orig.len() <= before.len(),
        after == before.update(idx, after[idx]),
        before[idx] == orig[idx],
        after[idx] != orig[idx],
    ensures
        mismatches(after, orig, 0, len) == mismatches(before, orig, 0, len) + 1,
{
    let p = differs(before, orig);
    let q = differs(after, orig);
    lemma_count_split(p, 0, idx, len);
    lemma_count_split(q, 0, idx, len);
    lemma_count_split(p, idx, idx + 1, len);
    lemma_count_split(q, idx, idx + 1, len);
    crate::ranges::lemma_count_ext(p, q, 0, idx);
    crate::ranges::lemma_count_ext(p, q, idx + 1, len);
    assert(count_range(p, idx, idx) == 0);
    assert(count_range(q, idx, idx) == 0);
    assert(count_range(p, idx, idx + 1) == 0);
    assert(count_range(q, idx, idx + 1) == 1);
}

/// Privacy-amplification settings: the seed of the Toeplitz matrix. The
/// compression ratio is a fraction that the caller applies to the sifted
/// length (see `run_privacy_amplification_pipeline`).
#[derive(Debug, Clone, Copy)]
pub struct AmplificationConfig {
    pub seed: u64,
}

impl Default for AmplificationConfig {
    fn default() -> (r: AmplificationConfig)
        ensures
            r.seed == 77777,
    {
        AmplificationConfig { seed: 77777 }
    }
}

/// Sizes recorded by the privacy-amplification stage.
#[derive(Debug, Clone, Copy)]
pub struct PrivacyAmplificationStats {
    pub sifted_key_length: usize,
    pub corrected_key_length: usize,
    pub corrected_errors: usize,
    pub toeplitz_input_bits: usize,
    pub toeplitz_output_bits: usize,
    pub toeplitz_diagonal_bits: usize,
    pub final_key_bytes: usize,
}

/// Length of the final key: the compressed length, at least 256 bits, at
/// most the input length.
pub open spec fn amplified_output_bits(scaled_output_bits: int, input_bits: int) -> int {
    let o = if scaled_output_bits > 256 { scaled_output_bits } else { 256 };
    if o < input_bits { o } else { input_bits }
}

/// The outcome of privacy amplification on Alice's and Bob's sifted keys:
/// Bob's key after error correction (`corrected`), both keys packed
/// (`alice_words`, `bob_words`), the matrix diagonals drawn (`diag`), the
/// two final keys in hexadecimal, the statistics, and the errors left.
pub open spec fn amplification_ok(alice: Seq<Bit>, bob: Seq<Bit>, ldpc_enabled: bool, scaled_output_bits: int,
    diag: Seq<u64>, corrected: Seq<Bit>, alice_words: Seq<u64>, bob_words: Seq<u64>,
    alice_hex: Seq<char>, bob_hex: Seq<char>, stats: PrivacyAmplificationStats, remaining: int) -> bool {
    let len = min_len(alice.len(), bob.len());
    let out = amplified_output_bits(scaled_output_bits, len);
    &&& !ldpc_enabled ==> corrected == bob.subrange(0, len)
        && stats.corrected_errors == mismatches(alice, bob, 0, len)
    &&& ldpc_enabled ==> corrected_toward(alice, bob.subrange(0, len), corrected, len)
        && stats.corrected_errors == mismatches(corrected, bob, 0, len)
    &&& remaining == mismatches(alice, corrected, 0, len)
    &&& diag.len() == ceil_div(out + len - 1, 64)
    &&& packs_bits(alice_words, alice.subrange(0, len))
    &&& packs_bits(bob_words, corrected)
    &&& alice_hex == hex_of_packed(shifted_diagonal_product(diag, out, len, alice_words, len), out)
    &&& bob_hex == hex_of_packed(shifted_diagonal_product(diag, out, len, bob_words, len), out)
    &&& stats.sifted_key_length == len
    &&& stats.corrected_key_length == len
    &&& stats.toeplitz_input_bits == len
    &&& stats.toeplitz_output_bits == out
    &&& stats.toeplitz_diagonal_bits == out + len - 1
    &&& stats.final_key_bytes == ceil_div(out, 8)
}

/// A packed key of `n` bits is a safe input for a product with `n` columns.
proof fn lemma_packed_input_safe(t: &ToeplitzMatrix, words: Seq<u64>, n: int)
    requires
        t.wf(),
        t.n == n,
        n >= 1,
        words.len() == ceil_div(n, 64),
    ensures
        t.product_safe(words, n),
{
    lemma_chunk_count_zero(n, 64);
    assert((words.len() - 1) * 64 < n) by {
        lemma_chunk_start_in_range(words.len() - 1, 64, n);
    }
}

/// Error correction then privacy amplification of the sifted keys, over
/// the first `min(alice_sifted.len(), bob_sifted.len())` bits.
/// `scaled_output_bits` is that length times the compression ratio,
/// truncated; the final key has `min(max(scaled_output_bits, 256), length)`
/// bits. Returns Alice's and Bob's final keys in hexadecimal, the
/// statistics, and the number of errors error correction left.
pub fn run_privacy_amplification_pipeline(alice_sifted: &[Bit], bob_sifted: &[Bit], ldpc_config: &LdpcConfig,
    amp_config: &AmplificationConfig, scaled_output_bits: usize) -> (r: (String, String, PrivacyAmplificationStats, usize))
    requires
        min_len(alice_sifted@.len(), bob_sifted@.len()) >= 1,
        2 * min_len(alice_sifted@.len(), bob_sifted@.len()) + 62 <= usize::MAX,
    ensures
        exists|diag: Seq<u64>, corrected: Seq<Bit>, alice_words: Seq<u64>, bob_words: Seq<u64>|
            #[trigger] amplification_ok(alice_sifted@, bob_sifted@, ldpc_config.enabled, scaled_output_bits as int,
                diag, corrected, alice_words, bob_words, r.0@, r.1@, r.2, r.3 as int),
{
    let sifted_len = if alice_sifted.len() < bob_sifted.len() { alice_sifted.len() } else { bob_sifted.len() };
    let alice_key = &alice_sifted[0..sifted_len];
    let mut bob_corrected: Vec<Bit> = Vec::new();
    for i in 0..sifted_len
        invariant
            sifted_len <= bob_sifted@.len(),
            bob_corrected@ == bob_sifted@.subrange(0, i as int),
    {
        bob_corrected.push(bob_sifted[i]);
    }
    let corrected = simulate_ldpc_correction(alice_key, bob_corrected.as_mut_slice(), ldpc_config);
    let mut remaining_errors: usize = 0;
    for i in 0..sifted_len
        invariant
            sifted_len <= alice_sifted@.len(),
            bob_corrected@.len() == sifted_len,
            remaining_errors == mismatches(alice_sifted@, bob_corrected@, 0, i as int),
    {
        proof {
            lemma_count_bound(differs(alice_sifted@, bob_corrected@), 0, i as int);
        }
        if alice_sifted[i] != bob_corrected[i] {
            remaining_errors = remaining_errors + 1;
        }
    }

    let input_bits = sifted_len;
    let output_bits = if scaled_output_bits > 256 { scaled_output_bits } else { 256 };
    let output_bits = if output_bits < input_bits { output_bits } else { input_bits };
    let toeplitz = ToeplitzMatrix::generate(output_bits, input_bits, amp_config.seed);
    let (alice_packed, _) = bits_to_packed_words(alice_key);
    let (bob_packed, _) = bits_to_packed_words(bob_corrected.as_slice());
    proof {
        lemma_packed_input_safe(&toeplitz, alice_packed@, sifted_len as int);
        lemma_packed_input_safe(&toeplitz, bob_packed@, sifted_len as int);
    }
    let alice_final_packed = toeplitz.multiply_gf2(alice_packed.as_slice(), sifted_len);
    proof {
        lemma_chunk_count_zero(output_bits as int, 64);
        assert(alice_final_packed@.len() * 64 <= output_bits + 63) by (nonlinear_arith)
            requires alice_final_packed@.len() == (output_bits + 63) / 64;
    }
    let alice_final_hex = packed_words_to_hex(alice_final_packed.as_slice(), output_bits);
    let bob_final_packed = toeplitz.multiply_gf2(bob_packed.as_slice(), sifted_len);
    let bob_final_hex = packed_words_to_hex(bob_final_packed.as_slice(), output_bits);

    let stats = PrivacyAmplificationStats {
        sifted_key_length: sifted_len,
        corrected_key_length: sifted_len,
        corrected_errors: corrected,
        toeplitz_input_bits: input_bits,
        toeplitz_output_bits: output_bits,
        toeplitz_diagonal_bits: toeplitz.diagonal_len,
        final_key_bytes: chunk_count(output_bits, 8),
    };
    proof {
        let diag = toeplitz.diagonal@;
        let out = output_bits as int;
        let len = sifted_len as int;
        assert(alice_final_packed@ =~= shifted_diagonal_product(diag, out, len, alice_packed@, len));
        assert(bob_final_packed@ =~= shifted_diagonal_product(diag, out, len, bob_packed@, len));
        assert(hex_total_bits(alice_final_packed@, out) == out) by (nonlinear_arith)
            requires alice_final_packed@.len() == (out + 63) / 64, out >= 0;
        assert(hex_total_bits(bob_final_packed@, out) == out) by (nonlinear_arith)
            requires bob_final_packed@.len() == (out + 63) / 64, out >= 0;
        if !ldpc_config.enabled {
            crate::ranges::lemma_count_ext(differs(alice_sifted@.subrange(0, len), bob_sifted@.subrange(0, len)),
                differs(alice_sifted@, bob_sifted@), 0, len);
        } else {
            crate::ranges::lemma_count_ext(differs(bob_corrected@, bob_sifted@.subrange(0, len)),
                differs(bob_corrected@, bob_sifted@), 0, len);
        }
    }
    let ghost (bc, aw, bw) = (bob_corrected@, alice_packed@, bob_packed@);
    let r = (alice_final_hex, bob_final_hex, stats, remaining_errors);
    assert(amplification_ok(alice_sifted@, bob_sifted@, ldpc_config.enabled, scaled_output_bits as int,
        toeplitz.diagonal@, bc, aw, bw, r.0@, r.1@, r.2, r.3 as int));
    r
}

/// Packing determines the words: two packings of the same bits are equal.
pub proof fn lemma_packing_unique(a: Seq<u64>, b: Seq<u64>, bits: Seq<Bit>)
    requires
        packs_bits(a, bits),
        packs_bits(b, bits),
    ensures
        a == b,
{
    assert forall|w: int| 0 <= w < a.len() implies a[w] == b[w] by {
        assert forall|k: u64| k < 64 implies #[trigger] word_bit(a[w], k) == word_bit(b[w], k) by {
            assert(word_bit(a[w], k) == (w * 64 + k < bits.len() && bits[w * 64 + k] == Bit::One));
            assert(word_bit(b[w], k) == (w * 64 + k < bits.len() && bits[w * 64 + k] == Bit::One));
        }
        crate::bits::lemma_bits_determine_word(a[w], b[w]);
    }
    assert(a =~= b);
}

/// Once error correction leaves no error, Alice and Bob hold the same final
/// key: privacy amplification maps equal sifted keys to equal final keys.
pub proof fn lemma_keys_agree_without_remaining_errors(alice: Seq<Bit>, bob: Seq<Bit>, ldpc_enabled: bool,
    scaled_output_bits: int, diag: Seq<u64>, corrected: Seq<Bit>, alice_words: Seq<u64>, bob_words: Seq<u64>,
    alice_hex: Seq<char>, bob_hex: Seq<char>, stats: PrivacyAmplificationStats)
    requires
        amplification_ok(alice, bob, ldpc_enabled, scaled_output_bits, diag, corrected, alice_words, bob_words,
            alice_hex, bob_hex, stats, 0),
    ensures
        alice_hex == bob_hex,
{
    let len = min_len(alice.len(), bob.len());
    crate::ranges::lemma_count_zero_none(differs(alice, corrected), 0, len);
    assert(alice.subrange(0, len) =~= corrected) by {
        assert forall|i: int| 0 <= i < len implies alice.subrange(0, len)[i] == corrected[i] by {
            assert(!differs(alice, corrected)(i));
        }
    }
    lemma_packing_unique(alice_words, bob_words, corrected);
}

impl ToeplitzMatrix {
    /// The diagonal at distance `k` from the main one (positive above it):
    /// clear outside the `diagonal_len` diagonals. `n` is taken as an `isize`.
    #[allow(dead_code)]
    fn get_diagonal_bit(&self, k: isize) -> (r: bool)
        requires
            isize::MIN < self.n as isize,
            isize::MIN <= k + (self.n as isize - 1) <= isize::MAX,
            0 <= k + (self.n as isize - 1) < self.diagonal_len ==> (k + (self.n as isize - 1)) / 64 < self.diagonal@.len(),
        ensures
            r == (0 <= k + (self.n as isize - 1) < self.diagonal_len
                && packed_bit(self.diagonal@, k + (self.n as isize - 1))),
    {
        let idx = k + (self.n as isize - 1);
        if idx < 0 || idx as usize >= self.diagonal_len {
            return false;
        }
        let idx_u = idx as usize;
        let word_idx = idx_u >> 6;
        let bit_idx = idx_u & 63;
        assert(word_idx == idx_u / 64 && bit_idx == idx_u % 64) by (bit_vector)
            requires word_idx == idx_u >> 6, bit_idx == idx_u & 63;
        test_bit(self.diagonal[word_idx], bit_idx as u64)
    }
}

/// Word-wise XOR of two packed bit strings of the same length.
pub open spec fn xor_words(a: Seq<u64>, b: Seq<u64>) -> Seq<u64> {
    Seq::new(a.len(), |k: int| a[k] ^ b[k])
}

/// Masking distributes over XOR.
proof fn lemma_xor_mask(a: u64, b: u64, m: u64)
    ensures
        (a ^ b) & m == (a & m) ^ (b & m),
{
    assert((a ^ b) & m == (a & m) ^ (b & m)) by (bit_vector);
}

/// Shifts, and ORs of shifts of disjoint halves, distribute over XOR.
proof fn lemma_xor_shift_pair(a: u64, b: u64, c: u64, d: u64, s: u64, t: u64)
    requires
        0 < s < 64,
        t == 64 - s,
    ensures
        (0u64 | ((a ^ b) >> s)) == (0u64 | (a >> s)) ^ (0u64 | (b >> s)),
        (0u64 | ((c ^ d) << t)) == (0u64 | (c << t)) ^ (0u64 | (d << t)),
        ((0u64 | ((a ^ b) >> s)) | ((c ^ d) << t))
            == ((0u64 | (a >> s)) | (c << t)) ^ ((0u64 | (b >> s)) | (d << t)),
        ((0u64 | ((a ^ b) << t)) | ((c ^ d) >> s))
            == ((0u64 | (a << t)) | (c >> s)) ^ ((0u64 | (b << t)) | (d >> s)),
        (a ^ b) >> s == (a >> s) ^ (b >> s),
{
    assert((0u64 | ((a ^ b) >> s)) == (0u64 | (a >> s)) ^ (0u64 | (b >> s))) by (bit_vector)
        requires s < 64;
    assert((0u64 | ((c ^ d) << t)) == (0u64 | (c << t)) ^ (0u64 | (d << t))) by (bit_vector)
        requires t < 64;
    assert(((0u64 | ((a ^ b) >> s)) | ((c ^ d) << t))
        == ((0u64 | (a >> s)) | (c << t)) ^ ((0u64 | (b >> s)) | (d << t))) by (bit_vector)
        requires 0 < s < 64, t == 64 - s;
    assert(((0u64 | ((a ^ b) << t)) | ((c ^ d) >> s))
        == ((0u64 | (a << t)) | (c >> s)) ^ ((0u64 | (b << t)) | (d >> s))) by (bit_vector)
        requires 0 < s < 64, t == 64 - s;
    assert((a ^ b) >> s == (a >> s) ^ (b >> s)) by (bit_vector)
        requires s < 64;
}

/// Masking the last input word is linear in the input.
proof fn lemma_masked_input_linear(x: Seq<u64>, y: Seq<u64>, src: int, n: int)
    requires
        x.len() == y.len(),
        0 <= src < x.len(),
    ensures
        masked_input_word(xor_words(x, y), src, n) == masked_input_word(x, src, n) ^ masked_input_word(y, src, n),
{
    if src == x.len() - 1 && n - src * 64 < 64 {
        lemma_xor_mask(x[src], y[src], low_mask((n - src * 64) as u64));
    }
}

/// Masking an output word is linear.
proof fn lemma_mask_output_linear(p: u64, q: u64, m: int, i: int)
    ensures
        mask_output_word(p ^ q, m, i) == mask_output_word(p, m, i) ^ mask_output_word(q, m, i),
{
    if m - i * 64 < 64 {
        lemma_xor_mask(p, q, low_mask((m - i * 64) as u64));
    }
}

/// The contribution of one diagonal is linear in the input.
proof fn lemma_diagonal_delta_linear(x: Seq<u64>, y: Seq<u64>, n_eff: int, n: int, m: int, d: int, i: int)
    requires
        x.len() == y.len(),
        x.len() >= 1,
        i >= 0,
    ensures
        diagonal_delta(xor_words(x, y), n_eff, n, m, d, i)
            == diagonal_delta(x, n_eff, n, m, d, i) ^ diagonal_delta(y, n_eff, n, m, d, i),
{
    let z = xor_words(x, y);
    let iw = x.len() as int;
    lemma_xor_zero(0u64);
    let offset = n - 1;
    if d >= offset {
        let s = d - offset;
        if s < n_eff {
            let sw = s / 64;
            let bs = (s % 64) as u64;
            if bs == 0 {
                let src = sw + i;
                if src < iw && i * 64 < m {
                    lemma_masked_input_linear(x, y, src, n_eff);
                }
            } else {
                let t = (64 - bs) as u64;
                let src0 = sw + i;
                let src1 = src0 + 1;
                let a = if 0 <= src0 < iw { masked_input_word(x, src0, n_eff) } else { 0 };
                let b = if 0 <= src0 < iw { masked_input_word(y, src0, n_eff) } else { 0 };
                let c = if 0 <= src1 < iw { masked_input_word(x, src1, n_eff) } else { 0 };
                let e = if 0 <= src1 < iw { masked_input_word(y, src1, n_eff) } else { 0 };
                if 0 <= src0 < iw {
                    lemma_masked_input_linear(x, y, src0, n_eff);
                }
                if 0 <= src1 < iw {
                    lemma_masked_input_linear(x, y, src1, n_eff);
                }
                lemma_xor_shift_pair(a, b, c, e, bs, t);
                let wx = if src0 < iw { 0u64 | (masked_input_word(x, src0, n_eff) >> bs) } else { 0u64 };
                let wx = if src1 < iw { wx | (masked_input_word(x, src1, n_eff) << t) } else { wx };
                let wy = if src0 < iw { 0u64 | (masked_input_word(y, src0, n_eff) >> bs) } else { 0u64 };
                let wy = if src1 < iw { wy | (masked_input_word(y, src1, n_eff) << t) } else { wy };
                let wz = if src0 < iw { 0u64 | (masked_input_word(z, src0, n_eff) >> bs) } else { 0u64 };
                let wz = if src1 < iw { wz | (masked_input_word(z, src1, n_eff) << t) } else { wz };
                assert(wz == wx ^ wy);
                lemma_mask_output_linear(wx, wy, m, i);
            }
        }
    } else {
        let s = offset - d;
        if s < m {
            let sw = s / 64;
            let bs = (s % 64) as u64;
            let ow = output_words(m);
            if bs == 0 {
            } else if i == sw && sw < ow {
                lemma_xor_shift_pair(x[0], y[0], 0, 0, bs, (64 - bs) as u64);
                lemma_mask_output_linear(x[0] >> bs, y[0] >> bs, m, sw);
            } else if sw < i < ow {
                let t = (64 - bs) as u64;
                let src0 = i - sw - 1;
                let src1 = src0 + 1;
                let a = if src0 < iw { x[src0] } else { 0 };
                let b = if src0 < iw { y[src0] } else { 0 };
                let c = if src1 < iw { x[src1] } else { 0 };
                let e = if src1 < iw { y[src1] } else { 0 };
                lemma_xor_shift_pair(a, b, c, e, bs, t);
                lemma_xor_shift_pair(c, e, a, b, bs, t);
                let wx = if src0 < iw { 0u64 | (x[src0] << t) } else { 0u64 };
                let wx = if src1 < iw { wx | (x[src1] >> bs) } else { wx };
                let wy = if src0 < iw { 0u64 | (y[src0] << t) } else { 0u64 };
                let wy = if src1 < iw { wy | (y[src1] >> bs) } else { wy };
                let wz = if src0 < iw { 0u64 | (z[src0] << t) } else { 0u64 };
                let wz = if src1 < iw { wz | (z[src1] >> bs) } else { wz };
                assert(wz == wx ^ wy);
                lemma_mask_output_linear(wx, wy, m, i);
            }
        }
    }
}

/// A diagonal sum is linear in the input.
proof fn lemma_diagonal_sum_linear(diag: Seq<u64>, x: Seq<u64>, y: Seq<u64>, n_eff: int, n: int, m: int, lo: int, hi: int, i: int)
    requires
        x.len() == y.len(),
        x.len() >= 1,
        i >= 0,
    ensures
        diagonal_sum(diag, xor_words(x, y), n_eff, n, m, lo, hi, i)
            == diagonal_sum(diag, x, n_eff, n, m, lo, hi, i) ^ diagonal_sum(diag, y, n_eff, n, m, lo, hi, i),
    decreases hi - lo,
{
    if hi <= lo {
        lemma_xor_zero(0u64);
    } else {
        lemma_diagonal_sum_linear(diag, x, y, n_eff, n, m, lo, hi - 1, i);
        if packed_bit(diag, hi - 1) {
            lemma_diagonal_delta_linear(x, y, n_eff, n, m, hi - 1, i);
            crate::bits::lemma_xor_swap(diagonal_sum(diag, x, n_eff, n, m, lo, hi - 1, i),
                diagonal_sum(diag, y, n_eff, n, m, lo, hi - 1, i),
                diagonal_delta(x, n_eff, n, m, hi - 1, i), diagonal_delta(y, n_eff, n, m, hi - 1, i));
        }
    }
}

/// The Toeplitz hash (the word-shift product) is linear over GF(2):
/// hashing the XOR of two non-empty inputs of the same length gives the
/// XOR of their hashes. So
/// the difference of Alice's and Bob's final keys depends only on the
/// difference of their corrected keys.
pub proof fn lemma_shifted_diagonal_product_linear(diag: Seq<u64>, m: int, n: int, x: Seq<u64>, y: Seq<u64>, input_len_bits: int)
    requires
        x.len() == y.len(),
        x.len() >= 1,
        m >= 0,
    ensures
        shifted_diagonal_product(diag, m, n, xor_words(x, y), input_len_bits)
            == xor_words(shifted_diagonal_product(diag, m, n, x, input_len_bits), shifted_diagonal_product(diag, m, n, y, input_len_bits)),
{
    let n_eff = if n < input_len_bits { n } else { input_len_bits };
    assert forall|i: int| 0 <= i < output_words(m) implies
        #[trigger] shifted_diagonal_word(diag, m, n, xor_words(x, y), input_len_bits, i)
            == shifted_diagonal_word(diag, m, n, x, input_len_bits, i) ^ shifted_diagonal_word(diag, m, n, y, input_len_bits, i) by {
        lemma_diagonal_sum_linear(diag, x, y, n_eff, n, m, 0, (diag.len() * 64) as int, i);
    }
    assert(shifted_diagonal_product(diag, m, n, xor_words(x, y), input_len_bits)
        =~= xor_words(shifted_diagonal_product(diag, m, n, x, input_len_bits), shifted_diagonal_product(diag, m, n, y, input_len_bits)));
}

/// Output word `i` starts below bit `m`.
proof fn lemma_word_below_output(m: int, i: int)
    requires
        m >= 0,
        0 <= i < output_words(m),
    ensures
        i * 64 < m,
{
    lemma_chunk_start_in_range(i, 64, m);
}

} // verus!
