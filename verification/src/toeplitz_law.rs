use vstd::prelude::*;

use crate::bits::{lemma_bit_xor, lemma_bit_zero, lemma_no_bits_zero, low_mask, packed_bit, word_bit};
use crate::privacy_amplification::{
    diagonal_delta, diagonal_sum, left_shift_delta, mask_output_word, masked_input_word, output_words,
    right_shift_delta, shifted_diagonal_product, shifted_diagonal_word,
};
use crate::ranges::{count_range, lemma_count_ext, lemma_count_none_all, lemma_count_split};

verus! {

// The product that `ToeplitzMatrix::multiply_gf2` computes, measured against
// the Toeplitz matrix-vector product over GF(2) written out entry by entry.

/// Bit `k` of a packed bit string; clear where there is no word.
pub open spec fn input_bit(input: Seq<u64>, k: int) -> bool {
    0 <= k && k / 64 < input.len() && word_bit(input[k / 64], (k % 64) as u64)
}

/// Every set bit of the packed string lies below position `n`.
pub open spec fn bits_below(input: Seq<u64>, n: int) -> bool {
    forall|w: int, k: u64| 0 <= w < input.len() && k < 64 && #[trigger] word_bit(input[w], k) ==> w * 64 + k < n
}

/// Entry `(j, k)` of the Toeplitz matrix with `n` columns whose diagonals
/// are the bits of `diag`: the entry is the diagonal bit `k - j + n - 1`.
pub open spec fn toeplitz_entry(diag: Seq<u64>, n: int, j: int, k: int) -> bool {
    let d = k - j + n - 1;
    0 <= d < diag.len() * 64 && packed_bit(diag, d)
}

/// The terms of row `j` of the product: the columns `k` where the matrix
/// entry and the input bit are both set.
pub open spec fn row_terms(diag: Seq<u64>, n: int, input: Seq<u64>, j: int) -> spec_fn(int) -> bool {
    |k: int| toeplitz_entry(diag, n, j, k) && input_bit(input, k)
}

/// Bit `j` of the matrix-vector product over GF(2) with the first `n_eff`
/// input bits: the parity of the number of terms of row `j`.
pub open spec fn toeplitz_bit(diag: Seq<u64>, n: int, input: Seq<u64>, n_eff: int, j: int) -> bool {
    count_range(row_terms(diag, n, input, j), 0, n_eff) % 2 == 1
}

proof fn lemma_split64(q: int, e: int)
    requires
        0 <= e < 64,
    ensures
        (q * 64 + e) / 64 == q,
        (q * 64 + e) % 64 == e,
{
    assert((q * 64 + e) / 64 == q && (q * 64 + e) % 64 == e) by (nonlinear_arith)
        requires 0 <= e < 64;
}

proof fn lemma_bit_shr(a: u64, bs: u64, b: u64)
    requires
        bs < 64,
        b < 64,
    ensures
        word_bit(0u64 | (a >> bs), b) == (b + bs < 64 && word_bit(a, (b + bs) as u64)),
{
    assert(((0u64 | (a >> bs)) & (1u64 << b) != 0) == (b + bs < 64 && a & (1u64 << ((b + bs) as u64)) != 0))
        by (bit_vector)
        requires bs < 64, b < 64;
}

proof fn lemma_bit_join(a: u64, c: u64, bs: u64, b: u64)
    requires
        0 < bs < 64,
        b < 64,
    ensures
        word_bit((0u64 | (a >> bs)) | (c << ((64 - bs) as u64)), b) == if b + bs < 64 {
            word_bit(a, (b + bs) as u64)
        } else {
            word_bit(c, (b + bs - 64) as u64)
        },
{
    assert((((0u64 | (a >> bs)) | (c << ((64 - bs) as u64))) & (1u64 << b) != 0) == if b + bs < 64 {
        a & (1u64 << ((b + bs) as u64)) != 0
    } else {
        c & (1u64 << ((b + bs - 64) as u64)) != 0
    }) by (bit_vector)
        requires 0 < bs < 64, b < 64;
}

proof fn lemma_bit_low_mask(w: u64, r: u64, b: u64)
    requires
        r < 64,
        b < 64,
    ensures
        word_bit(w & low_mask(r), b) == (word_bit(w, b) && b < r),
{
    assert(((w & (((1u64 << r) - 1) as u64)) & (1u64 << b) != 0) == (w & (1u64 << b) != 0 && b < r)) by (bit_vector)
        requires r < 64, b < 64;
}

/// Masking the last input word changes no bit when the input has no set
/// bit at or past `n`.
proof fn lemma_masked_input_bit(input: Seq<u64>, src: int, n: int, b: u64)
    requires
        0 <= src < input.len(),
        b < 64,
        bits_below(input, n),
    ensures
        word_bit(masked_input_word(input, src, n), b) == word_bit(input[src], b),
{
    if src == input.len() - 1 && n - src * 64 < 64 {
        if n - src * 64 >= 0 {
            let r = (n - src * 64) as u64;
            lemma_bit_low_mask(input[src], r, b);
        } else {
            assert forall|k: u64| k < 64 implies !#[trigger] word_bit(input[src], k) by {}
            lemma_no_bits_zero(input[src]);
            let y = low_mask((n - src * 64) as u64);
            assert((0u64 & y) & (1u64 << b) == 0) by (bit_vector);
        }
    }
}

/// Masking output word `i` keeps its bits that stand for rows below `m`.
proof fn lemma_mask_output_bit(w: u64, m: int, i: int, b: u64)
    requires
        b < 64,
        0 <= i * 64 + b < m,
    ensures
        word_bit(mask_output_word(w, m, i), b) == word_bit(w, b),
{
    if m - i * 64 < 64 {
        lemma_bit_low_mask(w, (m - i * 64) as u64, b);
    }
}

/// The contribution of one diagonal: for a diagonal on or above the main
/// one, and for one below it at a distance that is a multiple of 64, bit
/// `j` of what it adds is input bit `j + d - (n - 1)` (within the first
/// `n_eff` bits), the matrix entry on that diagonal in row `j`.
proof fn lemma_diagonal_delta_bit(input: Seq<u64>, n_eff: int, n: int, m: int, d: int, j: int)
    requires
        n >= 1,
        0 <= j < m,
        0 <= d,
        0 <= n_eff,
        bits_below(input, n_eff),
        d < n - 1 && n - 1 - d < m ==> (n - 1 - d) % 64 == 0,
    ensures
        word_bit(diagonal_delta(input, n_eff, n, m, d, j / 64), (j % 64) as u64)
            == (0 <= j + d - (n - 1) < n_eff && input_bit(input, j + d - (n - 1))),
{
    let i = j / 64;
    let b = (j % 64) as u64;
    lemma_split64(i, b as int);
    assert(j == i * 64 + b);
    let k = j + d - (n - 1);
    let iw = input.len() as int;
    if d >= n - 1 {
        let s = d - (n - 1);
        let sw = s / 64;
        let bs = (s % 64) as u64;
        assert(s == sw * 64 + bs);
        if s < n_eff {
            assert(diagonal_delta(input, n_eff, n, m, d, i) == right_shift_delta(input, s, n_eff, m, i));
            let src0 = sw + i;
            let src1 = src0 + 1;
            if bs == 0 {
                assert(k == src0 * 64 + b);
                lemma_split64(src0, b as int);
                if src0 < iw {
                    lemma_masked_input_bit(input, src0, n_eff, b);
                    if word_bit(input[src0], b) {
                        assert(input[src0 / 1] == input[src0]);
                        assert(src0 * 64 + b < n_eff);
                    }
                } else {
                    lemma_bit_zero(b);
                }
            } else {
                let w0 = if src0 < iw { 0u64 | (masked_input_word(input, src0, n_eff) >> bs) } else { 0u64 };
                let w = if src1 < iw { w0 | (masked_input_word(input, src1, n_eff) << ((64 - bs) as u64)) } else { w0 };
                assert(right_shift_delta(input, s, n_eff, m, i) == mask_output_word(w, m, i));
                lemma_mask_output_bit(w, m, i, b);
                if b + bs < 64 {
                    assert(k == src0 * 64 + (b + bs));
                    lemma_split64(src0, b + bs);
                } else {
                    assert(k == src1 * 64 + (b + bs - 64));
                    lemma_split64(src1, b + bs - 64);
                }
                if src0 < iw && src1 < iw {
                    lemma_bit_join(masked_input_word(input, src0, n_eff), masked_input_word(input, src1, n_eff), bs, b);
                    if b + bs < 64 {
                        lemma_masked_input_bit(input, src0, n_eff, (b + bs) as u64);
                    } else {
                        lemma_masked_input_bit(input, src1, n_eff, (b + bs - 64) as u64);
                    }
                } else if src0 < iw {
                    lemma_bit_shr(masked_input_word(input, src0, n_eff), bs, b);
                    if b + bs < 64 {
                        lemma_masked_input_bit(input, src0, n_eff, (b + bs) as u64);
                    }
                } else {
                    lemma_bit_zero(b);
                }
            }
        } else {
            lemma_bit_zero(b);
        }
    } else {
        let s = n - 1 - d;
        if s < m {
            let ow = output_words(m);
            assert(diagonal_delta(input, n_eff, n, m, d, i) == left_shift_delta(input, s, m, ow, i));
            let sw = s / 64;
            assert(s == sw * 64);
            assert(i < ow) by (nonlinear_arith)
                requires ow == (m + 63) / 64, i == j / 64, 0 <= j < m;
            if sw <= i && i - sw < iw {
                assert(k == (i - sw) * 64 + b);
                lemma_split64(i - sw, b as int);
                if word_bit(input[i - sw], b) {
                    assert((i - sw) * 64 + b < n_eff);
                }
            } else {
                lemma_bit_zero(b);
                if i >= sw {
                    assert(k == (i - sw) * 64 + b);
                    lemma_split64(i - sw, b as int);
                }
            }
        } else {
            lemma_bit_zero(b);
        }
    }
}

/// The diagonals whose contribution sets bit `b` of output word `i`.
pub open spec fn contributing(diag: Seq<u64>, input: Seq<u64>, n_eff: int, n: int, m: int, i: int, b: u64)
    -> spec_fn(int) -> bool {
    |d: int| packed_bit(diag, d) && word_bit(diagonal_delta(input, n_eff, n, m, d, i), b)
}

/// A bit of an XOR of contributions is the parity of the contributions
/// that set it.
proof fn lemma_sum_bit(diag: Seq<u64>, input: Seq<u64>, n_eff: int, n: int, m: int, lo: int, hi: int, i: int, b: u64)
    requires
        lo <= hi,
        b < 64,
    ensures
        word_bit(diagonal_sum(diag, input, n_eff, n, m, lo, hi, i), b)
            == (count_range(contributing(diag, input, n_eff, n, m, i, b), lo, hi) % 2 == 1),
    decreases hi - lo,
{
    if hi == lo {
        lemma_bit_zero(b);
    } else {
        lemma_sum_bit(diag, input, n_eff, n, m, lo, hi - 1, i, b);
        let prev = diagonal_sum(diag, input, n_eff, n, m, lo, hi - 1, i);
        if packed_bit(diag, hi - 1) {
            lemma_bit_xor(prev, diagonal_delta(input, n_eff, n, m, hi - 1, i), b);
        }
    }
}

/// `p` read `c` places further on.
pub open spec fn shifted(p: spec_fn(int) -> bool, c: int) -> spec_fn(int) -> bool {
    |x: int| p(x + c)
}

/// Counting is unchanged by moving the range and the predicate together.
proof fn lemma_count_shift(p: spec_fn(int) -> bool, lo: int, hi: int, c: int)
    ensures
        count_range(p, lo, hi) == count_range(shifted(p, c), lo - c, hi - c),
    decreases hi - lo,
{
    if hi > lo {
        lemma_count_shift(p, lo, hi - 1, c);
        assert(shifted(p, c)(hi - c - 1) == p(hi - 1));
    }
}

/// Widening a range over positions where the predicate is false leaves the
/// count unchanged.
proof fn lemma_count_pad(p: spec_fn(int) -> bool, lo_out: int, lo: int, hi: int, hi_out: int)
    requires
        lo_out <= lo <= hi <= hi_out,
        forall|x: int| lo_out <= x < lo ==> !#[trigger] p(x),
        forall|x: int| hi <= x < hi_out ==> !#[trigger] p(x),
    ensures
        count_range(p, lo_out, hi_out) == count_range(p, lo, hi),
{
    lemma_count_split(p, lo_out, lo, hi_out);
    lemma_count_split(p, lo, hi, hi_out);
    lemma_count_none_all(p, lo_out, lo);
    lemma_count_none_all(p, hi, hi_out);
}

/// The Toeplitz hash against the matrix: bit `j` (a row below `m`) of the
/// product that `multiply_gf2` computes is bit `j` of the matrix-vector
/// product over GF(2) of the `m` by `n` Toeplitz matrix with entry
/// `(j, k)` equal to diagonal bit `k - j + n - 1`, and the first `n_eff`
/// input bits. This holds for every input without set bits past `n_eff`
/// and every set of diagonals, except that a set diagonal below the main
/// one, at a distance under `m`, must lie at a multiple of 64: the product
/// moves the input within words the other way for the others (see
/// `left_shift_delta`).
pub proof fn lemma_product_is_toeplitz(diag: Seq<u64>, m: int, n: int, input: Seq<u64>, input_len_bits: int, j: int)
    requires
        n >= 1,
        0 <= j < m,
        input_len_bits >= 0,
        bits_below(input, if n < input_len_bits { n } else { input_len_bits }),
        forall|d: int| 0 <= d < n - 1 && n - 1 - d < m && d < diag.len() * 64 && #[trigger] packed_bit(diag, d)
            ==> (n - 1 - d) % 64 == 0,
    ensures
        j / 64 < shifted_diagonal_product(diag, m, n, input, input_len_bits).len(),
        word_bit(shifted_diagonal_product(diag, m, n, input, input_len_bits)[j / 64], (j % 64) as u64)
            == toeplitz_bit(diag, n, input, if n < input_len_bits { n } else { input_len_bits }, j),
{
    let n_eff = if n < input_len_bits { n } else { input_len_bits };
    let i = j / 64;
    let b = (j % 64) as u64;
    let dl = (diag.len() * 64) as int;
    assert(i < output_words(m)) by (nonlinear_arith)
        requires i == j / 64, 0 <= j < m, output_words(m) == (m + 63) / 64;
    assert(shifted_diagonal_product(diag, m, n, input, input_len_bits)[i]
        == shifted_diagonal_word(diag, m, n, input, input_len_bits, i));
    lemma_sum_bit(diag, input, n_eff, n, m, 0, dl, i, b);
    let p = contributing(diag, input, n_eff, n, m, i, b);
    let c = j - (n - 1);
    let r = row_terms(diag, n, input, j);
    let rf = |k: int| 0 <= k < n_eff && r(k);
    assert forall|d: int| 0 <= d < dl implies #[trigger] p(d) == shifted(rf, c)(d) by {
        if packed_bit(diag, d) {
            lemma_diagonal_delta_bit(input, n_eff, n, m, d, j);
        }
        assert(d + c - j + n - 1 == d);
    }
    lemma_count_ext(p, shifted(rf, c), 0, dl);
    lemma_count_shift(rf, c, dl + c, c);
    assert(c - c == 0 && dl + c - c == dl);
    let lo = if c < 0 { c } else { 0 };
    let hi = if dl + c > n_eff { dl + c } else { n_eff };
    assert forall|x: int| lo <= x < c implies !#[trigger] rf(x) by {}
    assert forall|x: int| dl + c <= x < hi implies !#[trigger] rf(x) by {}
    lemma_count_pad(rf, lo, c, dl + c, hi);
    assert forall|x: int| lo <= x < 0 implies !#[trigger] rf(x) by {}
    assert forall|x: int| n_eff <= x < hi implies !#[trigger] rf(x) by {}
    lemma_count_pad(rf, lo, 0, n_eff, hi);
    lemma_count_ext(rf, r, 0, n_eff);
}

} // verus!
