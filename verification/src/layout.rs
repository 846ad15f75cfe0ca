use vstd::prelude::*;

use crate::bits::word_bit;
use crate::chunks::{ceil_div, chunk_end, chunk_size_spec, chunk_start};

verus! {

// Packed bit strings built chunk by chunk: each chunk of `cs` photons packs
// its own bits little-endian into `ceil(cs / 64)` words, and the chunks'
// words are concatenated. Photon `j` then sits in chunk `j / cs` at local
// position `j % cs`. When `cs` is a multiple of 64 this is the plain layout.

/// Words that a full chunk of `cs` photons occupies.
pub open spec fn words_per_chunk(cs: int) -> int {
    ceil_div(cs, 64)
}

/// Word that holds photon `j`.
pub open spec fn chunked_word(j: int, cs: int) -> int {
    (j / cs) * words_per_chunk(cs) + (j % cs) / 64
}

/// Bit of that word that holds photon `j`.
pub open spec fn chunked_bit(j: int, cs: int) -> u64 {
    ((j % cs) % 64) as u64
}

/// The bit of photon `j` in a chunked packing.
pub open spec fn chunked_packed_bit(words: Seq<u64>, j: int, cs: int) -> bool {
    word_bit(words[chunked_word(j, cs)], chunked_bit(j, cs))
}

/// Number of words that `n` photons occupy.
pub open spec fn chunked_len(n: int, cs: int) -> int {
    (n / cs) * words_per_chunk(cs) + ceil_div(n % cs, 64)
}

/// Every set bit of `words` stands for a photon below `n`.
pub open spec fn padding_clear(words: Seq<u64>, n: int, cs: int) -> bool {
    forall|w: int, k: u64| 0 <= w < words.len() && k < 64 && #[trigger] word_bit(words[w], k) ==>
        (w % words_per_chunk(cs)) * 64 + k < cs
        && (w / words_per_chunk(cs)) * cs + (w % words_per_chunk(cs)) * 64 + k < n
}

/// Local words of one chunk of `len` photons: every set bit stands for one of them.
pub open spec fn chunk_padding_clear(words: Seq<u64>, len: int) -> bool {
    &&& words.len() == ceil_div(len, 64)
    &&& forall|w: int, k: u64| 0 <= w < words.len() && k < 64 && #[trigger] word_bit(words[w], k) ==> w * 64 + k < len
}

/// Photon `c * cs + i` of chunk `c` sits in word `c * ceil(cs / 64) + i / 64`.
pub proof fn lemma_chunked_position(c: int, i: int, cs: int)
    requires
        c >= 0,
        0 <= i < cs,
    ensures
        (c * cs + i) / cs == c,
        (c * cs + i) % cs == i,
        chunked_word(c * cs + i, cs) == c * words_per_chunk(cs) + i / 64,
        chunked_bit(c * cs + i, cs) == (i % 64) as u64,
{
    assert((c * cs + i) / cs == c && (c * cs + i) % cs == i) by (nonlinear_arith)
        requires c >= 0, 0 <= i < cs;
}

/// Word `c * ceil(cs / 64) + lw` of chunk `c`, `lw` below the chunk's word count.
pub proof fn lemma_chunked_word_split(c: int, lw: int, cs: int)
    requires
        c >= 0,
        cs >= 1,
        0 <= lw < words_per_chunk(cs),
    ensures
        (c * words_per_chunk(cs) + lw) / words_per_chunk(cs) == c,
        (c * words_per_chunk(cs) + lw) % words_per_chunk(cs) == lw,
{
    let wpc = words_per_chunk(cs);
    assert(wpc >= 1) by (nonlinear_arith)
        requires wpc == (cs + 63) / 64, cs >= 1;
    assert((c * wpc + lw) / wpc == c && (c * wpc + lw) % wpc == lw) by (nonlinear_arith)
        requires c >= 0, 0 <= lw < wpc;
}

/// After the chunks before `c`, all full, come `c * ceil(cs / 64)` words;
/// the last chunk brings the total to `chunked_len(n, cs)`.
pub proof fn lemma_chunked_len_parts(c: int, cs: int, n: int)
    requires
        cs >= 1,
        n >= 0,
        0 <= c < ceil_div(n, cs),
    ensures
        chunk_start(c, cs) == c * cs,
        c + 1 < ceil_div(n, cs) ==> chunk_end(c, cs, n) - chunk_start(c, cs) == cs,
        c + 1 == ceil_div(n, cs) ==> c * words_per_chunk(cs) + ceil_div(chunk_end(c, cs, n) - chunk_start(c, cs), 64)
            == chunked_len(n, cs),
        chunk_end(c, cs, n) - chunk_start(c, cs) <= cs,
        ceil_div(chunk_end(c, cs, n) - chunk_start(c, cs), 64) <= words_per_chunk(cs),
{
    crate::chunks::lemma_chunk_start_in_range(c, cs, n);
    crate::chunks::lemma_chunks_tile(c, cs, n);
    let k = ceil_div(n, cs);
    let len = chunk_end(c, cs, n) - chunk_start(c, cs);
    assert((c + 1) * cs == c * cs + cs) by (nonlinear_arith);
    if c + 1 < k {
        crate::chunks::lemma_chunk_start_in_range(c + 1, cs, n);
    }
    if c + 1 == k {
        assert(k * cs >= n) by (nonlinear_arith)
            requires k == (n + cs - 1) / cs, cs >= 1;
        let q = n / cs;
        let r = n % cs;
        assert(n == q * cs + r && 0 <= r < cs) by (nonlinear_arith)
            requires q == n / cs, r == n % cs, cs >= 1, n >= 0;
        crate::chunks::lemma_ceil_div_by_parts(n, cs);
        if r == 0 {
            assert(c == q - 1);
            assert(len == cs) by (nonlinear_arith)
                requires len == n - c * cs, n == q * cs, c == q - 1;
            assert(c * words_per_chunk(cs) + words_per_chunk(cs) == q * words_per_chunk(cs)) by (nonlinear_arith)
                requires c == q - 1;
            assert(ceil_div(0, 64) == 0);
        } else {
            assert(c == q);
            assert(len == r) by (nonlinear_arith)
                requires len == n - c * cs, n == q * cs + r, c == q;
        }
    }
    assert(ceil_div(len, 64) <= words_per_chunk(cs)) by (nonlinear_arith)
        requires len <= cs, 0 <= len;
}

/// A photon of an earlier chunk sits in the words of the earlier chunks.
pub proof fn lemma_chunked_word_before(j: int, cs: int, c: int)
    requires
        cs >= 1,
        0 <= j < c * cs,
    ensures
        0 <= chunked_word(j, cs) < c * words_per_chunk(cs),
{
    let wpc = words_per_chunk(cs);
    let q = j / cs;
    let r = j % cs;
    assert(j == q * cs + r && 0 <= r < cs && 0 <= q < c) by (nonlinear_arith)
        requires q == j / cs, r == j % cs, cs >= 1, 0 <= j < c * cs;
    assert(r / 64 < wpc) by (nonlinear_arith)
        requires 0 <= r < cs, wpc == (cs + 63) / 64;
    assert(0 <= q * wpc + r / 64 < c * wpc) by (nonlinear_arith)
        requires 0 <= q < c, 0 <= r / 64 < wpc, r >= 0;
}

/// With chunks of a multiple of 64 photons the chunked packing is the
/// plain one: photon `j` sits in bit `j % 64` of word `j / 64`.
pub proof fn lemma_chunked_plain(j: int, cs: int)
    requires
        j >= 0,
        cs >= 64,
        cs % 64 == 0,
    ensures
        chunked_word(j, cs) == j / 64,
        chunked_bit(j, cs) == (j % 64) as u64,
{
    let w = cs / 64;
    let q = j / cs;
    let r = j % cs;
    assert(cs == 64 * w && w >= 1) by (nonlinear_arith)
        requires w == cs / 64, cs % 64 == 0, cs >= 64;
    assert(words_per_chunk(cs) == w) by (nonlinear_arith)
        requires cs == 64 * w, w >= 1;
    assert(j == q * cs + r && 0 <= r < cs) by (nonlinear_arith)
        requires q == j / cs, r == j % cs, cs >= 1, j >= 0;
    let a = r / 64;
    let b = r % 64;
    assert(r == 64 * a + b && 0 <= b < 64) by (nonlinear_arith)
        requires a == r / 64, b == r % 64, r >= 0;
    assert(j == 64 * (q * w + a) + b) by (nonlinear_arith)
        requires j == q * cs + r, cs == 64 * w, r == 64 * a + b;
    assert(j / 64 == q * w + a && j % 64 == b) by (nonlinear_arith)
        requires j == 64 * (q * w + a) + b, 0 <= b < 64, q >= 0, w >= 1, a >= 0;
}

/// Within the first chunk the chunked packing is the plain one.
pub proof fn lemma_chunked_first_chunk(j: int, cs: int)
    requires
        0 <= j < cs,
    ensures
        chunked_word(j, cs) == j / 64,
        chunked_bit(j, cs) == (j % 64) as u64,
{
    assert(j / cs == 0 && j % cs == j) by (nonlinear_arith)
        requires 0 <= j < cs;
}

/// A packed run of fewer than 131074 photons, whatever the number of
/// worker threads, uses the plain packing: either it is one chunk, or its
/// chunks hold 65536 photons each.
pub proof fn lemma_packed_run_plain(j: int, n: int, threads: int)
    requires
        0 <= j < n < 131074,
        threads >= 1,
    ensures
        chunked_word(j, chunk_size_spec(n, threads, 65536)) == j / 64,
        chunked_bit(j, chunk_size_spec(n, threads, 65536)) == (j % 64) as u64,
{
    let cs = chunk_size_spec(n, threads, 65536);
    if n / threads > 65536 {
        assert(threads == 1) by (nonlinear_arith)
            requires n / threads > 65536, n < 131074, threads >= 1;
        assert(n / threads == n) by (nonlinear_arith)
            requires threads == 1;
        lemma_chunked_first_chunk(j, cs);
    } else {
        assert(65536int % 64 == 0);
        lemma_chunked_plain(j, cs);
    }
}

} // verus!
