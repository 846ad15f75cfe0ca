use vstd::prelude::*;

verus! {

/// Number of chunks of `cs` items that cover `n` items: the ceiling of `n / cs`.
pub open spec fn ceil_div(n: int, cs: int) -> int {
    (n + cs - 1) / cs
}

/// Size of the chunks into which `n` items are split among `threads` workers,
/// never below `min_chunk`.
pub open spec fn chunk_size_spec(n: int, threads: int, min_chunk: int) -> int {
    if n / threads > min_chunk { n / threads } else { min_chunk }
}

/// First item of chunk `c`.
pub open spec fn chunk_start(c: int, cs: int) -> int {
    c * cs
}

/// One past the last item of chunk `c`.
pub open spec fn chunk_end(c: int, cs: int, n: int) -> int {
    if c * cs + cs < n { c * cs + cs } else { n }
}

/// Items covered by the first `c` of the `ceil_div(n, cs)` chunks.
pub open spec fn chunks_covered(c: int, cs: int, n: int) -> int {
    if c < ceil_div(n, cs) { if c == 0 { 0 } else { c * cs } } else { n }
}

/// `(n / threads).max(min_chunk)`.
pub fn chunk_size(n: usize, threads: usize, min_chunk: usize) -> (cs: usize)
    requires
        threads >= 1,
    ensures
        cs == chunk_size_spec(n as int, threads as int, min_chunk as int),
{
    let q = n / threads;
    if q > min_chunk { q } else { min_chunk }
}

/// The number of chunks of `cs` items covering `n` items.
pub fn chunk_count(n: usize, cs: usize) -> (k: usize)
    requires
        cs >= 1,
    ensures
        k == ceil_div(n as int, cs as int),
{
    let q = n / cs;
    let r = n % cs;
    proof {
        lemma_ceil_div_by_parts(n as int, cs as int);
        assert(r == 0 || q < n) by (nonlinear_arith)
            requires cs >= 1, q == n / cs, r == n % cs, n >= 0;
    }
    if r == 0 { q } else { q + 1 }
}

/// The bounds `[start, end)` of chunk `c`.
pub fn chunk_bounds(c: usize, cs: usize, n: usize) -> (r: (usize, usize))
    requires
        cs >= 1,
        c < ceil_div(n as int, cs as int),
    ensures
        r.0 == chunk_start(c as int, cs as int),
        r.1 == chunk_end(c as int, cs as int, n as int),
        r.0 < r.1 <= n,
{
    proof {
        lemma_chunk_start_in_range(c as int, cs as int, n as int);
    }
    let start = c * cs;
    let end = if cs < n - start { start + cs } else { n };
    (start, end)
}

/// The rounded-up quotient is the quotient, plus one when there is a remainder.
pub proof fn lemma_ceil_div_by_parts(n: int, cs: int)
    requires
        n >= 0,
        cs >= 1,
    ensures
        ceil_div(n, cs) == n / cs + (if n % cs == 0 { 0int } else { 1int }),
{
    let q = n / cs;
    let r = n % cs;
    assert(n == q * cs + r && 0 <= r < cs) by (nonlinear_arith)
        requires cs >= 1, q == n / cs, r == n % cs;
    if r == 0 {
        assert((n + cs - 1) / cs == q) by (nonlinear_arith)
            requires n == q * cs, cs >= 1;
    } else {
        assert((n + cs - 1) / cs == q + 1) by (nonlinear_arith)
            requires n == q * cs + r, 1 <= r < cs;
    }
}

/// Every chunk below the count starts inside the items.
pub proof fn lemma_chunk_start_in_range(c: int, cs: int, n: int)
    requires
        cs >= 1,
        n >= 0,
        0 <= c < ceil_div(n, cs),
    ensures
        0 <= c * cs < n,
{
    let k = ceil_div(n, cs);
    assert(k * cs <= n + cs - 1) by (nonlinear_arith)
        requires k == (n + cs - 1) / cs, cs >= 1;
    assert(0 <= c * cs < n) by (nonlinear_arith)
        requires 0 <= c <= k - 1, cs >= 1, k * cs <= n + cs - 1;
}

/// Consecutive chunks meet, and the last chunk ends at `n`.
pub proof fn lemma_chunks_tile(c: int, cs: int, n: int)
    requires
        cs >= 1,
        n >= 0,
        0 <= c < ceil_div(n, cs),
    ensures
        c + 1 < ceil_div(n, cs) ==> chunk_end(c, cs, n) == chunk_start(c + 1, cs),
        c + 1 == ceil_div(n, cs) ==> chunk_end(c, cs, n) == n,
        chunks_covered(c, cs, n) == chunk_start(c, cs),
        chunks_covered(c + 1, cs, n) == chunk_end(c, cs, n),
{
    assert(0 * cs == 0);
    let k = ceil_div(n, cs);
    assert((c + 1) * cs == c * cs + cs) by (nonlinear_arith);
    if c + 1 < k {
        lemma_chunk_start_in_range(c + 1, cs, n);
    } else {
        assert(k * cs >= n) by (nonlinear_arith)
            requires k == (n + cs - 1) / cs, cs >= 1;
    }
}

/// With no items there are no chunks; with some there is at least one.
pub proof fn lemma_chunk_count_zero(n: int, cs: int)
    requires
        cs >= 1,
        n >= 0,
    ensures
        (ceil_div(n, cs) == 0) == (n == 0),
        ceil_div(n, cs) >= 0,
{
    assert(((n + cs - 1) / cs == 0) == (n == 0)) by (nonlinear_arith)
        requires cs >= 1, n >= 0;
    assert((n + cs - 1) / cs >= 0) by (nonlinear_arith)
        requires cs >= 1, n >= 0;
}

} // verus!
