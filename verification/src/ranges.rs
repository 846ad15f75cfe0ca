use vstd::prelude::*;

verus! {

/// Number of positions `lo <= i < hi` at which `p` holds.
pub open spec fn count_range(p: spec_fn(int) -> bool, lo: int, hi: int) -> nat
    decreases hi - lo,
{
    if hi <= lo {
        0
    } else {
        count_range(p, lo, hi - 1) + if p(hi - 1) { 1nat } else { 0nat }
    }
}

/// The positions `lo <= i < hi` at which `p` holds, in increasing order.
pub open spec fn positions(p: spec_fn(int) -> bool, lo: int, hi: int) -> Seq<usize>
    decreases hi - lo,
{
    if hi <= lo {
        Seq::empty()
    } else if p(hi - 1) {
        positions(p, lo, hi - 1).push((hi - 1) as usize)
    } else {
        positions(p, lo, hi - 1)
    }
}

/// Positions at which a boolean sequence is set.
pub open spec fn set_at(s: Seq<bool>) -> spec_fn(int) -> bool {
    |i: int| s[i]
}

/// Positions at which a boolean sequence is clear.
pub open spec fn clear_at(s: Seq<bool>) -> spec_fn(int) -> bool {
    |i: int| !s[i]
}

/// Counting splits at any middle position.
pub proof fn lemma_count_split(p: spec_fn(int) -> bool, lo: int, mid: int, hi: int)
    requires
        lo <= mid <= hi,
    ensures
        count_range(p, lo, hi) == count_range(p, lo, mid) + count_range(p, mid, hi),
    decreases hi - mid,
{
    if hi > mid {
        lemma_count_split(p, lo, mid, hi - 1);
    }
}

/// A count is at most the length of the range.
pub proof fn lemma_count_bound(p: spec_fn(int) -> bool, lo: int, hi: int)
    requires
        lo <= hi,
    ensures
        count_range(p, lo, hi) <= hi - lo,
    decreases hi - lo,
{
    if hi > lo {
        lemma_count_bound(p, lo, hi - 1);
    }
}

/// Counts agree where the predicates agree.
pub proof fn lemma_count_ext(p: spec_fn(int) -> bool, q: spec_fn(int) -> bool, lo: int, hi: int)
    requires
        forall|i: int| lo <= i < hi ==> #[trigger] p(i) == q(i),
    ensures
        count_range(p, lo, hi) == count_range(q, lo, hi),
    decreases hi - lo,
{
    if hi > lo {
        lemma_count_ext(p, q, lo, hi - 1);
    }
}

/// A predicate that never holds counts zero; one that always holds counts all.
pub proof fn lemma_count_none_all(p: spec_fn(int) -> bool, lo: int, hi: int)
    requires
        lo <= hi,
    ensures
        (forall|i: int| lo <= i < hi ==> !#[trigger] p(i)) ==> count_range(p, lo, hi) == 0,
        (forall|i: int| lo <= i < hi ==> #[trigger] p(i)) ==> count_range(p, lo, hi) == hi - lo,
    decreases hi - lo,
{
    if hi > lo {
        lemma_count_none_all(p, lo, hi - 1);
    }
}

/// A zero count means the predicate holds nowhere in the range.
pub proof fn lemma_count_zero_none(p: spec_fn(int) -> bool, lo: int, hi: int)
    requires
        count_range(p, lo, hi) == 0,
    ensures
        forall|i: int| lo <= i < hi ==> !#[trigger] p(i),
    decreases hi - lo,
{
    if hi > lo {
        lemma_count_zero_none(p, lo, hi - 1);
    }
}

/// Positions split at any middle position.
pub proof fn lemma_positions_split(p: spec_fn(int) -> bool, lo: int, mid: int, hi: int)
    requires
        lo <= mid <= hi,
    ensures
        positions(p, lo, hi) == positions(p, lo, mid) + positions(p, mid, hi),
    decreases hi - mid,
{
    if hi > mid {
        lemma_positions_split(p, lo, mid, hi - 1);
        assert(positions(p, lo, mid) + positions(p, mid, hi - 1).push((hi - 1) as usize)
            == (positions(p, lo, mid) + positions(p, mid, hi - 1)).push((hi - 1) as usize));
    } else {
        assert(positions(p, lo, mid) + Seq::<usize>::empty() == positions(p, lo, mid));
    }
}

/// There are as many positions as the count says; each lies in the range,
/// satisfies `p`, and they strictly increase; every position in the range
/// that satisfies `p` is among them.
pub proof fn lemma_positions_facts(p: spec_fn(int) -> bool, lo: int, hi: int)
    requires
        0 <= lo <= hi,
        hi <= usize::MAX + 1,
    ensures
        positions(p, lo, hi).len() == count_range(p, lo, hi),
        forall|k: int| 0 <= k < positions(p, lo, hi).len() ==> lo <= #[trigger] positions(p, lo, hi)[k] < hi
            && p(positions(p, lo, hi)[k] as int),
        forall|k1: int, k2: int| 0 <= k1 < k2 < positions(p, lo, hi).len()
            ==> positions(p, lo, hi)[k1] < positions(p, lo, hi)[k2],
        forall|i: int| lo <= i < hi && #[trigger] p(i) ==> positions(p, lo, hi).contains(i as usize),
    decreases hi - lo,
{
    if hi > lo {
        lemma_positions_facts(p, lo, hi - 1);
        let prev = positions(p, lo, hi - 1);
        if p(hi - 1) {
            assert(positions(p, lo, hi)[prev.len() as int] == (hi - 1) as usize);
            assert forall|i: int| lo <= i < hi && #[trigger] p(i) implies positions(p, lo, hi).contains(i as usize) by {
                if i < hi - 1 {
                    let k = choose|k: int| 0 <= k < prev.len() && prev[k] == i as usize;
                    assert(positions(p, lo, hi)[k] == i as usize);
                } else {
                    assert(positions(p, lo, hi)[prev.len() as int] == i as usize);
                }
            }
        }
    }
}

} // verus!
