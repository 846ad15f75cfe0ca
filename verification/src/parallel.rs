use vstd::prelude::*;

verus! {

/// Calls `rayon::current_num_threads`: the number of worker threads of the
/// current pool. rayon-core builds every registry with at least one thread;
/// the exact count depends on the machine and is left unstated.
#[verifier::external_body]
pub(crate) fn worker_count() -> (r: usize)
    ensures r >= 1,
{
    rayon::current_num_threads()
}

/// Calls `rayon`'s `into_par_iter().map(f).collect::<Vec<_>>()` on `0..n`:
/// element `i` of the result is `f(i)`; rayon keeps the order of an indexed
/// range when collecting into a `Vec`.
#[verifier::external_body]
pub(crate) fn par_map_range<T: Send, F: Fn(usize) -> T + Send + Sync>(n: usize, f: F) -> (r: Vec<T>)
    requires
        forall|i: usize| i < n ==> call_requires(f, (i,)),
    ensures
        r.len() == n,
        forall|i: int| 0 <= i < n ==> call_ensures(f, (i as usize,), #[trigger] r[i]),
{
    rayon::iter::ParallelIterator::collect(rayon::iter::ParallelIterator::map(
        rayon::iter::IntoParallelIterator::into_par_iter(0..n),
        f,
    ))
}

} // verus!
