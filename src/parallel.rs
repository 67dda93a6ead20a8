//! Data-parallel map over an index range.
use vstd::prelude::*;
use rayon::iter::IntoParallelIterator;
use rayon::iter::ParallelIterator;

verus! {

/// Relies on rayon's indexed parallel iterator: `(0..n).into_par_iter()
/// .map(f).collect()` calls `f` on every index below `n`, on any worker, and
/// collects the results in index order whatever order they finish in.
#[verifier::external_body]
pub(crate) fn par_map_indices<F>(n: usize, f: F) -> (r: Vec<Vec<u8>>)
    where
        F: Fn(usize) -> Vec<u8> + Sync + Send,
    requires
        forall|i: usize| i < n ==> f.requires((i,)),
    ensures
        r@.len() == n,
        forall|i: int| 0 <= i < n ==> f.ensures((i as usize,), #[trigger] r@[i]),
{
    (0..n).into_par_iter().map(f).collect()
}

} // verus!
