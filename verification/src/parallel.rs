//! Work on several items at once.

use rayon::prelude::{IntoParallelRefIterator, ParallelIterator};
use vstd::prelude::*;

verus! {

/// `rayon`'s `par_iter` over a vector, `map` and `collect` into a vector: what the function gives
/// for each item, in the order of the items, whichever is finished first.
#[verifier::external_body]
pub(crate) fn map_each<A: Sync, B: Send, F: Fn(&A) -> B + Sync + Send>(items: &Vec<A>, f: F) -> (r:
    Vec<B>)
    requires
        forall|i: int| 0 <= i < items@.len() ==> call_requires(f, (&#[trigger] items@[i],)),
    ensures
        r@.len() == items@.len(),
        forall|i: int|
            0 <= i < items@.len() ==> call_ensures(f, (&items@[i],), #[trigger] r@[i]),
{
    items.par_iter().map(f).collect()
}

} // verus!
