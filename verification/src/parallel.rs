//! Data-parallel mapping over input masks.

use rayon::iter::{IntoParallelRefIterator, ParallelIterator};
use vstd::prelude::*;

verus! {

/// `rayon`'s `par_iter`, `map` and `collect` into a `Vec`: `f` is applied to every item, on the
/// threads of the pool, and the results stand in the order of the items. Each result is one that
/// `f` may return for its item.
#[verifier::external_body]
pub(crate) fn par_map<U: Send, F: Fn(u16) -> U + Sync + Send>(items: &[u16], f: F) -> (out: Vec<U>)
    requires
        forall|i: int| 0 <= i < items@.len() ==> call_requires(f, (#[trigger] items@[i],)),
    ensures
        out@.len() == items@.len(),
        forall|i: int| 0 <= i < items@.len() ==> call_ensures(f, (items@[i],), #[trigger] out@[i]),
{
    items.par_iter().map(|item| f(*item)).collect()
}

} // verus!
