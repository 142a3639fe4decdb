use vstd::prelude::*;
use rand::seq::SliceRandom;
use rand::Rng;

verus! {

/// `new` holds the entries of `old` in some order: there is an index
/// permutation `p` with `new[i] == old[p[i]]`.
pub open spec fn is_rearrangement<T>(new: Seq<T>, old: Seq<T>) -> bool {
    &&& new.len() == old.len()
    &&& exists|p: Seq<usize>| #[trigger] crate::permu_utils::is_index_permutation(p) && p.len() == old.len()
        && forall|i: int| 0 <= i < new.len() ==> new[i] == old[p[i] as int]
}

/// Relies on `rand::Rng::gen_range` on the thread-local generator: a value
/// drawn uniformly from `[0, bound)`; an empty range would panic.
#[verifier::external_body]
pub(crate) fn random_below(bound: usize) -> (r: usize)
    requires
        bound > 0,
    ensures
        r < bound,
{
    rand::thread_rng().gen_range(0..bound)
}

/// Relies on `rand::seq::SliceRandom::shuffle` on the thread-local generator:
/// the entries are only swapped among themselves.
#[verifier::external_body]
pub(crate) fn shuffle<T>(v: &mut Vec<T>)
    ensures
        is_rearrangement(final(v)@, old(v)@),
{
    v.shuffle(&mut rand::thread_rng())
}

} // verus!
