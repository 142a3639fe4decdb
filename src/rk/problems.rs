use vstd::prelude::*;
use crate::permu_utils::is_index_permutation;

pub mod lop;
pub mod pfsp;

verus! {

/// The kinds of problem the rank-key driver handles.
#[derive(Debug, Clone, Copy, PartialEq, Eq, Structural)]
pub enum ProblemType {
    Lop,
    Pfsp,
}

/// A problem whose solutions are permutations of `[0, size)` with a cost.
pub trait Problem {
    /// Length of the permutations.
    spec fn spec_size(&self) -> nat;

    /// The instance's data is consistent.
    spec fn well_formed(&self) -> bool;

    /// Cost of a solution.
    spec fn cost(&self, s: Seq<usize>) -> int;

    fn size(&self) -> (r: usize)
        ensures
            r == self.spec_size();

    fn eval_population(&self, pop: &Vec<Vec<usize>>) -> (r: Vec<usize>)
        requires
            self.well_formed(),
            forall|k: int| 0 <= k < pop@.len() ==> (#[trigger] pop@[k])@.len() == self.spec_size() && is_index_permutation(pop@[k]@) && self.cost(pop@[k]@) <= usize::MAX,
        ensures
            r@.len() == pop@.len(),
            forall|k: int| 0 <= k < pop@.len() ==> #[trigger] r@[k] == self.cost(pop@[k]@);
}

} // verus!
