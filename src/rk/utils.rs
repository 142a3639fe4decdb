use vstd::prelude::*;
use crate::permu_utils::is_index_permutation;
use crate::rng::{is_rearrangement, shuffle};

pub use crate::permu_utils::argsort;

verus! {

/// `num_sol` random permutations of `[0, sol_size)`, each a shuffled identity.
pub fn random_population(sol_size: usize, num_sol: usize) -> (r: Vec<Vec<usize>>)
    ensures
        r@.len() == num_sol,
        forall|k: int| 0 <= k < num_sol ==> (#[trigger] r@[k])@.len() == sol_size && is_index_permutation(r@[k]@),
{
    let mut pop: Vec<Vec<usize>> = Vec::new();
    for k in 0..num_sol
        invariant
            pop@.len() == k,
            forall|t: int| 0 <= t < k ==> (#[trigger] pop@[t])@.len() == sol_size && is_index_permutation(pop@[t]@),
    {
        let mut sol: Vec<usize> = Vec::new();
        for i in 0..sol_size
            invariant
                sol@.len() == i,
                forall|t: int| 0 <= t < i ==> sol@[t] == t,
        {
            sol.push(i);
        }
        let ghost ident = sol@;
        shuffle(&mut sol);
        proof {
            let p = choose|p: Seq<usize>| #[trigger] is_index_permutation(p) && p.len() == ident.len()
                && forall|i: int| 0 <= i < sol@.len() ==> sol@[i] == ident[p[i] as int];
            assert forall|i: int| 0 <= i < sol@.len() implies #[trigger] sol@[i] == p[i] by {}
            assert forall|i: int, j: int| 0 <= i < sol@.len() && 0 <= j < sol@.len() && i != j implies #[trigger] sol@[i] != #[trigger] sol@[j] by {
                assert(sol@[i] == p[i]);
                assert(sol@[j] == p[j]);
            }
        }
        pop.push(sol);
    }
    pop
}

} // verus!
