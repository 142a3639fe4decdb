use vstd::prelude::*;
use crate::permu_utils::is_index_permutation;
use crate::problems::{flow_time, index_jobs, jobs_fit, total_flow_time};
use crate::rk::errors::Errors;
use crate::rk::problems::Problem;

verus! {

/// A permutation flow-shop instance: processing times, one row per machine,
/// one column per job.
pub struct Pfsp {
    matrix: Vec<Vec<usize>>,
    size: usize,
    n_machines: usize,
}

impl Pfsp {
    /// The processing times.
    pub closed spec fn times(&self) -> Seq<Seq<usize>> {
        Seq::new(self.matrix@.len(), |m: int| self.matrix@[m]@)
    }

    /// An instance of `size` jobs on `n_machines` machines; the matrix must
    /// have one row of `size` times per machine, else `RowsDifferentLength`.
    pub fn from_matrix(size: usize, n_machines: usize, matrix: Vec<Vec<usize>>) -> (r: Result<Pfsp, Errors>)
        ensures
            r is Ok <==> matrix@.len() == n_machines && forall|m: int| 0 <= m < n_machines ==> (#[trigger] matrix@[m])@.len() == size,
            r is Err ==> r == Err::<Pfsp, Errors>(Errors::RowsDifferentLength),
            r is Ok ==> r->Ok_0.times() == Seq::new(matrix@.len(), |m: int| matrix@[m]@) && r->Ok_0.spec_size() == size && r->Ok_0.well_formed(),
    {
        if matrix.len() != n_machines {
            return Err(Errors::RowsDifferentLength);
        }
        for m in 0..n_machines
            invariant
                matrix@.len() == n_machines,
                forall|t: int| 0 <= t < m ==> (#[trigger] matrix@[t])@.len() == size,
        {
            if matrix[m].len() != size {
                return Err(Errors::RowsDifferentLength);
            }
        }
        Ok(Pfsp { matrix, size, n_machines })
    }
}

impl Problem for Pfsp {
    closed spec fn spec_size(&self) -> nat {
        self.size as nat
    }

    closed spec fn well_formed(&self) -> bool {
        &&& self.matrix@.len() == self.n_machines
        &&& forall|m: int| 0 <= m < self.n_machines ==> (#[trigger] self.matrix@[m])@.len() == self.size
    }

    /// Total flow time of running the jobs in the order `s`.
    closed spec fn cost(&self, s: Seq<usize>) -> int {
        flow_time(self.times(), index_jobs(s), s.len() as int)
    }

    fn size(&self) -> (r: usize) {
        self.size
    }

    fn eval_population(&self, solutions: &Vec<Vec<usize>>) -> (r: Vec<usize>) {
        let mut fitness_vec: Vec<usize> = Vec::new();
        for k in 0..solutions.len()
            invariant
                self.well_formed(),
                forall|a: int| 0 <= a < solutions@.len() ==> (#[trigger] solutions@[a])@.len() == self.spec_size() && is_index_permutation(solutions@[a]@) && self.cost(solutions@[a]@) <= usize::MAX,
                fitness_vec@.len() == k,
                forall|a: int| 0 <= a < k ==> #[trigger] fitness_vec@[a] == self.cost(solutions@[a]@),
        {
            let s = &solutions[k];
            proof {
                assert(solutions@[k as int]@.len() == self.size);
                assert forall|j: int, m: int| 0 <= j < s@.len() && 0 <= m < self.times().len() implies 0 <= #[trigger] index_jobs(s@)[j] < #[trigger] self.times()[m].len() by {
                    assert(self.times()[m] == self.matrix@[m]@);
                }
            }
            fitness_vec.push(total_flow_time(&self.matrix, s));
        }
        fitness_vec
    }
}

} // verus!
