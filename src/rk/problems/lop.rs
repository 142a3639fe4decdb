use vstd::prelude::*;
use crate::permu_utils::is_index_permutation;
use crate::rk::errors::Errors;
use crate::rk::problems::Problem;

verus! {

/// Sum of `w[s[i]][s[j]]` over `i < j < k`.
pub open spec fn after_sum(w: Seq<Seq<usize>>, s: Seq<usize>, i: int, k: int) -> int
    decreases k - i,
{
    if k <= i + 1 {
        0
    } else {
        after_sum(w, s, i, k - 1) + w[s[i] as int][s[k - 1] as int] as int
    }
}

/// Sum of `w[s[i]][s[j]]` over all pairs `i < j` with `i < k`.
pub open spec fn pair_sum(w: Seq<Seq<usize>>, s: Seq<usize>, k: int) -> int
    decreases k,
{
    if k <= 0 {
        0
    } else {
        pair_sum(w, s, k - 1) + after_sum(w, s, k - 1, s.len() as int)
    }
}

proof fn lemma_after_sum_nonneg(w: Seq<Seq<usize>>, s: Seq<usize>, i: int, k: int)
    ensures
        0 <= after_sum(w, s, i, k),
    decreases k - i,
{
    if k > i + 1 {
        lemma_after_sum_nonneg(w, s, i, k - 1);
    }
}

proof fn lemma_after_sum_grows(w: Seq<Seq<usize>>, s: Seq<usize>, i: int, a: int, b: int)
    requires
        a <= b,
    ensures
        0 <= after_sum(w, s, i, a) <= after_sum(w, s, i, b),
    decreases b - a,
{
    lemma_after_sum_nonneg(w, s, i, a);
    if a < b {
        lemma_after_sum_grows(w, s, i, a, b - 1);
    }
}

proof fn lemma_pair_sum_grows(w: Seq<Seq<usize>>, s: Seq<usize>, a: int, b: int)
    requires
        0 <= a <= b,
    ensures
        0 <= pair_sum(w, s, a) <= pair_sum(w, s, b),
    decreases b,
{
    if b > 0 {
        lemma_after_sum_nonneg(w, s, b - 1, s.len() as int);
        if a < b {
            lemma_pair_sum_grows(w, s, a, b - 1);
        } else {
            lemma_pair_sum_grows(w, s, b - 1, b - 1);
        }
    }
}

/// A linear ordering instance: a square matrix of pair weights.
pub struct Lop {
    matrix: Vec<Vec<usize>>,
    size: usize,
}

impl Lop {
    /// The pair weights.
    pub closed spec fn weights(&self) -> Seq<Seq<usize>> {
        Seq::new(self.matrix@.len(), |i: int| self.matrix@[i]@)
    }

    /// An instance of size `size`; the matrix must have `size` rows of `size`
    /// weights, else `RowsDifferentLength`.
    pub fn from_matrix(size: usize, matrix: Vec<Vec<usize>>) -> (r: Result<Lop, Errors>)
        ensures
            r is Ok <==> matrix@.len() == size && forall|i: int| 0 <= i < size ==> (#[trigger] matrix@[i])@.len() == size,
            r is Err ==> r == Err::<Lop, Errors>(Errors::RowsDifferentLength),
            r is Ok ==> r->Ok_0.weights() == Seq::new(matrix@.len(), |i: int| matrix@[i]@) && r->Ok_0.spec_size() == size && r->Ok_0.well_formed(),
    {
        if matrix.len() != size {
            return Err(Errors::RowsDifferentLength);
        }
        for i in 0..size
            invariant
                matrix@.len() == size,
                forall|t: int| 0 <= t < i ==> (#[trigger] matrix@[t])@.len() == size,
        {
            if matrix[i].len() != size {
                return Err(Errors::RowsDifferentLength);
            }
        }
        Ok(Lop { matrix, size })
    }
}

impl Problem for Lop {
    closed spec fn spec_size(&self) -> nat {
        self.size as nat
    }

    closed spec fn well_formed(&self) -> bool {
        &&& self.matrix@.len() == self.size
        &&& forall|i: int| 0 <= i < self.size ==> (#[trigger] self.matrix@[i])@.len() == self.size
    }

    /// Sum of `w[s[i]][s[j]]` over all pairs of positions `i < j`.
    closed spec fn cost(&self, s: Seq<usize>) -> int {
        pair_sum(self.weights(), s, s.len() as int)
    }

    fn size(&self) -> (r: usize) {
        self.size
    }

    fn eval_population(&self, solutions: &Vec<Vec<usize>>) -> (r: Vec<usize>) {
        let mut fitness_vec: Vec<usize> = Vec::new();
        let ghost w = self.weights();
        for k in 0..solutions.len()
            invariant
                self.well_formed(),
                w == self.weights(),
                forall|a: int| 0 <= a < solutions@.len() ==> (#[trigger] solutions@[a])@.len() == self.spec_size() && is_index_permutation(solutions@[a]@) && self.cost(solutions@[a]@) <= usize::MAX,
                fitness_vec@.len() == k,
                forall|a: int| 0 <= a < k ==> #[trigger] fitness_vec@[a] == self.cost(solutions@[a]@),
        {
            let s = &solutions[k];
            let n = s.len();
            let ghost sq = s@;
            assert(pair_sum(w, sq, n as int) <= usize::MAX);
            let mut total: usize = 0;
            for i in 0..n
                invariant
                    n == sq.len(),
                    sq == s@,
                    n == self.size,
                    self.well_formed(),
                    w == self.weights(),
                    is_index_permutation(sq),
                    pair_sum(w, sq, n as int) <= usize::MAX,
                    total == pair_sum(w, sq, i as int),
            {
                proof {
                    lemma_pair_sum_grows(w, sq, i + 1, n as int);
                }
                for j in i + 1..n
                    invariant
                        n == sq.len(),
                        sq == s@,
                        n == self.size,
                        i < n,
                        self.well_formed(),
                        w == self.weights(),
                        is_index_permutation(sq),
                        pair_sum(w, sq, i + 1) <= usize::MAX,
                        total == pair_sum(w, sq, i as int) + after_sum(w, sq, i as int, j as int),
                {
                    proof {
                        lemma_after_sum_grows(w, sq, i as int, j + 1, n as int);
                        assert(w[sq[i as int] as int] == self.matrix@[sq[i as int] as int]@);
                    }
                    total = total + self.matrix[s[i]][s[j]];
                }
            }
            fitness_vec.push(total);
        }
        fitness_vec
    }
}

} // verus!
