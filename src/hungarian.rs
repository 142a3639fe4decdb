use vstd::prelude::*;
use crate::permu_utils::is_permutation;

verus! {

/// Largest weight the assignment solver is given, so that every label and
/// slack it computes over at most 256 rows stays far inside `isize`.
pub const MAX_WEIGHT: u64 = 0x10_0000;

/// A sequence of length `n` holding each value of `[0, n)` exactly once.
pub open spec fn is_int_permutation(p: Seq<int>) -> bool {
    &&& forall|i: int| 0 <= i < p.len() ==> 0 <= #[trigger] p[i] < p.len()
    &&& forall|i: int, j: int| 0 <= i < p.len() && 0 <= j < p.len() && i != j ==> #[trigger] p[i] != #[trigger] p[j]
}

/// Total weight of assigning row `i` to column `p[i]`, over the rows `i < k`.
pub open spec fn assignment_weight(m: Seq<Seq<int>>, p: Seq<int>, k: int) -> int
    decreases k,
{
    if k <= 0 {
        0
    } else {
        assignment_weight(m, p, k - 1) + m[k - 1][p[k - 1]]
    }
}

/// `p` assigns the rows of the `n`×`n` matrix `m` to distinct columns with the
/// largest total weight any such assignment reaches.
pub open spec fn is_max_assignment(m: Seq<Seq<int>>, p: Seq<int>) -> bool {
    &&& p.len() == m.len()
    &&& is_int_permutation(p)
    &&& forall|q: Seq<int>| #[trigger] is_int_permutation(q) && q.len() == m.len() ==> assignment_weight(m, q, m.len() as int) <= assignment_weight(m, p, m.len() as int)
}

/// The weights of a matrix of signed cells, as integers.
pub open spec fn isize_cells(m: Seq<Vec<isize>>) -> Seq<Seq<int>> {
    Seq::new(m.len(), |i: int| Seq::new(m[i]@.len(), |j: int| m[i]@[j] as int))
}

/// The weights of a matrix of counts, as integers.
pub open spec fn usize_cells(m: Seq<Vec<usize>>) -> Seq<Seq<int>> {
    Seq::new(m.len(), |i: int| Seq::new(m[i]@.len(), |j: int| m[i]@[j] as int))
}

/// A square matrix whose weights lie in `[0, MAX_WEIGHT]`.
pub open spec fn is_square_weights(m: Seq<Seq<int>>) -> bool {
    &&& m.len() <= 256
    &&& forall|i: int| 0 <= i < m.len() ==> (#[trigger] m[i]).len() == m.len()
    &&& forall|i: int, j: int| 0 <= i < m.len() && 0 <= j < m.len() ==> 0 <= #[trigger] m[i][j] <= MAX_WEIGHT as int
}

/// Relies on `pathfinding::kuhn_munkres::kuhn_munkres` over a `Matrix` built
/// by `Matrix::from_rows`: for a square matrix it returns, for every row, the
/// column it is assigned to in a maximum weight perfect matching. It panics
/// when there are more rows than columns or when a weight sum overflows,
/// which the square shape and the weight bound rule out.
#[verifier::external_body]
fn kuhn_munkres_assignment(m: &Vec<Vec<isize>>) -> (r: Vec<usize>)
    requires
        is_square_weights(isize_cells(m@)),
    ensures
        is_max_assignment(isize_cells(m@), r@.map_values(|c: usize| c as int)),
{
    let weights = pathfinding::matrix::Matrix::from_rows(m.clone()).unwrap();
    pathfinding::kuhn_munkres::kuhn_munkres(&weights).1
}

/// A weight matrix for the assignment solver.
pub struct W {
    matrix: Vec<Vec<isize>>,
}

impl W {
    /// The weights, as integers.
    pub closed spec fn weights(&self) -> Seq<Seq<int>> {
        isize_cells(self.matrix@)
    }

    /// Takes a count matrix as weights.
    pub fn from(m: &Vec<Vec<usize>>) -> (r: W)
        requires
            forall|i: int, j: int| 0 <= i < m@.len() && 0 <= j < m@[i]@.len() ==> #[trigger] m@[i]@[j] <= isize::MAX,
        ensures
            r.weights() == usize_cells(m@),
    {
        let mut v: Vec<Vec<isize>> = Vec::new();
        let rows = m.len();
        for i in 0..rows
            invariant
                rows == m@.len(),
                forall|a: int, b: int| 0 <= a < m@.len() && 0 <= b < m@[a]@.len() ==> #[trigger] m@[a]@[b] <= isize::MAX,
                v@.len() == i,
                forall|t: int| 0 <= t < i ==> (#[trigger] v@[t])@.len() == m@[t]@.len() && forall|b: int| 0 <= b < m@[t]@.len() ==> v@[t]@[b] as int == m@[t]@[b] as int,
        {
            let mut l: Vec<isize> = Vec::new();
            let cols = m[i].len();
            for j in 0..cols
                invariant
                    rows == m@.len(),
                    i < rows,
                    cols == m@[i as int]@.len(),
                    forall|a: int, b: int| 0 <= a < m@.len() && 0 <= b < m@[a]@.len() ==> #[trigger] m@[a]@[b] <= isize::MAX,
                    l@.len() == j,
                    forall|b: int| 0 <= b < j ==> l@[b] as int == m@[i as int]@[b] as int,
            {
                l.push(m[i][j] as isize);
            }
            v.push(l);
        }
        let r = W { matrix: v };
        proof {
            assert forall|i: int| 0 <= i < rows implies #[trigger] isize_cells(v@)[i] =~= usize_cells(m@)[i] by {}
            assert(isize_cells(v@) =~= usize_cells(m@));
        }
        r
    }

    /// The row-to-column assignment of largest total weight, for a square matrix.
    pub fn hungarian(&self) -> (r: Vec<u8>)
        requires
            is_square_weights(self.weights()),
        ensures
            r@.len() == self.weights().len(),
            is_permutation(r@),
            is_max_assignment(self.weights(), r@.map_values(|c: u8| c as int)),
    {
        let result = kuhn_munkres_assignment(&self.matrix);
        let ghost cols = result@.map_values(|c: usize| c as int);
        let n = result.len();
        let mut v: Vec<u8> = Vec::new();
        for i in 0..n
            invariant
                n == result@.len(),
                n == self.weights().len(),
                n <= 256,
                cols == result@.map_values(|c: usize| c as int),
                is_int_permutation(cols),
                v@.len() == i,
                forall|t: int| 0 <= t < i ==> v@[t] as int == cols[t],
        {
            assert(cols[i as int] == result@[i as int] as int);
            v.push(result[i] as u8);
        }
        proof {
            assert(v@.map_values(|c: u8| c as int) =~= cols);
            assert forall|i: int| 0 <= i < n implies (#[trigger] v@[i] as int) < v@.len() by {
                assert(v@[i] as int == cols[i]);
            }
            assert forall|i: int, j: int| 0 <= i < n && 0 <= j < n && i != j implies #[trigger] v@[i] != #[trigger] v@[j] by {
                assert(v@[i] as int == cols[i]);
                assert(v@[j] as int == cols[j]);
            }
        }
        v
    }

    /// Number of rows.
    pub fn rows(&self) -> (r: usize)
        ensures
            r == self.weights().len(),
    {
        self.matrix.len()
    }

    /// Number of columns: the length of the first row.
    pub fn columns(&self) -> (r: usize)
        requires
            self.weights().len() > 0,
        ensures
            r == self.weights()[0].len(),
    {
        self.matrix[0].len()
    }

    /// The weight at `(row, col)`.
    pub fn at(&self, row: usize, col: usize) -> (r: isize)
        requires
            row < self.weights().len(),
            col < self.weights()[row as int].len(),
        ensures
            r as int == self.weights()[row as int][col as int],
    {
        self.matrix[row][col]
    }

    /// The matrix of negated weights, with the shape of the first row for every row.
    pub fn neg(&self) -> (r: W)
        requires
            forall|i: int| 0 <= i < self.weights().len() ==> (#[trigger] self.weights()[i]).len() == self.weights()[0].len(),
            forall|i: int, j: int| 0 <= i < self.weights().len() && 0 <= j < self.weights()[i].len() ==> #[trigger] self.weights()[i][j] > isize::MIN,
        ensures
            r.weights().len() == self.weights().len(),
            forall|i: int| 0 <= i < self.weights().len() ==> (#[trigger] r.weights()[i]).len() == self.weights()[i].len(),
            forall|i: int, j: int| 0 <= i < self.weights().len() && 0 <= j < self.weights()[i].len() ==> #[trigger] r.weights()[i][j] == -self.weights()[i][j],
    {
        let rows = self.matrix.len();
        let mut out: Vec<Vec<isize>> = Vec::new();
        for i in 0..rows
            invariant
                rows == self.matrix@.len(),
                rows == self.weights().len(),
                forall|a: int| 0 <= a < rows ==> (#[trigger] self.weights()[a]).len() == self.weights()[0].len(),
                forall|a: int, b: int| 0 <= a < rows && 0 <= b < self.weights()[a].len() ==> #[trigger] self.weights()[a][b] > isize::MIN,
                out@.len() == i,
                forall|t: int| 0 <= t < i ==> (#[trigger] out@[t])@.len() == self.matrix@[t]@.len() && forall|b: int| 0 <= b < self.matrix@[t]@.len() ==> out@[t]@[b] as int == -(self.matrix@[t]@[b] as int),
        {
            let cols = self.matrix[i].len();
            let mut row: Vec<isize> = Vec::new();
            for j in 0..cols
                invariant
                    rows == self.matrix@.len(),
                    rows == self.weights().len(),
                    i < rows,
                    cols == self.matrix@[i as int]@.len(),
                    forall|a: int, b: int| 0 <= a < rows && 0 <= b < self.weights()[a].len() ==> #[trigger] self.weights()[a][b] > isize::MIN,
                    row@.len() == j,
                    forall|b: int| 0 <= b < j ==> row@[b] as int == -(self.matrix@[i as int]@[b] as int),
            {
                assert(self.weights()[i as int][j as int] == self.matrix@[i as int]@[j as int] as int);
                row.push(-self.matrix[i][j]);
            }
            out.push(row);
        }
        W { matrix: out }
    }
}

} // verus!
