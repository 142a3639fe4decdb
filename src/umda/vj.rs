use vstd::prelude::*;
use crate::umda::{allowed_total, can_add_one, can_remove_one, cells, diagonal_limit, laplace_shift, pick_value, row_sum, shift_cells};
use crate::permu_utils::{is_permutation, is_rank_code, vj2permu, vj_decode};
use crate::rng::random_below;

verus! {

/// Width of a rank-code count matrix: the length of its first row.
pub open spec fn first_row_len(m: Seq<Vec<usize>>) -> int {
    if m.len() == 0 { 0 } else { m[0]@.len() as int }
}

/// Additive smoothing of a rank-code count matrix on its shrinking domain:
/// row `i` has its first `w - i` cells changed, `w` being the length of the
/// first row. Adds one, or with `reverse` takes one away.
pub fn laplace_diagonal(m: &mut Vec<Vec<usize>>, reverse: bool)
    requires
        !reverse ==> can_add_one(cells(old(m)@), diagonal_limit(first_row_len(old(m)@))),
        reverse ==> can_remove_one(cells(old(m)@), diagonal_limit(first_row_len(old(m)@))),
    ensures
        cells(final(m)@) == laplace_shift(cells(old(m)@), diagonal_limit(first_row_len(old(m)@)), if reverse { -1 } else { 1 }),
{
    let ghost lim = diagonal_limit(first_row_len(m@));
    let rows = m.len();
    let mut row_max: usize = if rows == 0 { 0 } else { m[0].len() };
    let mut bound: Vec<usize> = Vec::new();
    for i in 0..rows
        invariant
            rows == m@.len(),
            bound@.len() == i,
            lim == diagonal_limit(first_row_len(m@)),
            row_max as int == if first_row_len(m@) - i < 0 { 0 } else { first_row_len(m@) - i },
            forall|t: int| 0 <= t < i ==> #[trigger] bound@[t] as int == if lim(t) < 0 { 0 } else if lim(t) > m@[t]@.len() { m@[t]@.len() as int } else { lim(t) },
    {
        let len = m[i].len();
        bound.push(if row_max < len { row_max } else { len });
        if row_max > 0 {
            row_max -= 1;
        }
    }
    proof {
        assert(cells(m@).len() == rows);
        assert forall|t: int| 0 <= t < rows implies #[trigger] cells(m@)[t] == m@[t]@ by {}
    }
    shift_cells(m, Ghost(lim), &bound, !reverse);
}

/// A rank-code count matrix: `rows` rows of `rows + 1` counts, each row's sum fitting in `usize`.
pub open spec fn is_code_matrix(m: Seq<Vec<usize>>) -> bool {
    &&& m.len() < 256
    &&& forall|j: int| 0 <= j < m.len() ==> (#[trigger] m[j])@.len() == m.len() + 1
    &&& forall|j: int| 0 <= j < m.len() ==> row_sum(#[trigger] m[j]@) <= usize::MAX
}

/// Draws one permutation from a rank-code count matrix: for each position `j`
/// a rank is drawn from row `j` restricted to its domain `[0, n - j)` (a
/// threshold uniform below the row's total, then the first rank whose running
/// count exceeds it), and the drawn rank code is decoded into a permutation.
pub fn no_restriction_laplace(distr: &Vec<Vec<usize>>) -> (r: Vec<u8>)
    requires
        is_code_matrix(distr@),
    ensures
        r@.len() == distr@.len() + 1,
        is_permutation(r@),
{
    let rows = distr.len();
    let n = rows + 1;
    let mut code: Vec<u8> = Vec::new();
    for j in 0..rows
        invariant
            rows == distr@.len(),
            n == rows + 1,
            is_code_matrix(distr@),
            code@.len() == j,
            forall|k: int| 0 <= k < j ==> (#[trigger] code@[k] as int) < n - k,
    {
        let d = n - j;
        let mut allowed: Vec<bool> = Vec::new();
        for a in 0..n
            invariant
                allowed@.len() == a,
                forall|t: int| 0 <= t < a ==> #[trigger] allowed@[t] == (t < d),
        {
            allowed.push(a < d);
        }
        assert(allowed@[0]);
        let s_max = allowed_total(&distr[j], &allowed);
        let thr = if s_max == 0 { 0 } else { random_below(s_max) };
        let a = pick_value(&distr[j], &allowed, thr);
        code.push(a as u8);
    }
    let mut permu: Vec<u8> = Vec::new();
    for k in 0..n
        invariant
            permu@.len() == k,
    {
        permu.push(0);
    }
    assert(is_rank_code(code@));
    vj2permu(&code, &mut permu);
    permu
}

/// `v` is the first largest count among the first `d` cells of `row`.
pub open spec fn is_first_max(row: Seq<usize>, d: int, v: int) -> bool {
    &&& 0 <= v < d
    &&& forall|u: int| 0 <= u < d ==> row[u] <= row[v]
    &&& forall|u: int| 0 <= u < v ==> row[u] < row[v]
}

/// The most probable rank code: for each position, the first rank of largest
/// count within that position's domain.
pub fn mode(distribution: &Vec<Vec<usize>>) -> (r: Vec<u8>)
    requires
        distribution@.len() < 256,
        forall|j: int| 0 <= j < distribution@.len() ==> (#[trigger] distribution@[j])@.len() == distribution@.len() + 1,
    ensures
        r@.len() == distribution@.len(),
        is_rank_code(r@),
        forall|j: int| 0 <= j < r@.len() ==> is_first_max(distribution@[j]@, distribution@.len() + 1 - j, #[trigger] r@[j] as int),
{
    let rows = distribution.len();
    let mut result: Vec<u8> = Vec::new();
    for pos in 0..rows
        invariant
            rows == distribution@.len(),
            rows < 256,
            forall|j: int| 0 <= j < rows ==> (#[trigger] distribution@[j])@.len() == rows + 1,
            result@.len() == pos,
            forall|j: int| 0 <= j < pos ==> is_first_max(distribution@[j]@, rows + 1 - j, #[trigger] result@[j] as int),
    {
        let d = rows + 1 - pos;
        let mut best: usize = 0;
        for u in 1..d
            invariant
                rows == distribution@.len(),
                pos < rows,
                d == rows + 1 - pos,
                distribution@[pos as int]@.len() == rows + 1,
                best < u,
                forall|t: int| 0 <= t < u ==> distribution@[pos as int]@[t] <= distribution@[pos as int]@[best as int],
                forall|t: int| 0 <= t < best ==> distribution@[pos as int]@[t] < distribution@[pos as int]@[best as int],
        {
            if distribution[pos][u] > distribution[pos][best] {
                best = u;
            }
        }
        result.push(best as u8);
    }
    result
}

} // verus!
