use vstd::prelude::*;
use crate::hungarian::{is_max_assignment, usize_cells};
use crate::permu_utils::{is_permutation, probability_factors, vj2permu, vj_decode};

pub mod marginal;
pub mod vj;

verus! {

/// Upper bound on the number of survivors a model learns from, so that every
/// row of counts, smoothed or not, sums to a value that fits in `usize` and
/// every count is a weight the assignment solver accepts.
pub const MAX_SURVIVORS: usize = 0xF_FFFF;

/// The kind of count model.
#[derive(Debug, Clone, Copy, PartialEq, Eq, Structural)]
pub enum ModelType {
    /// One row of value counts per position.
    Marginal,
    /// Counts of rank codes: row `i` counts how many smaller values follow position `i`.
    Vj,
}

/// Why a model operation was refused.
#[derive(Debug, Clone, Copy, PartialEq, Eq, Structural)]
pub enum ModelError {
    /// Sampling, smoothing or mode before any successful `learn`.
    ModelNotLearned,
    /// `learn` was given no survivors.
    EmptySurvivorSet,
    /// A survivor's length or one of its entries does not fit the model's size.
    DimensionMismatch,
    /// Smoothing applied twice, or reversed when not applied.
    InvalidCountState,
}

/// Number of positions (rows) a model of this kind and size counts.
pub open spec fn positions(t: ModelType, size: nat) -> int {
    match t {
        ModelType::Marginal => size as int,
        ModelType::Vj => size - 1,
    }
}

/// Number of values position `pos` can take.
pub open spec fn domain(t: ModelType, size: nat, pos: int) -> int {
    match t {
        ModelType::Marginal => size as int,
        ModelType::Vj => size - pos,
    }
}

/// The cells that smoothing changes.
pub open spec fn smoothing_limit(t: ModelType, size: nat) -> spec_fn(int) -> int {
    match t {
        ModelType::Marginal => all_cells(),
        ModelType::Vj => diagonal_limit(size as int),
    }
}

/// A survivor a model of this kind and size can learn from: one entry per
/// position, each inside that position's domain.
pub open spec fn valid_survivor(t: ModelType, size: nat, s: Seq<u8>) -> bool {
    &&& s.len() == positions(t, size)
    &&& forall|i: int| 0 <= i < s.len() ==> (#[trigger] s[i] as int) < domain(t, size, i)
}

/// The cells of a matrix, row by row.
pub open spec fn cells(m: Seq<Vec<usize>>) -> Seq<Seq<usize>> {
    Seq::new(m.len(), |i: int| m[i]@)
}

/// A matrix of `rows` rows of `cols` cells each.
pub open spec fn has_shape(m: Seq<Seq<usize>>, rows: nat, cols: nat) -> bool {
    &&& m.len() == rows
    &&& forall|i: int| 0 <= i < rows ==> (#[trigger] m[i]).len() == cols
}

/// Number of members of `pop` whose entry at `pos` equals `val`.
pub open spec fn column_count(pop: Seq<Vec<u8>>, pos: int, val: int) -> nat
    decreases pop.len(),
{
    if pop.len() == 0 {
        0
    } else {
        column_count(pop.drop_last(), pos, val) + if pop.last()@[pos] == val { 1nat } else { 0nat }
    }
}

/// The count matrix of `pop`: cell `[pos][val]` is how many members hold `val` at `pos`.
pub open spec fn count_matrix_of(pop: Seq<Vec<u8>>, rows: nat, cols: nat) -> Seq<Seq<usize>> {
    Seq::new(rows, |j: int| Seq::new(cols, |a: int| column_count(pop, j, a) as usize))
}

/// Adds `delta` to every cell `[i][j]` with `j < limit(i)`, leaving the other cells.
pub open spec fn laplace_shift(m: Seq<Seq<usize>>, limit: spec_fn(int) -> int, delta: int) -> Seq<Seq<usize>> {
    Seq::new(
        m.len(),
        |i: int| Seq::new(m[i].len(), |j: int| if j < limit(i) { (m[i][j] + delta) as usize } else { m[i][j] }),
    )
}

/// Every cell of every row is smoothed.
pub open spec fn all_cells() -> spec_fn(int) -> int {
    |i: int| usize::MAX as int
}

/// Row `i` has its first `w - i` cells smoothed: the shrinking domain of rank codes.
pub open spec fn diagonal_limit(w: int) -> spec_fn(int) -> int {
    |i: int| w - i
}

/// Every cell that `limit` marks can take one more count.
pub open spec fn can_add_one(m: Seq<Seq<usize>>, limit: spec_fn(int) -> int) -> bool {
    forall|i: int, j: int| 0 <= i < m.len() && 0 <= j < m[i].len() && j < limit(i) ==> #[trigger] m[i][j] < usize::MAX
}

/// Every cell that `limit` marks holds at least one count.
pub open spec fn can_remove_one(m: Seq<Seq<usize>>, limit: spec_fn(int) -> int) -> bool {
    forall|i: int, j: int| 0 <= i < m.len() && 0 <= j < m[i].len() && j < limit(i) ==> #[trigger] m[i][j] >= 1
}

/// Smoothing followed by its reversal gives back exactly the counts it started from,
/// for any count matrix and any choice of smoothed cells.
pub proof fn lemma_laplace_round_trip(m: Seq<Seq<usize>>, limit: spec_fn(int) -> int)
    requires
        can_add_one(m, limit),
    ensures
        can_remove_one(laplace_shift(m, limit, 1), limit),
        laplace_shift(laplace_shift(m, limit, 1), limit, -1) == m,
{
    let s = laplace_shift(m, limit, 1);
    assert forall|i: int| 0 <= i < m.len() implies #[trigger] laplace_shift(s, limit, -1)[i] == m[i] by {
        assert(laplace_shift(s, limit, -1)[i] =~= m[i]);
    }
    assert(laplace_shift(s, limit, -1) =~= m);
}

/// Smoothing leaves the shape of the matrix as it was.
pub proof fn lemma_laplace_keeps_shape(m: Seq<Seq<usize>>, limit: spec_fn(int) -> int, delta: int)
    ensures
        laplace_shift(m, limit, delta).len() == m.len(),
        forall|i: int| 0 <= i < m.len() ==> (#[trigger] laplace_shift(m, limit, delta)[i]).len() == m[i].len(),
{
}

/// Adds `delta` (one or minus one) to the cells `[i][j]` with `j < limit(i)`.
pub(crate) fn shift_cells(m: &mut Vec<Vec<usize>>, limit: Ghost<spec_fn(int) -> int>, bound: &Vec<usize>, delta_up: bool)
    requires
        bound@.len() == old(m)@.len(),
        forall|i: int| 0 <= i < bound@.len() ==> #[trigger] bound@[i] as int == if limit@(i) < 0 { 0 } else if limit@(i) > old(m)@[i]@.len() { old(m)@[i]@.len() as int } else { limit@(i) },
        delta_up ==> can_add_one(cells(old(m)@), limit@),
        !delta_up ==> can_remove_one(cells(old(m)@), limit@),
    ensures
        cells(final(m)@) == laplace_shift(cells(old(m)@), limit@, if delta_up { 1 } else { -1 }),
{
    let ghost target = laplace_shift(cells(old(m)@), limit@, if delta_up { 1 } else { -1 });
    let ghost orig = cells(old(m)@);
    let rows = m.len();
    let mut i: usize = 0;
    while i < rows
        invariant
            i <= rows,
            rows == m@.len(),
            rows == orig.len(),
            orig == cells(old(m)@),
            target == laplace_shift(orig, limit@, if delta_up { 1 } else { -1 }),
            bound@.len() == rows,
            forall|t: int| 0 <= t < bound@.len() ==> #[trigger] bound@[t] as int == if limit@(t) < 0 { 0 } else if limit@(t) > orig[t].len() { orig[t].len() as int } else { limit@(t) },
            delta_up ==> can_add_one(orig, limit@),
            !delta_up ==> can_remove_one(orig, limit@),
            forall|t: int| 0 <= t < i ==> #[trigger] m@[t]@ == target[t],
            forall|t: int| i <= t < rows ==> #[trigger] m@[t]@ == orig[t],
        decreases rows - i,
    {
        let b = bound[i];
        let mut j: usize = 0;
        assert(m@[i as int]@ == orig[i as int]);
        while j < b
            invariant
                i < rows,
                rows == m@.len(),
                rows == orig.len(),
                j <= b,
                b as int == if limit@(i as int) < 0 { 0 } else if limit@(i as int) > orig[i as int].len() { orig[i as int].len() as int } else { limit@(i as int) },
                delta_up ==> can_add_one(orig, limit@),
                !delta_up ==> can_remove_one(orig, limit@),
                m@[i as int]@.len() == orig[i as int].len(),
                forall|k: int| 0 <= k < j ==> #[trigger] m@[i as int]@[k] == target[i as int][k],
                forall|k: int| j <= k < orig[i as int].len() ==> #[trigger] m@[i as int]@[k] == orig[i as int][k],
                forall|t: int| 0 <= t < i ==> #[trigger] m@[t]@ == target[t],
                forall|t: int| i < t < rows ==> #[trigger] m@[t]@ == orig[t],
                target == laplace_shift(orig, limit@, if delta_up { 1 } else { -1 }),
            decreases b - j,
        {
            let c = m[i][j];
            assert(orig[i as int][j as int] == c);
            let ghost before = m@;
            if delta_up {
                m[i].set(j, c + 1);
            } else {
                m[i].set(j, c - 1);
            }
            assert forall|t: int| 0 <= t < rows && t != i implies #[trigger] m@[t] == before[t] by {}
            j += 1;
        }
        proof {
            assert forall|k: int| 0 <= k < orig[i as int].len() implies #[trigger] m@[i as int]@[k] == target[i as int][k] by {}
            assert(m@[i as int]@ =~= target[i as int]);
        }
        i += 1;
    }
    proof {
        assert(cells(m@) =~= target);
    }
}

proof fn lemma_column_count_bound(pop: Seq<Vec<u8>>, pos: int, val: int)
    ensures
        column_count(pop, pos, val) <= pop.len(),
    decreases pop.len(),
{
    if pop.len() > 0 {
        lemma_column_count_bound(pop.drop_last(), pos, val);
    }
}

proof fn lemma_count_matrix_bound(pop: Seq<Vec<u8>>, rows: nat, cols: nat)
    ensures
        has_shape(count_matrix_of(pop, rows, cols), rows, cols),
        forall|j: int, a: int| 0 <= j < rows && 0 <= a < cols ==> #[trigger] count_matrix_of(pop, rows, cols)[j][a] <= pop.len(),
{
    assert forall|j: int, a: int| 0 <= j < rows && 0 <= a < cols implies #[trigger] count_matrix_of(pop, rows, cols)[j][a] <= pop.len() by {
        lemma_column_count_bound(pop, j, a);
    }
}

/// Sums, position by position, how often each value occurs among the members
/// of `pop`: the result has `rows` rows of `cols` counts.
pub fn count_matrix(pop: &Vec<Vec<u8>>, rows: usize, cols: usize) -> (r: Vec<Vec<usize>>)
    requires
        forall|k: int| 0 <= k < pop@.len() ==> (#[trigger] pop@[k])@.len() == rows,
        forall|k: int, j: int| 0 <= k < pop@.len() && 0 <= j < rows ==> (#[trigger] pop@[k]@[j] as int) < cols,
    ensures
        cells(r@) == count_matrix_of(pop@, rows as nat, cols as nat),
{
    let mut distr: Vec<Vec<usize>> = Vec::new();
    for j in 0..rows
        invariant
            distr@.len() == j,
            forall|t: int| 0 <= t < j ==> (#[trigger] distr@[t])@ == Seq::new(cols as nat, |a: int| 0usize),
    {
        let mut row: Vec<usize> = Vec::new();
        for a in 0..cols
            invariant
                row@ == Seq::new(a as nat, |t: int| 0usize),
        {
            row.push(0);
        }
        distr.push(row);
    }
    let m = pop.len();
    let mut i: usize = 0;
    while i < m
        invariant
            i <= m,
            m == pop@.len(),
            forall|k: int| 0 <= k < pop@.len() ==> (#[trigger] pop@[k])@.len() == rows,
            forall|k: int, j: int| 0 <= k < pop@.len() && 0 <= j < rows ==> (#[trigger] pop@[k]@[j] as int) < cols,
            has_shape(cells(distr@), rows as nat, cols as nat),
            forall|j: int, a: int| 0 <= j < rows && 0 <= a < cols ==> #[trigger] distr@[j]@[a] == column_count(pop@.subrange(0, i as int), j, a),
        decreases m - i,
    {
        let ghost prev = pop@.subrange(0, i as int);
        let ghost next = pop@.subrange(0, i + 1);
        assert(next.drop_last() == prev);
        let mut j: usize = 0;
        while j < rows
            invariant
                i < m,
                m == pop@.len(),
                j <= rows,
                prev == pop@.subrange(0, i as int),
                next == pop@.subrange(0, i + 1),
                next.drop_last() == prev,
                forall|k: int| 0 <= k < pop@.len() ==> (#[trigger] pop@[k])@.len() == rows,
                forall|k: int, t: int| 0 <= k < pop@.len() && 0 <= t < rows ==> (#[trigger] pop@[k]@[t] as int) < cols,
                has_shape(cells(distr@), rows as nat, cols as nat),
                forall|t: int, a: int| 0 <= t < j && 0 <= a < cols ==> #[trigger] distr@[t]@[a] == column_count(next, t, a),
                forall|t: int, a: int| j <= t < rows && 0 <= a < cols ==> #[trigger] distr@[t]@[a] == column_count(prev, t, a),
            decreases rows - j,
        {
            let a = pop[i][j] as usize;
            proof {
                lemma_column_count_bound(prev, j as int, a as int);
                assert(next.last() == pop@[i as int]);
                assert((pop@[i as int]@[j as int] as int) < cols);
                assert(cells(distr@)[j as int].len() == cols);
            }
            let c = distr[j][a];
            let ghost before = distr@;
            distr[j].set(a, c + 1);
            proof {
                assert forall|t: int| 0 <= t < rows && t != j implies #[trigger] distr@[t] == before[t] by {}
                assert forall|t: int| 0 <= t < rows implies (#[trigger] cells(distr@)[t]).len() == cols by {
                    if t != j {
                        assert(distr@[t] == before[t]);
                        assert(cells(before)[t].len() == cols);
                    }
                }
                assert forall|t: int, b: int| 0 <= t < j + 1 && 0 <= b < cols implies #[trigger] distr@[t]@[b] == column_count(next, t, b) by {
                    assert(next.last() == pop@[i as int]);
                }
            }
            j += 1;
        }
        i += 1;
    }
    proof {
        assert(pop@.subrange(0, m as int) == pop@);
        assert(cells(distr@) =~= count_matrix_of(pop@, rows as nat, cols as nat)) by {
            assert forall|j: int| 0 <= j < rows implies #[trigger] cells(distr@)[j] =~= count_matrix_of(pop@, rows as nat, cols as nat)[j] by {
                assert forall|a: int| 0 <= a < cols implies distr@[j]@[a] == column_count(pop@, j, a) as usize by {
                    lemma_column_count_bound(pop@, j, a);
                }
            }
        }
    }
    distr
}

/// Sum of `row[v]` over the `v < k`.
pub open spec fn prefix_sum(row: Seq<usize>, k: int) -> nat
    decreases k,
{
    if k <= 0 {
        0
    } else {
        prefix_sum(row, k - 1) + row[k - 1] as nat
    }
}

/// Sum of all cells of a row.
pub open spec fn row_sum(row: Seq<usize>) -> nat {
    prefix_sum(row, row.len() as int)
}

/// Prefix sums of a row of counts only grow.
pub proof fn lemma_prefix_monotone(row: Seq<usize>, i: int, j: int)
    requires
        0 <= i <= j,
    ensures
        prefix_sum(row, i) <= prefix_sum(row, j),
    decreases j - i,
{
    if i < j {
        lemma_prefix_monotone(row, i, j - 1);
    }
}

/// Sum of `row[v]` over the `v < k` that `allowed` marks.
pub open spec fn allowed_sum(row: Seq<usize>, allowed: Seq<bool>, k: int) -> nat
    decreases k,
{
    if k <= 0 {
        0
    } else {
        allowed_sum(row, allowed, k - 1) + if allowed[k - 1] { row[k - 1] as nat } else { 0 }
    }
}

/// The value drawn for threshold `r`: the allowed `v` whose cumulative
/// allowed count passes `r` at `v` (`allowed_sum(v) <= r < allowed_sum(v + 1)`);
/// when no count passes `r` (every allowed count is zero), the first allowed value.
pub open spec fn is_pick(row: Seq<usize>, allowed: Seq<bool>, r: int, v: int) -> bool {
    &&& 0 <= v < row.len()
    &&& allowed[v]
    &&& if r < allowed_sum(row, allowed, row.len() as int) {
        allowed_sum(row, allowed, v) <= r < allowed_sum(row, allowed, v + 1)
    } else {
        forall|u: int| 0 <= u < v ==> !#[trigger] allowed[u]
    }
}

proof fn lemma_sums_monotone(row: Seq<usize>, allowed: Seq<bool>, i: int, j: int)
    requires
        0 <= i <= j,
    ensures
        allowed_sum(row, allowed, i) <= allowed_sum(row, allowed, j),
        allowed_sum(row, allowed, j) <= prefix_sum(row, j),
        prefix_sum(row, i) <= prefix_sum(row, j),
    decreases j,
{
    if j > 0 {
        if i < j {
            lemma_sums_monotone(row, allowed, i, j - 1);
        } else {
            lemma_sums_monotone(row, allowed, j - 1, j - 1);
        }
    }
}

/// Sum of the counts of `row` at the allowed values.
pub fn allowed_total(row: &Vec<usize>, allowed: &Vec<bool>) -> (r: usize)
    requires
        row@.len() == allowed@.len(),
        row_sum(row@) <= usize::MAX,
    ensures
        r == allowed_sum(row@, allowed@, row@.len() as int),
{
    let mut s: usize = 0;
    let n = row.len();
    for i in 0..n
        invariant
            n == row@.len(),
            n == allowed@.len(),
            row_sum(row@) <= usize::MAX,
            s == allowed_sum(row@, allowed@, i as int),
    {
        proof {
            lemma_sums_monotone(row@, allowed@, i + 1, n as int);
        }
        if allowed[i] {
            s = s + row[i];
        }
    }
    s
}

/// Walks the allowed values in ascending order, accumulating their counts,
/// and returns the first one at which the running sum exceeds `r`; when no
/// running sum does, the first allowed value.
pub fn pick_value(row: &Vec<usize>, allowed: &Vec<bool>, r: usize) -> (v: usize)
    requires
        row@.len() == allowed@.len(),
        row_sum(row@) <= usize::MAX,
        exists|u: int| 0 <= u < allowed@.len() && #[trigger] allowed@[u],
    ensures
        is_pick(row@, allowed@, r as int, v as int),
{
    let n = row.len();
    let mut s: usize = 0;
    let mut first: usize = n;
    let mut i: usize = 0;
    while i < n
        invariant
            i <= n,
            n == row@.len(),
            n == allowed@.len(),
            row_sum(row@) <= usize::MAX,
            s == allowed_sum(row@, allowed@, i as int),
            s <= r,
            first == n ==> forall|u: int| 0 <= u < i ==> !#[trigger] allowed@[u],
            first != n ==> first < i && allowed@[first as int] && forall|u: int| 0 <= u < first ==> !#[trigger] allowed@[u],
        decreases n - i,
    {
        proof {
            lemma_sums_monotone(row@, allowed@, i + 1, n as int);
        }
        if allowed[i] {
            if first == n {
                first = i;
            }
            s = s + row[i];
            if s > r {
                proof {
                    lemma_sums_monotone(row@, allowed@, i + 1, n as int);
                }
                return i;
            }
        }
        i += 1;
    }
    proof {
        if first == n {
            let u = choose|u: int| 0 <= u < allowed@.len() && #[trigger] allowed@[u];
            assert(!allowed@[u]);
        }
    }
    first
}

proof fn lemma_prefix_sum_bound(row: Seq<usize>, k: int, b: int)
    requires
        0 <= k <= row.len(),
        0 <= b,
        forall|i: int| 0 <= i < row.len() ==> #[trigger] row[i] <= b,
    ensures
        prefix_sum(row, k) <= k * b,
    decreases k,
{
    if k > 0 {
        lemma_prefix_sum_bound(row, k - 1, b);
        assert((k - 1) * b + b == k * b) by (nonlinear_arith);
    }
}

/// Copies a matrix cell by cell.
pub fn copy_matrix(m: &Vec<Vec<usize>>) -> (r: Vec<Vec<usize>>)
    ensures
        cells(r@) == cells(m@),
{
    let mut out: Vec<Vec<usize>> = Vec::new();
    let rows = m.len();
    for i in 0..rows
        invariant
            rows == m@.len(),
            out@.len() == i,
            forall|t: int| 0 <= t < i ==> #[trigger] out@[t]@ == m@[t]@,
    {
        let mut row: Vec<usize> = Vec::new();
        let cols = m[i].len();
        for j in 0..cols
            invariant
                rows == m@.len(),
                i < rows,
                cols == m@[i as int]@.len(),
                row@ == m@[i as int]@.subrange(0, j as int),
        {
            row.push(m[i][j]);
        }
        assert(row@ == m@[i as int]@.subrange(0, m@[i as int]@.len() as int));
        assert(row@ =~= m@[i as int]@);
        out.push(row);
    }
    assert(cells(out@) =~= cells(m@));
    out
}

/// Checks that `s` has one entry per position of the model and that each
/// entry lies in its position's domain.
pub fn survivor_fits(t: ModelType, size: usize, s: &Vec<u8>) -> (r: bool)
    ensures
        r == valid_survivor(t, size as nat, s@),
{
    let rows: usize = match t {
        ModelType::Marginal => size,
        ModelType::Vj => {
            if size == 0 {
                return false;
            }
            size - 1
        },
    };
    if s.len() != rows {
        return false;
    }
    let mut i: usize = 0;
    while i < rows
        invariant
            i <= rows,
            rows == s@.len(),
            rows == positions(t, size as nat),
            forall|k: int| 0 <= k < i ==> (#[trigger] s@[k] as int) < domain(t, size as nat, k),
        decreases rows - i,
    {
        let limit: usize = match t {
            ModelType::Marginal => size,
            ModelType::Vj => size - i,
        };
        if s[i] as usize >= limit {
            return false;
        }
        i += 1;
    }
    true
}

/// A probabilistic model over permutations, estimated from counts.
pub struct Model {
    /// The counts, row per position, once learned.
    pub distribution: Option<Vec<Vec<usize>>>,
    size: usize,
    /// The kind of model.
    pub model_type: ModelType,
    smoothed: bool,
    learned_from: Ghost<Seq<Vec<u8>>>,
}

/// The count matrix a model of this kind and size learns from `pop`.
pub open spec fn learned_counts(t: ModelType, size: nat, pop: Seq<Vec<u8>>) -> Seq<Seq<usize>> {
    count_matrix_of(pop, positions(t, size) as nat, size)
}

impl Model {
    /// Length of the permutations the model describes.
    pub closed spec fn spec_size(&self) -> nat {
        self.size as nat
    }

    /// The kind of model.
    pub closed spec fn spec_model_type(&self) -> ModelType {
        self.model_type
    }

    /// Whether Laplace smoothing is currently applied to the counts.
    pub closed spec fn is_smoothed(&self) -> bool {
        self.smoothed
    }

    /// The survivors of the last successful `learn`.
    pub closed spec fn survivors(&self) -> Seq<Vec<u8>> {
        self.learned_from@
    }

    /// The counts the model holds, if it has learned.
    pub closed spec fn counts(&self) -> Option<Seq<Seq<usize>>> {
        match self.distribution {
            Some(d) => Some(cells(d@)),
            None => None,
        }
    }

    /// The counts are those of the last survivors, smoothed when the flag says so.
    pub closed spec fn wf(&self) -> bool {
        &&& self.size <= 256
        &&& self.learned_from@.len() <= MAX_SURVIVORS
        &&& forall|k: int| 0 <= k < self.learned_from@.len() ==> valid_survivor(self.model_type, self.size as nat, #[trigger] self.learned_from@[k]@)
        &&& match self.distribution {
            None => !self.smoothed,
            Some(d) => {
                &&& self.learned_from@.len() > 0
                &&& positions(self.model_type, self.size as nat) >= 0
                &&& cells(d@) == if self.smoothed {
                    laplace_shift(learned_counts(self.model_type, self.size as nat, self.learned_from@), smoothing_limit(self.model_type, self.size as nat), 1)
                } else {
                    learned_counts(self.model_type, self.size as nat, self.learned_from@)
                }
            },
        }
    }

    /// A model of permutations of length `size` that has not learned yet.
    pub fn new(size: usize, model_type: ModelType) -> (r: Model)
        requires
            size <= 256,
        ensures
            r.wf(),
            r.spec_size() == size,
            r.spec_model_type() == model_type,
            r.counts() is None,
            !r.is_smoothed(),
    {
        Model { size: size, model_type: model_type, distribution: None, smoothed: false, learned_from: Ghost(Seq::empty()) }
    }

    /// A copy of the counts, or `ModelNotLearned` before any `learn`.
    pub fn clone_distribution(&self) -> (r: Result<Vec<Vec<usize>>, ModelError>)
        ensures
            self.counts() is None ==> r == Err::<Vec<Vec<usize>>, ModelError>(ModelError::ModelNotLearned),
            self.counts() is Some ==> r is Ok && Some(cells(r->Ok_0@)) == self.counts(),
    {
        match &self.distribution {
            Some(d) => Ok(copy_matrix(d)),
            None => Err(ModelError::ModelNotLearned),
        }
    }

    /// Rebuilds the counts from `pop`, dropping whatever the model held. With
    /// no survivors the result is `EmptySurvivorSet`; with a survivor that does
    /// not fit the model's size it is `DimensionMismatch`. On error the model
    /// is left as it was.
    pub fn learn_distribution(&mut self, pop: &Vec<Vec<u8>>) -> (r: Result<(), ModelError>)
        requires
            old(self).wf(),
            pop@.len() <= MAX_SURVIVORS,
        ensures
            final(self).wf(),
            pop@.len() == 0 ==> r == Err::<(), ModelError>(ModelError::EmptySurvivorSet),
            pop@.len() > 0 && (exists|k: int| 0 <= k < pop@.len() && !valid_survivor(old(self).spec_model_type(), old(self).spec_size(), #[trigger] pop@[k]@))
                ==> r == Err::<(), ModelError>(ModelError::DimensionMismatch),
            r is Err ==> *final(self) == *old(self),
            r is Ok <==> pop@.len() > 0 && (forall|k: int| 0 <= k < pop@.len() ==> valid_survivor(old(self).spec_model_type(), old(self).spec_size(), #[trigger] pop@[k]@)),
            r is Ok ==> learn_post(*old(self), pop@, *final(self)),
    {
        if pop.len() == 0 {
            return Err(ModelError::EmptySurvivorSet);
        }
        let mut k: usize = 0;
        while k < pop.len()
            invariant
                k <= pop@.len(),
                *self == *old(self),
                old(self).wf(),
                forall|t: int| 0 <= t < k ==> valid_survivor(self.model_type, self.size as nat, #[trigger] pop@[t]@),
            decreases pop@.len() - k,
        {
            if !survivor_fits(self.model_type, self.size, &pop[k]) {
                return Err(ModelError::DimensionMismatch);
            }
            k += 1;
        }
        assert(valid_survivor(self.model_type, self.size as nat, pop@[0]@));
        let rows: usize = match self.model_type {
            ModelType::Marginal => self.size,
            ModelType::Vj => self.size - 1,
        };
        assert forall|t: int| 0 <= t < pop@.len() implies (#[trigger] pop@[t])@.len() == rows by {
            assert(valid_survivor(self.model_type, self.size as nat, pop@[t]@));
        }
        assert forall|t: int, j: int| 0 <= t < pop@.len() && 0 <= j < rows implies (#[trigger] pop@[t]@[j] as int) < self.size by {
            assert(valid_survivor(self.model_type, self.size as nat, pop@[t]@));
        }
        let d = count_matrix(pop, rows, self.size);
        self.distribution = Some(d);
        self.smoothed = false;
        self.learned_from = Ghost(pop@);
        Ok(())
    }

    /// Applies Laplace smoothing (`reverse == false`) or takes it away
    /// (`reverse == true`). Smoothing is paired: applying it twice, or taking
    /// it away when it is not applied, is `InvalidCountState`; before any
    /// `learn` it is `ModelNotLearned`. On error the model is left as it was.
    pub fn laplace(&mut self, reverse: bool) -> (r: Result<(), ModelError>)
        requires
            old(self).wf(),
        ensures
            final(self).wf(),
            old(self).counts() is None ==> r == Err::<(), ModelError>(ModelError::ModelNotLearned),
            old(self).counts() is Some && reverse != old(self).is_smoothed() ==> r == Err::<(), ModelError>(ModelError::InvalidCountState),
            r is Err ==> *final(self) == *old(self),
            r is Ok <==> old(self).counts() is Some && reverse == old(self).is_smoothed(),
            r is Ok ==> {
                &&& final(self).is_smoothed() == !reverse
                &&& final(self).spec_size() == old(self).spec_size()
                &&& final(self).spec_model_type() == old(self).spec_model_type()
                &&& final(self).survivors() == old(self).survivors()
                &&& final(self).counts() == Some(laplace_shift(old(self).counts()->Some_0, smoothing_limit(old(self).spec_model_type(), old(self).spec_size()), if reverse { -1 } else { 1 }))
            },
    {
        if self.distribution.is_none() {
            return Err(ModelError::ModelNotLearned);
        }
        if reverse != self.smoothed {
            return Err(ModelError::InvalidCountState);
        }
        let ghost base = learned_counts(self.model_type, self.size as nat, self.learned_from@);
        let ghost lim = smoothing_limit(self.model_type, self.size as nat);
        let ghost before = self.counts()->Some_0;
        proof {
            lemma_count_matrix_bound(self.learned_from@, positions(self.model_type, self.size as nat) as nat, self.size as nat);
            if reverse {
                lemma_laplace_round_trip(base, lim);
            }
        }
        let t = self.model_type;
        match &mut self.distribution {
            Some(d) => {
                match t {
                    ModelType::Marginal => {
                        marginal::laplace(d, reverse);
                    },
                    ModelType::Vj => {
                        proof {
                            if before.len() > 0 {
                                lemma_laplace_keeps_shape(base, lim, 1);
                                assert(cells(d@)[0] == d@[0]@);
                                assert(vj::first_row_len(d@) == self.size);
                            } else {
                                assert(laplace_shift(before, lim, 1) =~= laplace_shift(before, diagonal_limit(vj::first_row_len(d@)), 1));
                                assert(laplace_shift(before, lim, -1) =~= laplace_shift(before, diagonal_limit(vj::first_row_len(d@)), -1));
                            }
                        }
                        vj::laplace_diagonal(d, reverse);
                    },
                }
            },
            None => {},
        }
        self.smoothed = !reverse;
        Ok(())
    }

    /// Every count is at most one more than the number of survivors, every
    /// row has one cell per value and sums to a value that fits in `usize`.
    proof fn lemma_counts_bounded(&self)
        requires
            self.wf(),
            self.distribution is Some,
        ensures
            ({
                let d = self.distribution->Some_0@;
                &&& d.len() == positions(self.model_type, self.size as nat)
                &&& d.len() <= 256
                &&& forall|j: int| 0 <= j < d.len() ==> (#[trigger] d[j])@.len() == self.size
                &&& forall|j: int, a: int| 0 <= j < d.len() && 0 <= a < self.size ==> #[trigger] d[j]@[a] <= MAX_SURVIVORS + 1
                &&& forall|j: int| 0 <= j < d.len() ==> row_sum(#[trigger] d[j]@) <= 256 * (MAX_SURVIVORS + 1)
            }),
    {
        let d = self.distribution->Some_0@;
        let rows = positions(self.model_type, self.size as nat) as nat;
        let base = learned_counts(self.model_type, self.size as nat, self.learned_from@);
        let lim = smoothing_limit(self.model_type, self.size as nat);
        lemma_count_matrix_bound(self.learned_from@, rows, self.size as nat);
        lemma_laplace_keeps_shape(base, lim, 1);
        assert(cells(d).len() == d.len());
        assert forall|j: int| 0 <= j < d.len() implies (#[trigger] d[j])@.len() == self.size by {
            assert(cells(d)[j] == d[j]@);
        }
        assert forall|j: int, a: int| 0 <= j < d.len() && 0 <= a < self.size implies #[trigger] d[j]@[a] <= MAX_SURVIVORS + 1 by {
            assert(cells(d)[j] == d[j]@);
            assert(base[j][a] <= self.learned_from@.len());
        }
        assert forall|j: int| 0 <= j < d.len() implies row_sum(#[trigger] d[j]@) <= 256 * (MAX_SURVIVORS + 1) by {
            lemma_prefix_sum_bound(d[j]@, d[j]@.len() as int, MAX_SURVIVORS + 1);
            assert(d[j]@.len() * (MAX_SURVIVORS + 1) <= 256 * (MAX_SURVIVORS + 1)) by (nonlinear_arith)
                requires d[j]@.len() <= 256;
        }
    }

    /// Length of the permutations the model describes.
    pub fn size(&self) -> (r: usize)
        ensures
            r == self.spec_size(),
    {
        self.size
    }

    /// Fills every slot of `samples` with a permutation drawn from the model.
    /// The counts are smoothed for the draws and restored exactly afterwards.
    /// Before any `learn` the result is `ModelNotLearned`; while smoothing is
    /// applied by hand it is `InvalidCountState`. On error nothing changes.
    pub fn sample(&mut self, samples: &mut Vec<Vec<u8>>) -> (r: Result<(), ModelError>)
        requires
            old(self).wf(),
        ensures
            final(self).wf(),
            same_state(*final(self), *old(self)),
            old(self).counts() is None ==> r == Err::<(), ModelError>(ModelError::ModelNotLearned),
            old(self).counts() is Some && old(self).is_smoothed() ==> r == Err::<(), ModelError>(ModelError::InvalidCountState),
            r is Ok <==> old(self).counts() is Some && !old(self).is_smoothed(),
            r is Err ==> final(samples)@ == old(samples)@,
            r is Ok ==> final(samples)@.len() == old(samples)@.len(),
            r is Ok ==> forall|i: int| 0 <= i < final(samples)@.len() ==> (#[trigger] final(samples)@[i])@.len() == old(self).spec_size() && is_permutation(final(samples)@[i]@),
    {
        let ghost start = *self;
        let smoothing = self.laplace(false);
        if smoothing.is_err() {
            return smoothing;
        }
        proof {
            self.lemma_counts_bounded();
        }
        let n = samples.len();
        match &self.distribution {
            Some(d) => {
                let mut i: usize = 0;
                while i < n
                    invariant
                        i <= n,
                        n == samples@.len(),
                        d@.len() == positions(self.model_type, self.size as nat),
                        d@.len() <= 256,
                        self.size <= 256,
                        forall|j: int| 0 <= j < d@.len() ==> (#[trigger] d@[j])@.len() == self.size,
                        forall|j: int| 0 <= j < d@.len() ==> row_sum(#[trigger] d@[j]@) <= 256 * (MAX_SURVIVORS + 1),
                        forall|k: int| 0 <= k < i ==> (#[trigger] samples@[k])@.len() == self.size && is_permutation(samples@[k]@),
                    decreases n - i,
                {
                    let s = match self.model_type {
                        ModelType::Marginal => marginal::ad_hoc_random_laplace(d),
                        ModelType::Vj => vj::no_restriction_laplace(d),
                    };
                    samples.set(i, s);
                    i += 1;
                }
            },
            None => {},
        }
        let _restored = self.laplace(true);
        proof {
            let base = learned_counts(start.model_type, start.size as nat, start.learned_from@);
            lemma_count_matrix_bound(start.learned_from@, positions(start.model_type, start.size as nat) as nat, start.size as nat);
            lemma_laplace_round_trip(base, smoothing_limit(start.model_type, start.size as nat));
        }
        Ok(())
    }

    /// The most probable permutation under the smoothed counts, with the
    /// factors of its probability under the unsmoothed counts: one pair
    /// (count of the chosen cell, total of its row) per position. For a
    /// marginal model the permutation is the assignment of largest smoothed
    /// count; for a rank-code model it decodes the rank code that takes the
    /// first largest smoothed count in each row, and the factors are those of
    /// that code. The counts are restored exactly; errors as for `sample`.
    pub fn mode(&mut self) -> (r: Result<(Vec<u8>, Vec<(usize, usize)>), ModelError>)
        requires
            old(self).wf(),
        ensures
            final(self).wf(),
            same_state(*final(self), *old(self)),
            old(self).counts() is None ==> r == Err::<(Vec<u8>, Vec<(usize, usize)>), ModelError>(ModelError::ModelNotLearned),
            old(self).counts() is Some && old(self).is_smoothed() ==> r == Err::<(Vec<u8>, Vec<(usize, usize)>), ModelError>(ModelError::InvalidCountState),
            r is Ok <==> old(self).counts() is Some && !old(self).is_smoothed(),
            r is Ok ==> mode_result(*old(self), r->Ok_0.0@, r->Ok_0.1@),
    {
        let ghost start = *self;
        let smoothing = self.laplace(false);
        if smoothing.is_err() {
            return Err(smoothing.unwrap_err());
        }
        proof {
            self.lemma_counts_bounded();
        }
        let ghost smoothed_counts = self.counts()->Some_0;
        let choice: Vec<u8> = match &self.distribution {
            Some(d) => {
                match self.model_type {
                    ModelType::Marginal => {
                        proof {
                            assert forall|i: int| 0 <= i < d@.len() implies (#[trigger] usize_cells(d@)[i]).len() == d@.len() by {}
                            assert forall|i: int, j: int| 0 <= i < d@.len() && 0 <= j < d@.len() implies 0 <= #[trigger] usize_cells(d@)[i][j] <= crate::hungarian::MAX_WEIGHT as int by {}
                        }
                        marginal::mode(d)
                    },
                    ModelType::Vj => vj::mode(d),
                }
            },
            None => Vec::new(),
        };
        let ghost smoothed_d = self.distribution->Some_0@;
        let _restored = self.laplace(true);
        proof {
            let base = learned_counts(start.model_type, start.size as nat, start.learned_from@);
            lemma_count_matrix_bound(start.learned_from@, positions(start.model_type, start.size as nat) as nat, start.size as nat);
            lemma_laplace_round_trip(base, smoothing_limit(start.model_type, start.size as nat));
            self.lemma_counts_bounded();
        }
        let mut factors: Vec<(usize, usize)> = Vec::new();
        let mut permu: Vec<u8> = Vec::new();
        match &self.distribution {
            Some(d) => {
                factors = probability_factors(d, &choice);
                match self.model_type {
                    ModelType::Marginal => {
                        permu = choice;
                    },
                    ModelType::Vj => {
                        for k in 0..self.size
                            invariant
                                permu@.len() == k,
                        {
                            permu.push(0);
                        }
                        vj2permu(&choice, &mut permu);
                    },
                }
            },
            None => {},
        }
        proof {
            let counts = start.counts()->Some_0;
            let d = self.distribution->Some_0@;
            assert(cells(d) == counts);
            assert(smoothed_counts == laplace_shift(counts, smoothing_limit(start.model_type, start.size as nat), 1));
            assert(cells(smoothed_d) == smoothed_counts);
            assert(factors@ =~= Seq::new(counts.len(), |i: int| (counts[i][choice@[i] as int], row_sum(counts[i]) as usize)));
            match start.model_type {
                ModelType::Marginal => {
                    let sm = smoothed_counts;
                    assert(usize_cells(smoothed_d) =~= Seq::new(sm.len(), |i: int| Seq::new(sm[i].len(), |j: int| sm[i][j] as int))) by {
                        assert forall|i: int| 0 <= i < sm.len() implies #[trigger] usize_cells(smoothed_d)[i] =~= Seq::new(sm.len(), |i: int| Seq::new(sm[i].len(), |j: int| sm[i][j] as int))[i] by {
                            assert(sm[i] == smoothed_d[i]@);
                        }
                    }
                    assert(permu@ == choice@);
                },
                ModelType::Vj => {
                    assert(vj_decode(choice@) == permu@);
                    assert forall|j: int| 0 <= j < choice@.len() implies vj::is_first_max(smoothed_counts[j], counts.len() + 1 - j, #[trigger] choice@[j] as int) by {
                        assert(smoothed_counts[j] == smoothed_d[j]@);
                    }
                },
            }
        }
        Ok((permu, factors))
    }
}

/// `new` is what `learn` makes of `old` and `pop`: the same kind and size,
/// unsmoothed counts of `pop`.
pub open spec fn learn_post(old: Model, pop: Seq<Vec<u8>>, new: Model) -> bool {
    &&& new.spec_size() == old.spec_size()
    &&& new.spec_model_type() == old.spec_model_type()
    &&& !new.is_smoothed()
    &&& new.survivors() == pop
    &&& new.counts() == Some(learned_counts(old.spec_model_type(), old.spec_size(), pop))
}

/// Two models in the same observable state: kind, size, smoothing flag,
/// survivors and counts.
pub open spec fn same_state(a: Model, b: Model) -> bool {
    &&& a.spec_size() == b.spec_size()
    &&& a.spec_model_type() == b.spec_model_type()
    &&& a.is_smoothed() == b.is_smoothed()
    &&& a.survivors() == b.survivors()
    &&& a.counts() == b.counts()
}

/// What `mode` returns for a learned, unsmoothed model `m`: `permu` and
/// `factors` as its documentation describes, `counts` being `m`'s counts.
pub open spec fn mode_result(m: Model, permu: Seq<u8>, factors: Seq<(usize, usize)>) -> bool {
    let counts = m.counts()->Some_0;
    let smoothed = laplace_shift(counts, smoothing_limit(m.spec_model_type(), m.spec_size()), 1);
    &&& permu.len() == m.spec_size()
    &&& is_permutation(permu)
    &&& match m.spec_model_type() {
        ModelType::Marginal => {
            &&& is_max_assignment(Seq::new(smoothed.len(), |i: int| Seq::new(smoothed[i].len(), |j: int| smoothed[i][j] as int)), permu.map_values(|c: u8| c as int))
            &&& factors == Seq::new(counts.len(), |i: int| (counts[i][permu[i] as int], row_sum(counts[i]) as usize))
        },
        ModelType::Vj => exists|code: Seq<u8>| {
            &&& #[trigger] vj_decode(code) == permu
            &&& code.len() == counts.len()
            &&& forall|j: int| 0 <= j < code.len() ==> vj::is_first_max(smoothed[j], counts.len() + 1 - j, #[trigger] code[j] as int)
            &&& factors == Seq::new(counts.len(), |i: int| (counts[i][code[i] as int], row_sum(counts[i]) as usize))
        },
    }
}

/// Learning twice in a row from the same survivors leaves the model in the
/// same state both times.
pub proof fn lemma_learn_idempotent(m0: Model, m1: Model, m2: Model, pop: Seq<Vec<u8>>)
    requires
        learn_post(m0, pop, m1),
        learn_post(m1, pop, m2),
    ensures
        m2.spec_size() == m1.spec_size(),
        m2.spec_model_type() == m1.spec_model_type(),
        m2.is_smoothed() == m1.is_smoothed(),
        m2.survivors() == m1.survivors(),
        m2.counts() == m1.counts(),
{
}

} // verus!
