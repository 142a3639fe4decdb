use vstd::prelude::*;
use crate::permu_utils::{argsort, is_index_permutation, is_stable_argsort};
use crate::population::{is_best_first, rank_best_first};
use crate::rk::Objective;

verus! {

/// Sum of the entries at position `j` of the members `rank[k]`, `k < t`.
pub open spec fn selected_sum(pop: Seq<Vec<usize>>, rank: Seq<usize>, j: int, t: int) -> int
    decreases t,
{
    if t <= 0 {
        0
    } else {
        selected_sum(pop, rank, j, t - 1) + pop[rank[t - 1] as int]@[j] as int
    }
}

proof fn lemma_selected_sum_bound(pop: Seq<Vec<usize>>, rank: Seq<usize>, j: int, t: int, b: int)
    requires
        0 <= t <= rank.len(),
        0 <= b,
        forall|k: int| 0 <= k < t ==> (pop[#[trigger] rank[k] as int]@[j] as int) <= b,
    ensures
        0 <= selected_sum(pop, rank, j, t) <= t * b,
    decreases t,
{
    if t > 0 {
        lemma_selected_sum_bound(pop, rank, j, t - 1, b);
        assert((t - 1) * b + b == t * b) by (nonlinear_arith);
    }
}

/// The learned state of a rank-key model in exact form: the mean key of
/// position `j` is `sums[j] / denominator`, where `sums[j]` adds the entries
/// at `j` of the selected members and `denominator` is `(n - 1)` times the
/// population size (the keys are rescaled to `[0, 1]` by `n - 1`, and the mean
/// divides by the whole population, not by the selection).
pub struct RankKeyMeans {
    /// Per position, the sum of the selected members' entries.
    pub sums: Vec<u64>,
    /// `(n - 1)` times the population size.
    pub denominator: u64,
}

/// The best `n_select` members of `pop` under `obj` give the exact means of
/// the rank-key model: sums per position over the selection, over
/// `(n - 1) * pop.len()`.
pub fn learn_means(pop: &Vec<Vec<usize>>, fitness: &Vec<usize>, n_select: usize, obj: Objective) -> (r: RankKeyMeans)
    requires
        pop@.len() == fitness@.len(),
        1 <= n_select <= pop@.len(),
        pop@.len() <= 0xFFFF_FFFF,
        forall|k: int| 0 <= k < pop@.len() ==> (#[trigger] pop@[k])@.len() == pop@[0]@.len(),
        pop@[0]@.len() <= 0xFFFF,
        forall|k: int, j: int| 0 <= k < pop@.len() && 0 <= j < pop@[0]@.len() ==> (#[trigger] pop@[k]@[j] as int) < pop@[0]@.len(),
    ensures
        r.sums@.len() == pop@[0]@.len(),
        r.denominator as int == (if pop@[0]@.len() == 0 { 0 } else { pop@[0]@.len() - 1 }) * pop@.len(),
        exists|rank: Seq<usize>| #[trigger] is_best_first(fitness@, obj, rank) && rank.len() == pop@.len()
            && forall|j: int| 0 <= j < r.sums@.len() ==> #[trigger] r.sums@[j] as int == selected_sum(pop@, rank, j, n_select as int),
{
    let n = pop[0].len();
    let m = pop.len();
    let rank = rank_best_first(fitness, obj);
    let mut sums: Vec<u64> = Vec::new();
    for j in 0..n
        invariant
            n == pop@[0]@.len(),
            m == pop@.len(),
            n <= 0xFFFF,
            m <= 0xFFFF_FFFF,
            1 <= n_select <= m,
            rank@.len() == m,
            is_index_permutation(rank@),
            forall|k: int| 0 <= k < pop@.len() ==> (#[trigger] pop@[k])@.len() == n,
            forall|k: int, t: int| 0 <= k < pop@.len() && 0 <= t < n ==> (#[trigger] pop@[k]@[t] as int) < n,
            sums@.len() == j,
            forall|t: int| 0 <= t < j ==> #[trigger] sums@[t] as int == selected_sum(pop@, rank@, t, n_select as int),
    {
        let mut s: u64 = 0;
        for k in 0..n_select
            invariant
                n == pop@[0]@.len(),
                m == pop@.len(),
                n <= 0xFFFF,
                m <= 0xFFFF_FFFF,
                j < n,
                n_select <= m,
                rank@.len() == m,
                is_index_permutation(rank@),
                forall|a: int| 0 <= a < pop@.len() ==> (#[trigger] pop@[a])@.len() == n,
                forall|a: int, t: int| 0 <= a < pop@.len() && 0 <= t < n ==> (#[trigger] pop@[a]@[t] as int) < n,
                s == selected_sum(pop@, rank@, j as int, k as int),
        {
            proof {
                lemma_selected_sum_bound(pop@, rank@, j as int, k as int, n as int);
                assert(k * n <= 0xFFFF_FFFF * 0xFFFF) by (nonlinear_arith)
                    requires k <= 0xFFFF_FFFF, n <= 0xFFFF, 0 <= k, 0 <= n;
                assert((pop@[rank@[k as int] as int]@[j as int] as int) < n);
            }
            s = s + pop[rank[k]][j] as u64;
        }
        sums.push(s);
    }
    proof {
        assert((n as int) * (m as int) <= 0xFFFF * 0xFFFF_FFFF) by (nonlinear_arith)
            requires n <= 0xFFFF, m <= 0xFFFF_FFFF, 0 <= n, 0 <= m;
        assert(((if n == 0 { 0 } else { n - 1 }) as int) * (m as int) <= (n as int) * (m as int)) by (nonlinear_arith)
            requires 0 <= m, 0 <= n;
    }
    let denominator: u64 = if n == 0 { 0 } else { (n as u64 - 1) * m as u64 };
    RankKeyMeans { sums, denominator }
}

/// The permutation a rank-key vector gives: its indices ordered by ascending
/// key, ties by index. The keys are order-preserving codes of the sampled
/// real values.
pub fn permutation_from_keys(keys: &Vec<usize>) -> (r: Vec<usize>)
    ensures
        is_stable_argsort(keys@, r@),
        r@.len() == keys@.len(),
        is_index_permutation(r@),
{
    argsort(keys)
}

} // verus!
