use vstd::prelude::*;
use crate::permu_utils::{argsort, is_index_permutation, is_permutation, is_stable_argsort, permu2vj, rank_code};
use crate::rk::{better, Objective};
use crate::umda::ModelType;

verus! {

/// `r` ranks the indices of `fit` from best to worst under `obj`: ascending
/// fitness (stable) when minimizing, the reverse of that when maximizing.
pub open spec fn is_best_first(fit: Seq<usize>, obj: Objective, r: Seq<usize>) -> bool {
    match obj {
        Objective::Minimize => is_stable_argsort(fit, r),
        Objective::Maximize => is_stable_argsort(fit, r.reverse()),
    }
}

/// `r` ranks the indices of `fit` from worst to best under `obj`.
pub open spec fn is_worst_first(fit: Seq<usize>, obj: Objective, r: Seq<usize>) -> bool {
    match obj {
        Objective::Minimize => is_stable_argsort(fit, r.reverse()),
        Objective::Maximize => is_stable_argsort(fit, r),
    }
}

/// The reverse of `v`.
pub fn reversed(v: &Vec<usize>) -> (r: Vec<usize>)
    ensures
        r@ == v@.reverse(),
{
    let n = v.len();
    let mut out: Vec<usize> = Vec::new();
    for i in 0..n
        invariant
            n == v@.len(),
            out@.len() == i,
            forall|k: int| 0 <= k < i ==> out@[k] == v@[n - 1 - k],
    {
        out.push(v[n - 1 - i]);
    }
    assert(out@ =~= v@.reverse());
    out
}

proof fn lemma_reverse_reverse(s: Seq<usize>)
    ensures
        s.reverse().reverse() == s,
{
    assert(s.reverse().reverse() =~= s);
}

proof fn lemma_reverse_index_permutation(s: Seq<usize>)
    requires
        is_index_permutation(s),
    ensures
        is_index_permutation(s.reverse()),
        s.reverse().len() == s.len(),
{
    let r = s.reverse();
    assert forall|i: int| 0 <= i < r.len() implies (#[trigger] r[i] as int) < r.len() by {
        assert(r[i] == s[s.len() - 1 - i]);
    }
    assert forall|i: int, j: int| 0 <= i < r.len() && 0 <= j < r.len() && i != j implies #[trigger] r[i] != #[trigger] r[j] by {
        assert(r[i] == s[s.len() - 1 - i]);
        assert(r[j] == s[s.len() - 1 - j]);
    }
}

/// The indices of `fit` from best to worst under `obj`.
pub fn rank_best_first(fit: &Vec<usize>, obj: Objective) -> (r: Vec<usize>)
    ensures
        is_best_first(fit@, obj, r@),
        r@.len() == fit@.len(),
        is_index_permutation(r@),
{
    let asc = argsort(fit);
    match obj {
        Objective::Minimize => asc,
        Objective::Maximize => {
            let r = reversed(&asc);
            proof {
                lemma_reverse_reverse(asc@);
                lemma_reverse_index_permutation(asc@);
            }
            r
        },
    }
}

/// The indices of `fit` from worst to best under `obj`.
pub fn rank_worst_first(fit: &Vec<usize>, obj: Objective) -> (r: Vec<usize>)
    ensures
        is_worst_first(fit@, obj, r@),
        r@.len() == fit@.len(),
        is_index_permutation(r@),
{
    let asc = argsort(fit);
    match obj {
        Objective::Maximize => asc,
        Objective::Minimize => {
            let r = reversed(&asc);
            proof {
                lemma_reverse_reverse(asc@);
                lemma_reverse_index_permutation(asc@);
            }
            r
        },
    }
}

/// A copy of `v`.
pub fn copy_bytes(v: &Vec<u8>) -> (r: Vec<u8>)
    ensures
        r@ == v@,
{
    let mut out: Vec<u8> = Vec::new();
    for i in 0..v.len()
        invariant
            out@ == v@.subrange(0, i as int),
    {
        out.push(v[i]);
    }
    assert(out@ =~= v@);
    out
}

/// How a selected member is handed to a model of kind `t`: as it is for a
/// marginal model, as its rank code for a rank-code model.
pub open spec fn encoded(t: ModelType, s: Seq<u8>) -> Seq<u8> {
    match t {
        ModelType::Marginal => s,
        ModelType::Vj => rank_code(s),
    }
}

/// The best `n_select` members of `pop` under `obj`, best first, each encoded
/// for a model of kind `t`.
pub fn select_survivors(pop: &Vec<Vec<u8>>, fitness: &Vec<usize>, n_select: usize, obj: Objective, t: ModelType) -> (r: Vec<Vec<u8>>)
    requires
        pop@.len() == fitness@.len(),
        n_select <= pop@.len(),
        forall|k: int| 0 <= k < pop@.len() ==> 1 <= (#[trigger] pop@[k])@.len() <= 256,
    ensures
        r@.len() == n_select,
        exists|rank: Seq<usize>| #[trigger] is_best_first(fitness@, obj, rank) && rank.len() == pop@.len()
            && forall|k: int| 0 <= k < n_select ==> (#[trigger] r@[k])@ == encoded(t, pop@[rank[k] as int]@),
{
    let rank = rank_best_first(fitness, obj);
    let mut out: Vec<Vec<u8>> = Vec::new();
    for k in 0..n_select
        invariant
            n_select <= pop@.len(),
            rank@.len() == pop@.len(),
            is_index_permutation(rank@),
            forall|k: int| 0 <= k < pop@.len() ==> 1 <= (#[trigger] pop@[k])@.len() <= 256,
            out@.len() == k,
            forall|t2: int| 0 <= t2 < k ==> (#[trigger] out@[t2])@ == encoded(t, pop@[rank@[t2] as int]@),
    {
        let member = &pop[rank[k]];
        let s = match t {
            ModelType::Marginal => copy_bytes(member),
            ModelType::Vj => {
                let mut code: Vec<u8> = Vec::new();
                for c in 0..member.len() - 1
                    invariant
                        code@.len() == c,
                {
                    code.push(0);
                }
                permu2vj(member, &mut code);
                code
            },
        };
        out.push(s);
    }
    assert(is_best_first(fitness@, obj, rank@));
    out
}

/// The replacements of the steady-state merge, as (slot, sample) pairs: walk
/// the samples best first (`sr`) and the slots worst first (`pr`) from
/// positions `i_s` and `i_p`; a discarded sample is skipped; a sample strictly
/// better than the current slot replaces it and both walks advance; the first
/// sample that is not better ends the merge, as does the end of either walk.
pub open spec fn merge_plan(
    sr: Seq<usize>,
    pr: Seq<usize>,
    sf: Seq<usize>,
    pf: Seq<usize>,
    discard: Seq<usize>,
    obj: Objective,
    i_s: int,
    i_p: int,
) -> Seq<(usize, usize)>
    decreases sr.len() - i_s,
{
    if i_s < 0 || i_s >= sr.len() || i_p < 0 || i_p >= pr.len() {
        Seq::empty()
    } else if discard.contains(sr[i_s]) {
        merge_plan(sr, pr, sf, pf, discard, obj, i_s + 1, i_p)
    } else if better(sf[sr[i_s] as int], pf[pr[i_p] as int], obj) {
        seq![(pr[i_p], sr[i_s])] + merge_plan(sr, pr, sf, pf, discard, obj, i_s + 1, i_p + 1)
    } else {
        Seq::empty()
    }
}

/// The population after carrying out `plan`: each slot of the plan holds its
/// sample and that sample's fitness, every other slot is as it was.
pub open spec fn after_plan(
    plan: Seq<(usize, usize)>,
    pop: Seq<Vec<u8>>,
    pop_f: Seq<usize>,
    samples: Seq<Vec<u8>>,
    samples_f: Seq<usize>,
    new_pop: Seq<Vec<u8>>,
    new_f: Seq<usize>,
) -> bool {
    &&& new_pop.len() == pop.len()
    &&& new_f.len() == pop_f.len()
    &&& forall|k: int| 0 <= k < plan.len() ==> (#[trigger] plan[k]).0 < pop.len() && new_pop[plan[k].0 as int]@ == samples[plan[k].1 as int]@ && new_f[plan[k].0 as int] == samples_f[plan[k].1 as int]
    &&& forall|p: int| 0 <= p < pop.len() && (forall|k: int| 0 <= k < plan.len() ==> (#[trigger] plan[k]).0 != p) ==> new_pop[p] == pop[p] && new_f[p] == pop_f[p]
}

/// Every step of a merge plan puts a kept sample strictly better than the
/// slot's old fitness into a slot no other step touches.
pub open spec fn plan_improves(plan: Seq<(usize, usize)>, pf: Seq<usize>, sf: Seq<usize>, discard: Seq<usize>, obj: Objective) -> bool {
    &&& forall|k: int| 0 <= k < plan.len() ==> !discard.contains((#[trigger] plan[k]).1) && better(sf[plan[k].1 as int], pf[plan[k].0 as int], obj)
    &&& forall|a: int, b: int| 0 <= a < plan.len() && 0 <= b < plan.len() && a != b ==> (#[trigger] plan[a]).0 != (#[trigger] plan[b]).0
}

/// Steady-state replacement keeps the population's size and makes no slot
/// worse: each slot keeps its fitness or takes a strictly better one.
pub proof fn lemma_replacement_never_worse(
    plan: Seq<(usize, usize)>,
    pop: Seq<Vec<u8>>,
    pop_f: Seq<usize>,
    samples: Seq<Vec<u8>>,
    samples_f: Seq<usize>,
    discard: Seq<usize>,
    obj: Objective,
    new_pop: Seq<Vec<u8>>,
    new_f: Seq<usize>,
)
    requires
        pop.len() == pop_f.len(),
        after_plan(plan, pop, pop_f, samples, samples_f, new_pop, new_f),
        plan_improves(plan, pop_f, samples_f, discard, obj),
    ensures
        new_pop.len() == pop.len(),
        forall|p: int| 0 <= p < pop.len() ==> #[trigger] new_f[p] == pop_f[p] || better(new_f[p], pop_f[p], obj),
{
    assert forall|p: int| 0 <= p < pop.len() implies #[trigger] new_f[p] == pop_f[p] || better(new_f[p], pop_f[p], obj) by {
        if exists|k: int| 0 <= k < plan.len() && (#[trigger] plan[k]).0 == p {
            let k = choose|k: int| 0 <= k < plan.len() && (#[trigger] plan[k]).0 == p;
            assert(new_f[plan[k].0 as int] == samples_f[plan[k].1 as int]);
        }
    }
}

/// Steady-state replacement: ranks the population worst first and the
/// samples best first, and overwrites slots with strictly better samples
/// (skipping discarded ones) until the first sample that is not better.
/// Each overwritten slot takes the sample and its fitness. Returns how many
/// slots were overwritten.
pub fn steady_state_replace(
    pop: &mut Vec<Vec<u8>>,
    pop_f: &mut Vec<usize>,
    samples: &Vec<Vec<u8>>,
    samples_f: &Vec<usize>,
    discard: &Vec<usize>,
    obj: Objective,
) -> (r: usize)
    requires
        old(pop)@.len() == old(pop_f)@.len(),
        samples@.len() == samples_f@.len(),
    ensures
        exists|sr: Seq<usize>, pr: Seq<usize>| #[trigger] is_best_first(samples_f@, obj, sr) && #[trigger] is_worst_first(old(pop_f)@, obj, pr) && {
            let plan = merge_plan(sr, pr, samples_f@, old(pop_f)@, discard@, obj, 0, 0);
            &&& r == plan.len()
            &&& after_plan(plan, old(pop)@, old(pop_f)@, samples@, samples_f@, final(pop)@, final(pop_f)@)
            &&& plan_improves(plan, old(pop_f)@, samples_f@, discard@, obj)
        },
{
    let samples_ranking = rank_best_first(samples_f, obj);
    let pop_ranking = rank_worst_first(pop_f, obj);
    let ghost sr = samples_ranking@;
    let ghost pr = pop_ranking@;
    let ghost pf0 = pop_f@;
    let ghost pop0 = pop@;
    let ghost full = merge_plan(sr, pr, samples_f@, pf0, discard@, obj, 0, 0);
    let ghost mut done: Seq<(usize, usize)> = Seq::empty();
    let n_samples = samples.len();
    let pop_size = pop.len();
    let mut i_s: usize = 0;
    let mut i_p: usize = 0;
    let mut n_added: usize = 0;
    let mut stop = false;
    while i_s < n_samples && i_p < pop_size && !stop
        invariant
            n_samples == samples@.len(),
            n_samples == samples_f@.len(),
            pop_size == pop@.len(),
            pop_size == pop_f@.len(),
            pop_size == pop0.len(),
            pop_size == pf0.len(),
            sr == samples_ranking@,
            pr == pop_ranking@,
            sr.len() == n_samples,
            pr.len() == pop_size,
            is_index_permutation(sr),
            is_index_permutation(pr),
            i_s <= n_samples,
            i_p <= pop_size,
            n_added == done.len(),
            !stop ==> n_added == i_p,
            n_added <= i_p,
            full == merge_plan(sr, pr, samples_f@, pf0, discard@, obj, 0, 0),
            stop ==> full == done,
            !stop ==> full == done + merge_plan(sr, pr, samples_f@, pf0, discard@, obj, i_s as int, i_p as int),
            forall|k: int| 0 <= k < done.len() ==> (#[trigger] done[k]).0 == pr[k],
            plan_improves(done, pf0, samples_f@, discard@, obj),
            after_plan(done, pop0, pf0, samples@, samples_f@, pop@, pop_f@),
            forall|k: int| 0 <= k < done.len() ==> ((#[trigger] done[k]).1 as int) < n_samples,
        decreases n_samples - i_s,
    {
        let s_indx = samples_ranking[i_s];
        let p_indx = pop_ranking[i_p];
        let s_f = samples_f[s_indx];
        let p_f = pop_f[p_indx];
        proof {
            assert(forall|k: int| 0 <= k < done.len() ==> (#[trigger] done[k]).0 != p_indx);
            assert(p_f == pf0[p_indx as int]);
        }
        let is_better = match obj {
            Objective::Minimize => s_f < p_f,
            Objective::Maximize => s_f > p_f,
        };
        if !crate::permu_utils::is_in(&s_indx, discard) {
            if is_better {
                let sample = copy_bytes(&samples[s_indx]);
                let ghost prev_pop = pop@;
                let ghost prev_f = pop_f@;
                pop.set(p_indx, sample);
                pop_f.set(p_indx, s_f);
                proof {
                    let step = (p_indx, s_indx);
                    let nd = done.push(step);
                    assert(merge_plan(sr, pr, samples_f@, pf0, discard@, obj, i_s as int, i_p as int)
                        == seq![step] + merge_plan(sr, pr, samples_f@, pf0, discard@, obj, i_s + 1, i_p + 1));
                    assert(done + (seq![step] + merge_plan(sr, pr, samples_f@, pf0, discard@, obj, i_s + 1, i_p + 1))
                        =~= nd + merge_plan(sr, pr, samples_f@, pf0, discard@, obj, i_s + 1, i_p + 1));
                    assert forall|a: int, b: int| 0 <= a < nd.len() && 0 <= b < nd.len() && a != b implies (#[trigger] nd[a]).0 != (#[trigger] nd[b]).0 by {
                        assert(nd[a].0 == pr[a]);
                        assert(nd[b].0 == pr[b]);
                    }
                    assert forall|p: int| 0 <= p < pop_size && (forall|k: int| 0 <= k < nd.len() ==> (#[trigger] nd[k]).0 != p) implies pop@[p] == pop0[p] && pop_f@[p] == pf0[p] by {
                        assert(nd[done.len() as int].0 != p);
                        assert forall|k: int| 0 <= k < done.len() implies (#[trigger] done[k]).0 != p by {
                            assert(nd[k] == done[k]);
                        }
                    }
                    assert forall|k: int| 0 <= k < nd.len() implies (#[trigger] nd[k]).0 < pop0.len() && pop@[nd[k].0 as int]@ == samples@[nd[k].1 as int]@ && pop_f@[nd[k].0 as int] == samples_f@[nd[k].1 as int] by {
                        if k < done.len() {
                            assert(nd[k] == done[k]);
                            assert(done[k].0 != p_indx) by {
                                assert(done[k].0 == pr[k]);
                            }
                        }
                    }
                    done = nd;
                }
                n_added += 1;
            } else {
                stop = true;
                proof {
                    assert(merge_plan(sr, pr, samples_f@, pf0, discard@, obj, i_s as int, i_p as int) == Seq::<(usize, usize)>::empty());
                    assert(done + Seq::<(usize, usize)>::empty() =~= done);
                }
            }
            i_p += 1;
        }
        i_s += 1;
    }
    proof {
        if !stop {
            assert(merge_plan(sr, pr, samples_f@, pf0, discard@, obj, i_s as int, i_p as int) == Seq::<(usize, usize)>::empty());
            assert(done + Seq::<(usize, usize)>::empty() =~= done);
        }
        assert(is_best_first(samples_f@, obj, sr));
        assert(is_worst_first(pf0, obj, pr));
    }
    n_added
}

} // verus!
