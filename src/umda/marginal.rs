use vstd::prelude::*;
use crate::umda::{all_cells, allowed_total, can_add_one, can_remove_one, cells, laplace_shift, pick_value, row_sum, shift_cells};
use crate::permu_utils::{is_permutation, lemma_permutation_onto, lemma_smaller_domain_misses, random_permutation, reached_from, value_occurs};
use crate::rng::random_below;
use crate::hungarian::{is_max_assignment, is_square_weights, usize_cells, W};

verus! {

/// Additive smoothing of a marginal count matrix: adds one to every cell, or
/// with `reverse` takes one away from every cell.
pub fn laplace(m: &mut Vec<Vec<usize>>, reverse: bool)
    requires
        !reverse ==> can_add_one(cells(old(m)@), all_cells()),
        reverse ==> can_remove_one(cells(old(m)@), all_cells()),
    ensures
        cells(final(m)@) == laplace_shift(cells(old(m)@), all_cells(), if reverse { -1 } else { 1 }),
{
    let mut bound: Vec<usize> = Vec::new();
    let rows = m.len();
    for i in 0..rows
        invariant
            rows == m@.len(),
            bound@.len() == i,
            forall|t: int| 0 <= t < i ==> #[trigger] bound@[t] == m@[t]@.len(),
    {
        bound.push(m[i].len());
    }
    shift_cells(m, Ghost(all_cells()), &bound, !reverse);
}

/// Draws one permutation from an `n`×`n` count matrix (row = position,
/// column = value). Positions are visited in a fresh random order; at each one
/// a threshold is drawn uniformly below the total count of the values not yet
/// used, and the value picked is the first unused one whose running count
/// exceeds it. Every value is used exactly once.
pub fn ad_hoc_random_laplace(distr: &Vec<Vec<usize>>) -> (r: Vec<u8>)
    requires
        distr@.len() <= 256,
        forall|j: int| 0 <= j < distr@.len() ==> (#[trigger] distr@[j])@.len() == distr@.len(),
        forall|j: int| 0 <= j < distr@.len() ==> row_sum(#[trigger] distr@[j]@) <= usize::MAX,
    ensures
        r@.len() == distr@.len(),
        is_permutation(r@),
{
    let size = distr.len();
    let mut sample: Vec<u8> = Vec::new();
    let mut allowed: Vec<bool> = Vec::new();
    for i in 0..size
        invariant
            sample@.len() == i,
            allowed@.len() == i,
            forall|k: int| 0 <= k < i ==> #[trigger] allowed@[k],
    {
        sample.push(0);
        allowed.push(true);
    }
    let order = random_permutation(&size);
    for t in 0..size
        invariant
            size == distr@.len(),
            size <= 256,
            forall|j: int| 0 <= j < size ==> (#[trigger] distr@[j])@.len() == size,
            forall|j: int| 0 <= j < size ==> row_sum(#[trigger] distr@[j]@) <= usize::MAX,
            order@.len() == size,
            is_permutation(order@),
            sample@.len() == size,
            allowed@.len() == size,
            forall|k: int| 0 <= k < t ==> (#[trigger] sample@[order@[k] as int] as int) < size && !allowed@[sample@[order@[k] as int] as int],
            forall|k1: int, k2: int| 0 <= k1 < t && 0 <= k2 < t && k1 != k2 ==> #[trigger] sample@[order@[k1] as int] != #[trigger] sample@[order@[k2] as int],
            forall|v: int| 0 <= v < size && !#[trigger] allowed@[v] ==> exists|k: int| 0 <= k < t && sample@[order@[k] as int] == v,
    {
        let j = order[t] as usize;
        let ghost g = |k: int| sample@[order@[k] as int] as int;
        proof {
            lemma_smaller_domain_misses(t as int, size as int, g);
            let v = choose|v: int| 0 <= v < size && !#[trigger] reached_from(g, t as int, v);
            if !allowed@[v] {
                let k = choose|k: int| 0 <= k < t && sample@[order@[k] as int] == v;
                assert(g(k) == v);
            }
            assert(allowed@[v]);
        }
        let s_max = allowed_total(&distr[j], &allowed);
        let thr = if s_max == 0 { 0 } else { random_below(s_max) };
        let v = pick_value(&distr[j], &allowed, thr);
        let ghost before_s = sample@;
        let ghost before_a = allowed@;
        sample.set(j, v as u8);
        allowed.set(v, false);
        proof {
            assert forall|k: int| 0 <= k < t implies #[trigger] sample@[order@[k] as int] == before_s[order@[k] as int] by {
                assert(order@[k] != order@[t as int]);
            }
            assert forall|k: int| 0 <= k < t + 1 implies (#[trigger] sample@[order@[k] as int] as int) < size && !allowed@[sample@[order@[k] as int] as int] by {
                if k < t {
                    assert(sample@[order@[k] as int] == before_s[order@[k] as int]);
                }
            }
            assert forall|k1: int, k2: int| 0 <= k1 < t + 1 && 0 <= k2 < t + 1 && k1 != k2 implies #[trigger] sample@[order@[k1] as int] != #[trigger] sample@[order@[k2] as int] by {
                if k1 < t {
                    assert(sample@[order@[k1] as int] == before_s[order@[k1] as int]);
                    assert(!before_a[before_s[order@[k1] as int] as int]);
                }
                if k2 < t {
                    assert(sample@[order@[k2] as int] == before_s[order@[k2] as int]);
                    assert(!before_a[before_s[order@[k2] as int] as int]);
                }
            }
            assert forall|w: int| 0 <= w < size && !#[trigger] allowed@[w] implies exists|k: int| 0 <= k < t + 1 && sample@[order@[k] as int] == w by {
                if w == v {
                    assert(sample@[order@[t as int] as int] == w);
                } else {
                    assert(!before_a[w]);
                    let k = choose|k: int| 0 <= k < t && before_s[order@[k] as int] == w;
                    assert(sample@[order@[k] as int] == before_s[order@[k] as int]);
                }
            }
        }
    }
    proof {
        lemma_permutation_onto(order@);
        assert forall|p: int| 0 <= p < size implies (#[trigger] sample@[p] as int) < size by {
            assert(value_occurs(order@, p));
            let k = choose|k: int| 0 <= k < size && order@[k] == p;
            assert(sample@[order@[k] as int] == sample@[p]);
        }
        assert forall|p1: int, p2: int| 0 <= p1 < size && 0 <= p2 < size && p1 != p2 implies #[trigger] sample@[p1] != #[trigger] sample@[p2] by {
            assert(value_occurs(order@, p1));
            assert(value_occurs(order@, p2));
            let k1 = choose|k: int| 0 <= k < size && order@[k] == p1;
            let k2 = choose|k: int| 0 <= k < size && order@[k] == p2;
            assert(sample@[order@[k1] as int] != sample@[order@[k2] as int]);
        }
    }
    sample
}

/// The most probable permutation of a marginal count matrix: the assignment
/// of positions to values with the largest total count.
pub fn mode(distribution: &Vec<Vec<usize>>) -> (r: Vec<u8>)
    requires
        is_square_weights(usize_cells(distribution@)),
    ensures
        r@.len() == distribution@.len(),
        is_permutation(r@),
        is_max_assignment(usize_cells(distribution@), r@.map_values(|c: u8| c as int)),
{
    proof {
        assert forall|i: int, j: int| 0 <= i < distribution@.len() && 0 <= j < distribution@[i]@.len() implies #[trigger] distribution@[i]@[j] <= isize::MAX by {
            assert(usize_cells(distribution@)[i].len() == distribution@.len());
            assert(usize_cells(distribution@)[i][j] == distribution@[i]@[j] as int);
            assert(usize_cells(distribution@)[i][j] <= crate::hungarian::MAX_WEIGHT as int);
        }
    }
    let weights = W::from(distribution);
    weights.hungarian()
}

} // verus!
