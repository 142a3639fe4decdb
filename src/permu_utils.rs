use vstd::prelude::*;
use vstd::std_specs::cmp::PartialEqSpec;
use vstd::relations::injective_on;
use vstd::set_lib::{lemma_int_range, lemma_len_subset, lemma_map_size, lemma_map_size_bound, lemma_subset_equality, set_int_range};
use crate::rng::{is_rearrangement, shuffle};

verus! {

/// A sequence of length `n` that holds each value of `[0, n)` exactly once:
/// every entry is below the length and no two entries are equal. Entries are
/// bytes, so `n` is at most 256.
pub open spec fn is_permutation(s: Seq<u8>) -> bool {
    &&& s.len() <= 256
    &&& forall|i: int| 0 <= i < s.len() ==> (#[trigger] s[i] as int) < s.len()
    &&& forall|i: int, j: int| 0 <= i < s.len() && 0 <= j < s.len() && i != j ==> #[trigger] s[i] != #[trigger] s[j]
}

/// A sequence of indices that lists each index of `[0, len)` exactly once.
pub open spec fn is_index_permutation(s: Seq<usize>) -> bool {
    &&& forall|i: int| 0 <= i < s.len() ==> (#[trigger] s[i] as int) < s.len()
    &&& forall|i: int, j: int| 0 <= i < s.len() && 0 <= j < s.len() && i != j ==> #[trigger] s[i] != #[trigger] s[j]
}

/// Number of times `e` occurs in `s`.
pub open spec fn occurrences(s: Seq<u8>, e: u8) -> nat
    decreases s.len(),
{
    if s.len() == 0 {
        0
    } else {
        occurrences(s.drop_last(), e) + if s.last() == e { 1nat } else { 0nat }
    }
}

/// Every value below the length of `s` occurs in it exactly once.
pub open spec fn each_value_once(s: Seq<u8>) -> bool {
    forall|e: int| 0 <= e < s.len() ==> #[trigger] occurrences(s, e as u8) == 1
}

/// `v` occurs at some position of `s`.
pub open spec fn value_occurs(s: Seq<u8>, v: int) -> bool {
    exists|i: int| 0 <= i < s.len() && s[i] == v
}

/// Index `v` occurs at some position of `s`.
pub open spec fn index_occurs(s: Seq<usize>, v: int) -> bool {
    exists|i: int| 0 <= i < s.len() && s[i] == v
}

/// A map from `[0, n)` into `[0, n)` that is one-to-one reaches the value `v` of `[0, n)`.
pub proof fn lemma_injection_is_onto(n: int, f: spec_fn(int) -> int, v: int)
    requires
        0 <= v < n,
        forall|i: int| 0 <= i < n ==> 0 <= #[trigger] f(i) < n,
        forall|i: int, j: int| 0 <= i < n && 0 <= j < n && i != j ==> #[trigger] f(i) != #[trigger] f(j),
    ensures
        exists|i: int| 0 <= i < n && #[trigger] f(i) == v,
{
    let x = set_int_range(0, n);
    let y = x.map(f);
    lemma_int_range(0, n);
    assert(injective_on(f, x));
    lemma_map_size(x, y, f);
    assert(y.subset_of(set_int_range(0, n)));
    lemma_subset_equality(y, set_int_range(0, n));
    assert(set_int_range(0, n).contains(v));
    assert(y.contains(v));
}

/// `f` reaches `v` from some point of `[0, t)`.
pub open spec fn reached_from(f: spec_fn(int) -> int, t: int, v: int) -> bool {
    exists|k: int| 0 <= k < t && #[trigger] f(k) == v
}

/// A map from `[0, t)` misses some value of `[0, n)` when `t < n`.
pub proof fn lemma_smaller_domain_misses(t: int, n: int, f: spec_fn(int) -> int)
    requires
        0 <= t < n,
    ensures
        exists|v: int| 0 <= v < n && !#[trigger] reached_from(f, t, v),
{
    if forall|v: int| 0 <= v < n ==> #[trigger] reached_from(f, t, v) {
        let x = set_int_range(0, t);
        let y = x.map(f);
        lemma_int_range(0, t);
        lemma_int_range(0, n);
        lemma_map_size_bound(x, y, f);
        assert forall|v: int| #[trigger] set_int_range(0, n).contains(v) implies y.contains(v) by {
            assert(reached_from(f, t, v));
            let k = choose|k: int| 0 <= k < t && #[trigger] f(k) == v;
            assert(x.contains(k));
        }
        assert(set_int_range(0, n).subset_of(y));
        lemma_len_subset(set_int_range(0, n), y);
    }
}

/// Every value below the length of a permutation occurs at some position.
pub proof fn lemma_permutation_onto(s: Seq<u8>)
    requires
        is_permutation(s),
    ensures
        forall|v: int| 0 <= v < s.len() ==> #[trigger] value_occurs(s, v),
{
    let f = |i: int| s[i] as int;
    assert forall|v: int| 0 <= v < s.len() implies #[trigger] value_occurs(s, v) by {
        lemma_injection_is_onto(s.len() as int, f, v);
        let i = choose|i: int| 0 <= i < s.len() && #[trigger] f(i) == v;
        assert(s[i] == v);
    }
}

/// Every index below the length of an index permutation occurs at some position.
pub proof fn lemma_index_permutation_onto(s: Seq<usize>)
    requires
        is_index_permutation(s),
    ensures
        forall|v: int| 0 <= v < s.len() ==> #[trigger] index_occurs(s, v),
{
    let f = |i: int| s[i] as int;
    assert forall|v: int| 0 <= v < s.len() implies #[trigger] index_occurs(s, v) by {
        lemma_injection_is_onto(s.len() as int, f, v);
        let i = choose|i: int| 0 <= i < s.len() && #[trigger] f(i) == v;
        assert(s[i] == v);
    }
}

/// A uniformly random permutation of `[0, size)`, drawn by shuffling the identity.
pub fn random_permutation(size: &usize) -> (r: Vec<u8>)
    requires
        *size <= 256,
    ensures
        r@.len() == *size,
        is_permutation(r@),
{
    let mut permu: Vec<u8> = Vec::new();
    for i in 0..*size
        invariant
            *size <= 256,
            permu@.len() == i,
            forall|k: int| 0 <= k < i ==> permu@[k] == k,
    {
        permu.push(i as u8);
    }
    let ghost ident = permu@;
    shuffle(&mut permu);
    proof {
        let p = choose|p: Seq<usize>| #[trigger] is_index_permutation(p) && p.len() == ident.len()
            && forall|i: int| 0 <= i < permu@.len() ==> permu@[i] == ident[p[i] as int];
        assert forall|i: int| 0 <= i < permu@.len() implies #[trigger] permu@[i] == p[i] as int by {}
        assert forall|i: int, j: int| 0 <= i < permu@.len() && 0 <= j < permu@.len() && i != j implies #[trigger] permu@[i] != #[trigger] permu@[j] by {
            assert(permu@[i] == p[i] as int);
            assert(permu@[j] == p[j] as int);
        }
    }
    permu
}

/// Up to `pop_size` distinct random permutations of `[0, lenght)`: candidates
/// are drawn one after another and kept when not already present. The number
/// of draws is capped at `u64::MAX`, far beyond any run; the population is
/// short only if that cap is reached.
pub fn random_population(lenght: &usize, pop_size: &usize) -> (r: Vec<Vec<u8>>)
    requires
        *lenght <= 256,
    ensures
        r@.len() <= *pop_size,
        forall|k: int| 0 <= k < r@.len() ==> (#[trigger] r@[k])@.len() == *lenght && is_permutation(r@[k]@),
        forall|a: int, b: int| 0 <= a < r@.len() && 0 <= b < r@.len() && a != b ==> (#[trigger] r@[a])@ != (#[trigger] r@[b])@,
{
    let mut pop: Vec<Vec<u8>> = Vec::new();
    let mut i: usize = 0;
    let mut draws: u64 = 0;
    while i < *pop_size && draws < u64::MAX
        invariant
            *lenght <= 256,
            i == pop@.len(),
            i <= *pop_size,
            forall|k: int| 0 <= k < pop@.len() ==> (#[trigger] pop@[k])@.len() == *lenght && is_permutation(pop@[k]@),
            forall|a: int, b: int| 0 <= a < pop@.len() && 0 <= b < pop@.len() && a != b ==> (#[trigger] pop@[a])@ != (#[trigger] pop@[b])@,
        decreases u64::MAX - draws,
    {
        let new = random_permutation(lenght);
        draws += 1;
        if !vec_exists_in(&new, &pop) {
            pop.push(new);
            i += 1;
        }
    }
    pop
}

/// Returns whether `elem` occurs in `vec`.
pub fn is_in<T: PartialEq>(elem: &T, vec: &Vec<T>) -> (r: bool)
    ensures
        T::obeys_eq_spec() ==> (r <==> exists|i: int| 0 <= i < vec@.len() && vec@[i].eq_spec(elem)),
{
    let mut i: usize = 0;
    let mut found = false;
    while i < vec.len() && !found
        invariant
            i <= vec@.len(),
            T::obeys_eq_spec() ==> (found <==> exists|k: int| 0 <= k < i && vec@[k].eq_spec(elem)),
        decreases vec@.len() - i,
    {
        found = vec[i] == *elem;
        i += 1;
    }
    found
}

/// Writes the identity permutation `[0, 1, ..., len-1]` into `v`.
pub fn identity(v: &mut Vec<u8>)
    requires
        old(v)@.len() <= 256,
    ensures
        final(v)@.len() == old(v)@.len(),
        forall|i: int| 0 <= i < final(v)@.len() ==> final(v)@[i] == i,
{
    let n = v.len();
    for i in 0..n
        invariant
            n == v@.len(),
            n <= 256,
            forall|k: int| 0 <= k < i ==> v@[k] == k,
    {
        v.set(i, i as u8);
    }
}

/// Counts how many times `e` occurs in `vec`.
pub fn count_element(vec: &Vec<u8>, e: &u8) -> (r: usize)
    ensures
        r == occurrences(vec@, *e),
{
    let mut count: usize = 0;
    let mut i: usize = 0;
    while i < vec.len()
        invariant
            i <= vec@.len(),
            count == occurrences(vec@.subrange(0, i as int), *e),
            count <= i,
        decreases vec@.len() - i,
    {
        assert(vec@.subrange(0, i + 1).drop_last() == vec@.subrange(0, i as int));
        if vec[i] == *e {
            count += 1;
        }
        i += 1;
    }
    assert(vec@.subrange(0, vec@.len() as int) == vec@);
    count
}

/// Returns whether `vec` equals some member of `pop`.
pub fn vec_exists_in(vec: &Vec<u8>, pop: &Vec<Vec<u8>>) -> (r: bool)
    ensures
        r <==> exists|i: int| 0 <= i < pop@.len() && #[trigger] pop@[i]@ == vec@,
{
    let mut found = false;
    let mut i: usize = 0;
    while i < pop.len() && !found
        invariant
            i <= pop@.len(),
            found <==> exists|k: int| 0 <= k < i && #[trigger] pop@[k]@ == vec@,
        decreases pop@.len() - i,
    {
        found = vec.eq(&pop[i]);
        proof {
            if found {
                assert(pop@[i as int]@ =~= vec@);
            } else {
                assert(pop@[i as int]@ != vec@) by {
                    if pop@[i as int]@ == vec@ {
                        assert(vec@.len() == pop@[i as int]@.len());
                    }
                }
            }
        }
        i += 1;
    }
    found
}

/// Index of the first smallest entry of `v`; 0 when `v` is empty.
pub fn argmin(v: &Vec<usize>) -> (r: usize)
    ensures
        v@.len() == 0 ==> r == 0,
        v@.len() > 0 ==> {
            &&& r < v@.len()
            &&& forall|i: int| 0 <= i < v@.len() ==> v@[r as int] <= v@[i]
            &&& forall|i: int| 0 <= i < r ==> v@[i] > v@[r as int]
        },
{
    let mut indx: usize = 0;
    let n = v.len();
    for i in 0..n
        invariant
            n == v@.len(),
            indx == 0 || indx < i,
            i > 0 ==> indx < i,
            forall|k: int| 0 <= k < i ==> v@[indx as int] <= v@[k],
            forall|k: int| 0 <= k < indx ==> v@[k] > v@[indx as int],
    {
        if v[i] < v[indx] {
            indx = i;
        }
    }
    indx
}

/// Index of the first largest entry of `v`; 0 when `v` is empty.
pub fn argmax(v: &Vec<usize>) -> (r: usize)
    ensures
        v@.len() == 0 ==> r == 0,
        v@.len() > 0 ==> {
            &&& r < v@.len()
            &&& forall|i: int| 0 <= i < v@.len() ==> v@[r as int] >= v@[i]
            &&& forall|i: int| 0 <= i < r ==> v@[i] < v@[r as int]
        },
{
    let mut indx: usize = 0;
    let n = v.len();
    for i in 0..n
        invariant
            n == v@.len(),
            indx == 0 || indx < i,
            i > 0 ==> indx < i,
            forall|k: int| 0 <= k < i ==> v@[indx as int] >= v@[k],
            forall|k: int| 0 <= k < indx ==> v@[k] < v@[indx as int],
    {
        if v[i] > v[indx] {
            indx = i;
        }
    }
    indx
}

/// Index `i` comes before index `j` when ordering by key, equal keys by index.
pub open spec fn key_index_lt(keys: Seq<usize>, i: usize, j: usize) -> bool {
    keys[i as int] < keys[j as int] || (keys[i as int] == keys[j as int] && i < j)
}

/// `r` lists the indices of `keys` ordered by ascending key, equal keys in
/// ascending index order (a stable sort of the indices).
pub open spec fn is_stable_argsort(keys: Seq<usize>, r: Seq<usize>) -> bool {
    &&& r.len() == keys.len()
    &&& is_index_permutation(r)
    &&& forall|a: int, b: int| 0 <= a < b < r.len() ==> key_index_lt(keys, #[trigger] r[a], #[trigger] r[b])
}

proof fn lemma_stable_argsort_step(keys: Seq<usize>, r1: Seq<usize>, r2: Seq<usize>, k: int)
    requires
        is_stable_argsort(keys, r1),
        is_stable_argsort(keys, r2),
        0 <= k < r1.len(),
        forall|t: int| 0 <= t < k ==> r1[t] == r2[t],
    ensures
        r1[k] == r2[k],
{
    if r1[k] != r2[k] {
        lemma_index_permutation_onto(r1);
        lemma_index_permutation_onto(r2);
        assert(index_occurs(r2, r1[k] as int));
        let j = choose|j: int| 0 <= j < r2.len() && r2[j] == r1[k];
        assert(index_occurs(r1, r2[k] as int));
        let i = choose|i: int| 0 <= i < r1.len() && r1[i] == r2[k];
        if j < k {
            assert(r1[j] == r2[j]);
        }
        if i < k {
            assert(r2[i] == r1[i]);
        }
        assert(key_index_lt(keys, r2[k], r2[j]));
        assert(key_index_lt(keys, r1[k], r1[i]));
    }
}

proof fn lemma_stable_argsort_prefix(keys: Seq<usize>, r1: Seq<usize>, r2: Seq<usize>, k: int)
    requires
        is_stable_argsort(keys, r1),
        is_stable_argsort(keys, r2),
        0 <= k <= r1.len(),
    ensures
        forall|t: int| 0 <= t < k ==> r1[t] == r2[t],
    decreases k,
{
    if k > 0 {
        lemma_stable_argsort_prefix(keys, r1, r2, k - 1);
        lemma_stable_argsort_step(keys, r1, r2, k - 1);
    }
}

/// There is only one stable ordering of the indices of `keys`: the rankings
/// that contracts describe through it are unique.
pub proof fn lemma_stable_argsort_unique(keys: Seq<usize>, r1: Seq<usize>, r2: Seq<usize>)
    requires
        is_stable_argsort(keys, r1),
        is_stable_argsort(keys, r2),
    ensures
        r1 == r2,
{
    lemma_stable_argsort_prefix(keys, r1, r2, r1.len() as int);
    assert(r1 =~= r2);
}

/// The indices of `vec` in ascending order of their values; equal values keep
/// the order of their indices.
pub fn argsort(vec: &Vec<usize>) -> (r: Vec<usize>)
    ensures
        is_stable_argsort(vec@, r@),
{
    let n = vec.len();
    let mut sorted: Vec<usize> = Vec::new();
    for i in 0..n
        invariant
            n == vec@.len(),
            sorted@.len() == i,
            forall|a: int| 0 <= a < i ==> (#[trigger] sorted@[a] as int) < i,
            forall|a: int, b: int| 0 <= a < i && 0 <= b < i && a != b ==> #[trigger] sorted@[a] != #[trigger] sorted@[b],
            forall|a: int, b: int| 0 <= a < b < i ==> key_index_lt(vec@, #[trigger] sorted@[a], #[trigger] sorted@[b]),
    {
        let mut p: usize = 0;
        while p < sorted.len() && vec[sorted[p]] <= vec[i]
            invariant
                n == vec@.len(),
                i < n,
                sorted@.len() == i,
                p <= i,
                forall|a: int| 0 <= a < i ==> (#[trigger] sorted@[a] as int) < i,
                forall|a: int| 0 <= a < p ==> vec@[#[trigger] sorted@[a] as int] <= vec@[i as int],
            decreases i - p,
        {
            p += 1;
        }
        proof {
            if p < i {
                assert forall|b: int| p <= b < i implies vec@[#[trigger] sorted@[b] as int] > vec@[i as int] by {
                    if b > p {
                        assert(key_index_lt(vec@, sorted@[p as int], sorted@[b]));
                    }
                }
            }
        }
        let ghost old_sorted = sorted@;
        sorted.insert(p, i);
        proof {
            assert forall|a: int| 0 <= a < i + 1 implies (#[trigger] sorted@[a] as int) < i + 1 by {
                if a < p {
                    assert(sorted@[a] == old_sorted[a]);
                } else if a > p {
                    assert(sorted@[a] == old_sorted[a - 1]);
                }
            }
            assert forall|a: int, b: int| 0 <= a < i + 1 && 0 <= b < i + 1 && a != b implies #[trigger] sorted@[a] != #[trigger] sorted@[b] by {
                if a != p && b != p {
                    let a0 = if a < p { a } else { a - 1 };
                    let b0 = if b < p { b } else { b - 1 };
                    assert(sorted@[a] == old_sorted[a0]);
                    assert(sorted@[b] == old_sorted[b0]);
                } else if a == p {
                    let b0 = if b < p { b } else { b - 1 };
                    assert(sorted@[b] == old_sorted[b0]);
                } else {
                    let a0 = if a < p { a } else { a - 1 };
                    assert(sorted@[a] == old_sorted[a0]);
                }
            }
            assert forall|a: int, b: int| 0 <= a < b < i + 1 implies key_index_lt(vec@, #[trigger] sorted@[a], #[trigger] sorted@[b]) by {
                if b < p {
                    assert(sorted@[a] == old_sorted[a]);
                    assert(sorted@[b] == old_sorted[b]);
                } else if b == p {
                    assert(sorted@[a] == old_sorted[a]);
                } else if a < p {
                    assert(sorted@[a] == old_sorted[a]);
                    assert(sorted@[b] == old_sorted[b - 1]);
                } else if a == p {
                    assert(sorted@[b] == old_sorted[b - 1]);
                } else {
                    assert(sorted@[a] == old_sorted[a - 1]);
                    assert(sorted@[b] == old_sorted[b - 1]);
                }
            }
        }
    }
    sorted
}

/// How many of the entries of `p` at positions `i + 1 .. hi` are smaller than `p[i]`.
pub open spec fn smaller_after(p: Seq<u8>, i: int, hi: int) -> nat
    decreases hi - i,
{
    if hi <= i + 1 {
        0
    } else {
        smaller_after(p, i, hi - 1) + if p[hi - 1] < p[i] { 1nat } else { 0nat }
    }
}

/// The rank code of `p`: entry `i` counts the smaller entries after position `i`.
pub open spec fn rank_code(p: Seq<u8>) -> Seq<u8> {
    Seq::new((p.len() - 1) as nat, |i: int| smaller_after(p, i, p.len() as int) as u8)
}

proof fn lemma_smaller_after_bound(p: Seq<u8>, i: int, hi: int)
    ensures
        smaller_after(p, i, hi) <= if hi <= i + 1 { 0 } else { hi - i - 1 },
    decreases hi - i,
{
    if hi > i + 1 {
        lemma_smaller_after_bound(p, i, hi - 1);
    }
}

/// Writes into `vj` the rank code of `permu`: for each position but the last,
/// how many later entries are smaller.
pub fn permu2vj(permu: &Vec<u8>, vj: &mut Vec<u8>)
    requires
        1 <= permu@.len() <= 256,
        old(vj)@.len() == permu@.len() - 1,
    ensures
        final(vj)@ == rank_code(permu@),
{
    let n = permu.len();
    for i in 0..n - 1
        invariant
            n == permu@.len(),
            1 <= n <= 256,
            vj@.len() == n - 1,
            forall|k: int| 0 <= k < i ==> #[trigger] vj@[k] == smaller_after(permu@, k, n as int),
    {
        let mut c: u8 = 0;
        let mut j: usize = i + 1;
        while j < n
            invariant
                n == permu@.len(),
                1 <= n <= 256,
                i < n - 1,
                i + 1 <= j <= n,
                c == smaller_after(permu@, i as int, j as int),
            decreases n - j,
        {
            proof {
                lemma_smaller_after_bound(permu@, i as int, j as int);
            }
            if permu[j] < permu[i] {
                c = c + 1;
            }
            j += 1;
        }
        vj.set(i, c);
    }
    proof {
        assert forall|k: int| 0 <= k < n - 1 implies vj@[k] == rank_code(permu@)[k] by {
            lemma_smaller_after_bound(permu@, k, n as int);
        }
        assert(vj@ =~= rank_code(permu@));
    }
}

/// The values not yet placed after decoding the first `i` entries of a rank
/// code for length `n`, in increasing order.
pub open spec fn remaining(vj: Seq<u8>, n: nat, i: int) -> Seq<u8>
    decreases i,
{
    if i <= 0 {
        Seq::new(n, |k: int| k as u8)
    } else {
        remaining(vj, n, i - 1).remove(vj[i - 1] as int)
    }
}

/// The permutation a rank code stands for: position `i` takes the value of
/// rank `vj[i]` among those not yet placed; the last position takes the value left.
pub open spec fn vj_decode(vj: Seq<u8>) -> Seq<u8> {
    Seq::new(vj.len() + 1, |i: int| if i < vj.len() { remaining(vj, vj.len() + 1, i)[vj[i] as int] } else { remaining(vj, vj.len() + 1, i)[0] })
}

/// Every entry of the rank code is a rank among the values still free.
pub open spec fn is_rank_code(vj: Seq<u8>) -> bool {
    forall|i: int| 0 <= i < vj.len() ==> (#[trigger] vj[i] as int) < vj.len() + 1 - i
}

/// Writes into `permu` the permutation whose rank code is `vj`.
pub fn vj2permu(vj: &Vec<u8>, permu: &mut Vec<u8>)
    requires
        old(permu)@.len() == vj@.len() + 1,
        old(permu)@.len() <= 256,
        is_rank_code(vj@),
    ensures
        final(permu)@ == vj_decode(vj@),
        is_permutation(final(permu)@),
{
    let s = permu.len();
    let mut e: Vec<u8> = Vec::new();
    for k in 0..s
        invariant
            s <= 256,
            e@ == Seq::new(k as nat, |t: int| t as u8),
    {
        e.push(k as u8);
    }
    assert(e@ == remaining(vj@, s as nat, 0));
    let m = vj.len();
    for i in 0..m
        invariant
            m == vj@.len(),
            s == m + 1,
            s <= 256,
            permu@.len() == s,
            is_rank_code(vj@),
            e@ == remaining(vj@, s as nat, i as int),
            e@.len() == s - i,
            forall|a: int| 0 <= a < e@.len() ==> (#[trigger] e@[a] as int) < s,
            forall|a: int, b: int| 0 <= a < b < e@.len() ==> #[trigger] e@[a] < #[trigger] e@[b],
            forall|k: int| 0 <= k < i ==> #[trigger] permu@[k] == vj_decode(vj@)[k],
            forall|k: int| 0 <= k < i ==> (#[trigger] permu@[k] as int) < s,
            forall|k: int, a: int| 0 <= k < i && 0 <= a < e@.len() ==> #[trigger] permu@[k] != #[trigger] e@[a],
            forall|k1: int, k2: int| 0 <= k1 < i && 0 <= k2 < i && k1 != k2 ==> #[trigger] permu@[k1] != #[trigger] permu@[k2],
    {
        let v = vj[i] as usize;
        assert((vj@[i as int] as int) < m + 1 - i);
        let ghost old_e = e@;
        let x = e[v];
        permu.set(i, x);
        e.remove(v);
        proof {
            old_e.remove_ensures(v as int);
            assert(e@ == remaining(vj@, s as nat, i + 1));
            assert forall|a: int, b: int| 0 <= a < b < e@.len() implies #[trigger] e@[a] < #[trigger] e@[b] by {
                let a0 = if a < v { a } else { a + 1 };
                let b0 = if b < v { b } else { b + 1 };
                assert(e@[a] == old_e[a0]);
                assert(e@[b] == old_e[b0]);
            }
            assert forall|k: int, a: int| 0 <= k < i + 1 && 0 <= a < e@.len() implies #[trigger] permu@[k] != #[trigger] e@[a] by {
                let a0 = if a < v { a } else { a + 1 };
                assert(e@[a] == old_e[a0]);
                if k == i {
                    assert(a0 != v);
                }
            }
            assert forall|k1: int, k2: int| 0 <= k1 < i + 1 && 0 <= k2 < i + 1 && k1 != k2 implies #[trigger] permu@[k1] != #[trigger] permu@[k2] by {
                if k1 == i {
                    assert(permu@[k2] != old_e[v as int]);
                } else if k2 == i {
                    assert(permu@[k1] != old_e[v as int]);
                }
            }
        }
    }
    let last = e[0];
    permu.set(s - 1, last);
    proof {
        assert forall|k: int| 0 <= k < s implies #[trigger] permu@[k] == vj_decode(vj@)[k] by {}
        assert(permu@ =~= vj_decode(vj@));
        assert forall|k1: int, k2: int| 0 <= k1 < s && 0 <= k2 < s && k1 != k2 implies #[trigger] permu@[k1] != #[trigger] permu@[k2] by {
            if k1 == s - 1 {
                assert(permu@[k2] != e@[0]);
            } else if k2 == s - 1 {
                assert(permu@[k1] != e@[0]);
            }
        }
    }
}

/// The factors of the probability of `v` under the count matrix `distr`:
/// for each position `i`, the count of `v[i]` in row `i` and the row's total.
/// The probability is the product of the quotients.
pub fn probability_factors(distr: &Vec<Vec<usize>>, v: &Vec<u8>) -> (r: Vec<(usize, usize)>)
    requires
        v@.len() <= distr@.len(),
        forall|i: int| 0 <= i < v@.len() ==> (#[trigger] v@[i] as int) < distr@[i]@.len(),
        forall|i: int| 0 <= i < v@.len() ==> crate::umda::row_sum(#[trigger] distr@[i]@) <= usize::MAX,
    ensures
        r@ == Seq::new(v@.len(), |i: int| (distr@[i]@[v@[i] as int], crate::umda::row_sum(distr@[i]@) as usize)),
{
    let mut out: Vec<(usize, usize)> = Vec::new();
    let n = v.len();
    for i in 0..n
        invariant
            n == v@.len(),
            n <= distr@.len(),
            forall|k: int| 0 <= k < v@.len() ==> (#[trigger] v@[k] as int) < distr@[k]@.len(),
            forall|k: int| 0 <= k < v@.len() ==> crate::umda::row_sum(#[trigger] distr@[k]@) <= usize::MAX,
            out@ == Seq::new(i as nat, |k: int| (distr@[k]@[v@[k] as int], crate::umda::row_sum(distr@[k]@) as usize)),
    {
        let row = &distr[i];
        let mut total: usize = 0;
        let cols = row.len();
        for j in 0..cols
            invariant
                cols == row@.len(),
                crate::umda::row_sum(row@) <= usize::MAX,
                total == crate::umda::prefix_sum(row@, j as int),
        {
            proof {
                crate::umda::lemma_prefix_monotone(row@, j + 1, cols as int);
            }
            total = total + row[j];
        }
        out.push((row[v[i] as usize], total));
        assert(out@ =~= Seq::new((i + 1) as nat, |k: int| (distr@[k]@[v@[k] as int], crate::umda::row_sum(distr@[k]@) as usize)));
    }
    out
}

/// `old` followed by the indices `i < n`, in ascending order, that `old` does
/// not hold and for which `dup(i)` holds.
pub open spec fn discards(old: Seq<usize>, n: int, dup: spec_fn(int) -> bool) -> Seq<usize>
    decreases n,
{
    if n <= 0 {
        old
    } else {
        let prev = discards(old, n - 1, dup);
        if !old.contains((n - 1) as usize) && dup(n - 1) {
            prev.push((n - 1) as usize)
        } else {
            prev
        }
    }
}

proof fn lemma_discards_prefix(old: Seq<usize>, n: int, dup: spec_fn(int) -> bool)
    requires
        0 <= n <= usize::MAX,
    ensures
        discards(old, n, dup).len() >= old.len(),
        discards(old, n, dup).subrange(0, old.len() as int) == old,
        forall|k: int| old.len() <= k < discards(old, n, dup).len() ==> (#[trigger] discards(old, n, dup)[k] as int) < n,
        forall|i: int| #![trigger discards(old, n, dup).contains(i as usize)] 0 <= i < n && !old.contains(i as usize) ==> (discards(old, n, dup).contains(i as usize) <==> dup(i)),
    decreases n,
{
    if n > 0 {
        lemma_discards_prefix(old, n - 1, dup);
        let prev = discards(old, n - 1, dup);
        assert forall|i: int| 0 <= i < n && !old.contains(i as usize) implies (#[trigger] discards(old, n, dup).contains(i as usize) <==> dup(i)) by {
            if i < n - 1 {
                if prev.contains(i as usize) != discards(old, n, dup).contains(i as usize) {
                    assert(discards(old, n, dup) == prev.push((n - 1) as usize));
                    if discards(old, n, dup).contains(i as usize) {
                        let k = choose|k: int| 0 <= k < discards(old, n, dup).len() && discards(old, n, dup)[k] == i as usize;
                        if k < prev.len() {
                            assert(prev[k] == i as usize);
                        }
                    } else {
                        let k = choose|k: int| 0 <= k < prev.len() && prev[k] == i as usize;
                        assert(discards(old, n, dup)[k] == i as usize);
                    }
                }
            } else {
                if discards(old, n, dup).contains(i as usize) && !dup(i) {
                    let k = choose|k: int| 0 <= k < prev.len() && prev[k] == i as usize;
                    if k >= old.len() {
                        assert((prev[k] as int) < n - 1);
                    } else {
                        assert(prev.subrange(0, old.len() as int)[k] == old[k]);
                    }
                }
                if dup(i) {
                    assert(discards(old, n, dup)[prev.len() as int] == i as usize);
                }
            }
        }
        assert(discards(old, n, dup).subrange(0, old.len() as int) =~= old) by {
            assert forall|k: int| 0 <= k < old.len() implies discards(old, n, dup)[k] == old[k] by {
                assert(prev.subrange(0, old.len() as int)[k] == old[k]);
            }
        }
    }
}

/// Sample `i` has an earlier sample with the same fitness and the same entries.
pub open spec fn has_earlier_twin(pop: Seq<Vec<u8>>, fit: Seq<usize>, i: int) -> bool {
    exists|j: int| 0 <= j < i && fit[j] == fit[i] && #[trigger] pop[j]@ == pop[i]@
}

/// Sample `i` of `pop1` has the same fitness and entries as some member of `pop2`.
pub open spec fn has_twin_in(pop1: Seq<Vec<u8>>, fit1: Seq<usize>, pop2: Seq<Vec<u8>>, fit2: Seq<usize>, i: int) -> bool {
    exists|j: int| 0 <= j < pop2.len() && fit2[j] == fit1[i] && #[trigger] pop2[j]@ == pop1[i]@
}

/// Appends to `discard`, in ascending order, each index `i` not already in it
/// whose sample repeats an earlier sample of `pop` with the same fitness.
pub fn discard_repeated_same_pop(pop: &Vec<Vec<u8>>, pop_f: &Vec<usize>, discard: &mut Vec<usize>)
    requires
        pop_f@.len() <= pop@.len(),
    ensures
        final(discard)@ == discards(old(discard)@, pop_f@.len() as int, |i: int| has_earlier_twin(pop@, pop_f@, i)),
{
    let ghost dup = |i: int| has_earlier_twin(pop@, pop_f@, i);
    let ghost start = discard@;
    let n = pop_f.len();
    for i in 0..n
        invariant
            n == pop_f@.len(),
            n <= pop@.len(),
            start == old(discard)@,
            dup == (|i: int| has_earlier_twin(pop@, pop_f@, i)),
            discard@ == discards(start, i as int, dup),
    {
        proof {
            lemma_discards_prefix(start, i as int, dup);
        }
        let ghost prev = discard@;
        let already = is_in(&i, discard);
        assert(already <==> start.contains(i)) by {
            if already {
                let k = choose|k: int| 0 <= k < prev.len() && prev[k] == i;
                if k >= start.len() {
                    assert((prev[k] as int) < i);
                } else {
                    assert(prev.subrange(0, start.len() as int)[k] == start[k]);
                }
            } else if start.contains(i) {
                let k = choose|k: int| 0 <= k < start.len() && start[k] == i;
                assert(prev.subrange(0, start.len() as int)[k] == start[k]);
                assert(prev[k] == i);
            }
        }
        let mut j: usize = i;
        let mut found = false;
        if !already {
            loop
                invariant_except_break
                    !found,
                invariant
                    i < n,
                    n == pop_f@.len(),
                    n <= pop@.len(),
                    j <= i,
                    dup == (|i: int| has_earlier_twin(pop@, pop_f@, i)),
                    forall|t: int| j < t < i ==> !(pop_f@[t] == pop_f@[i as int] && #[trigger] pop@[t]@ == pop@[i as int]@),
                ensures
                    found <==> dup(i as int),
                decreases j,
            {
                if j != i && pop_f[i] == pop_f[j] {
                    if pop[i] == pop[j] {
                        assert(pop@[j as int]@ =~= pop@[i as int]@);
                        assert(has_earlier_twin(pop@, pop_f@, i as int));
                        found = true;
                        break;
                    }
                    assert(pop@[j as int]@ != pop@[i as int]@) by {
                        if pop@[j as int]@ == pop@[i as int]@ {
                            assert(pop@[j as int]@.len() == pop@[i as int]@.len());
                        }
                    }
                }
                if j == 0 {
                    assert(!has_earlier_twin(pop@, pop_f@, i as int)) by {
                        if has_earlier_twin(pop@, pop_f@, i as int) {
                            let t = choose|t: int| 0 <= t < i && pop_f@[t] == pop_f@[i as int] && #[trigger] pop@[t]@ == pop@[i as int]@;
                        }
                    }
                    break;
                }
                j -= 1;
            }
        }
        if found {
            discard.push(i);
        }
    }
}

/// Appends to `discard`, in ascending order, each index `i` of `pop1` not
/// already in it whose sample equals, in fitness and entries, some member of `pop2`.
pub fn discard_repeated_different_pop(pop1: &Vec<Vec<u8>>, pop_f1: &Vec<usize>, pop2: &Vec<Vec<u8>>, pop_f2: &Vec<usize>, discard: &mut Vec<usize>)
    requires
        pop1@.len() == pop2@.len(),
        pop_f1@.len() <= pop1@.len(),
        pop_f2@.len() >= pop2@.len(),
    ensures
        final(discard)@ == discards(old(discard)@, pop_f1@.len() as int, |i: int| has_twin_in(pop1@, pop_f1@, pop2@, pop_f2@, i)),
{
    let ghost dup = |i: int| has_twin_in(pop1@, pop_f1@, pop2@, pop_f2@, i);
    let ghost start = discard@;
    let n = pop_f1.len();
    for i in 0..n
        invariant
            n == pop_f1@.len(),
            n <= pop1@.len(),
            pop1@.len() == pop2@.len(),
            pop_f2@.len() >= pop2@.len(),
            start == old(discard)@,
            dup == (|i: int| has_twin_in(pop1@, pop_f1@, pop2@, pop_f2@, i)),
            discard@ == discards(start, i as int, dup),
    {
        proof {
            lemma_discards_prefix(start, i as int, dup);
        }
        let ghost prev = discard@;
        let already = is_in(&i, discard);
        assert(already <==> start.contains(i)) by {
            if already {
                let k = choose|k: int| 0 <= k < prev.len() && prev[k] == i;
                if k >= start.len() {
                    assert((prev[k] as int) < i);
                } else {
                    assert(prev.subrange(0, start.len() as int)[k] == start[k]);
                }
            } else if start.contains(i) {
                let k = choose|k: int| 0 <= k < start.len() && start[k] == i;
                assert(prev.subrange(0, start.len() as int)[k] == start[k]);
                assert(prev[k] == i);
            }
        }
        let mut found = false;
        if !already {
            let mut j: usize = pop2.len() - 1;
            loop
                invariant_except_break
                    !found,
                invariant
                    i < n,
                    n == pop_f1@.len(),
                    n <= pop1@.len(),
                    pop1@.len() == pop2@.len(),
                    pop_f2@.len() >= pop2@.len(),
                    j < pop2@.len(),
                    dup == (|i: int| has_twin_in(pop1@, pop_f1@, pop2@, pop_f2@, i)),
                    forall|t: int| j < t < pop2@.len() ==> !(pop_f2@[t] == pop_f1@[i as int] && #[trigger] pop2@[t]@ == pop1@[i as int]@),
                ensures
                    found <==> dup(i as int),
                decreases j,
            {
                if pop_f1[i] == pop_f2[j] {
                    if pop1[i] == pop2[j] {
                        assert(pop2@[j as int]@ =~= pop1@[i as int]@);
                        assert(has_twin_in(pop1@, pop_f1@, pop2@, pop_f2@, i as int));
                        found = true;
                        break;
                    }
                    assert(pop2@[j as int]@ != pop1@[i as int]@) by {
                        if pop2@[j as int]@ == pop1@[i as int]@ {
                            assert(pop2@[j as int]@.len() == pop1@[i as int]@.len());
                        }
                    }
                }
                if j == 0 {
                    assert(!has_twin_in(pop1@, pop_f1@, pop2@, pop_f2@, i as int)) by {
                        if has_twin_in(pop1@, pop_f1@, pop2@, pop_f2@, i as int) {
                            let t = choose|t: int| 0 <= t < pop2@.len() && pop_f2@[t] == pop_f1@[i as int] && #[trigger] pop2@[t]@ == pop1@[i as int]@;
                        }
                    }
                    break;
                }
                j -= 1;
            }
        }
        if found {
            discard.push(i);
        }
    }
}

proof fn lemma_occurrences_distinct(s: Seq<u8>, x: u8)
    requires
        forall|i: int, j: int| 0 <= i < s.len() && 0 <= j < s.len() && i != j ==> #[trigger] s[i] != #[trigger] s[j],
    ensures
        occurrences(s, x) == if value_occurs(s, x as int) { 1nat } else { 0nat },
    decreases s.len(),
{
    if s.len() > 0 {
        let t = s.drop_last();
        lemma_occurrences_distinct(t, x);
        if value_occurs(t, x as int) {
            let k = choose|k: int| 0 <= k < t.len() && t[k] == x as int;
            assert(s[k] == t[k]);
            assert(value_occurs(s, x as int));
            assert(s.last() != x);
        } else if value_occurs(s, x as int) {
            let k = choose|k: int| 0 <= k < s.len() && s[k] == x as int;
            if k < s.len() - 1 {
                assert(t[k] == s[k]);
            }
        } else {
            assert(s.last() != x) by {
                if s.last() == x {
                    assert(s[s.len() - 1] == x as int);
                }
            }
        }
    }
}

/// A permutation holds each value below its length exactly once.
pub proof fn lemma_permutation_each_value_once(s: Seq<u8>)
    requires
        is_permutation(s),
    ensures
        each_value_once(s),
{
    lemma_permutation_onto(s);
    assert forall|e: int| 0 <= e < s.len() implies #[trigger] occurrences(s, e as u8) == 1 by {
        lemma_occurrences_distinct(s, e as u8);
        assert(value_occurs(s, e));
    }
}

/// Whether every member of `pop` holds each value below its length exactly
/// once. The flag `panic` marks calls that expect a population of
/// permutations; such calls must be given one.
pub fn all_permus(pop: &Vec<Vec<u8>>, panic: bool) -> (r: bool)
    requires
        panic ==> forall|k: int| 0 <= k < pop@.len() ==> each_value_once(#[trigger] pop@[k]@),
    ensures
        r <==> forall|k: int| 0 <= k < pop@.len() ==> each_value_once(#[trigger] pop@[k]@),
{
    let mut i: usize = 0;
    let mut all_permu = true;
    while i < pop.len() && all_permu
        invariant
            i <= pop@.len(),
            all_permu <==> forall|k: int| 0 <= k < i ==> each_value_once(#[trigger] pop@[k]@),
            !all_permu ==> !forall|k: int| 0 <= k < pop@.len() ==> each_value_once(#[trigger] pop@[k]@),
        decreases pop@.len() - i,
    {
        let permu = &pop[i];
        let mut e: usize = 0;
        let mut ok = true;
        while e < permu.len() && ok
            invariant
                e <= permu@.len(),
                ok <==> forall|t: int| 0 <= t < e ==> #[trigger] occurrences(permu@, t as u8) == 1,
            decreases permu@.len() - e,
        {
            ok = count_element(permu, &(e as u8)) == 1;
            e += 1;
        }
        if !ok {
            all_permu = false;
            assert(!each_value_once(pop@[i as int]@));
        } else {
            assert(each_value_once(pop@[i as int]@));
        }
        i += 1;
    }
    all_permu
}

/// The minimum, the median (the entry at index `len / 2` in ascending order)
/// and the maximum of a non-empty vector.
pub fn min_median_max(vec: &Vec<usize>) -> (r: (usize, usize, usize))
    requires
        vec@.len() > 0,
    ensures
        exists|order: Seq<usize>| #[trigger] is_stable_argsort(vec@, order) && {
            &&& r.0 == vec@[order[0] as int]
            &&& r.1 == vec@[order[(vec@.len() / 2) as int] as int]
            &&& r.2 == vec@[order[vec@.len() - 1] as int]
        },
        forall|i: int| 0 <= i < vec@.len() ==> r.0 <= #[trigger] vec@[i] && vec@[i] <= r.2,
{
    let order = argsort(vec);
    let n = vec.len();
    proof {
        lemma_index_permutation_onto(order@);
        assert forall|i: int| 0 <= i < n implies vec@[order@[0] as int] <= #[trigger] vec@[i] && vec@[i] <= vec@[order@[n - 1] as int] by {
            assert(index_occurs(order@, i));
            let k = choose|k: int| 0 <= k < order@.len() && order@[k] == i;
            if k > 0 {
                assert(key_index_lt(vec@, order@[0], order@[k]));
            }
            if k < n - 1 {
                assert(key_index_lt(vec@, order@[k], order@[n - 1]));
            }
        }
    }
    (vec[order[0]], vec[order[n / 2]], vec[order[n - 1]])
}

/// A matrix of `rows` rows of `cols` zeros.
pub fn zeros_u8(rows: usize, cols: usize) -> (r: Vec<Vec<u8>>)
    ensures
        r@.len() == rows,
        forall|i: int| 0 <= i < rows ==> #[trigger] r@[i]@ == Seq::new(cols as nat, |j: int| 0u8),
{
    let mut m: Vec<Vec<u8>> = Vec::new();
    for i in 0..rows
        invariant
            m@.len() == i,
            forall|k: int| 0 <= k < i ==> #[trigger] m@[k]@ == Seq::new(cols as nat, |j: int| 0u8),
    {
        let mut row: Vec<u8> = Vec::new();
        for j in 0..cols
            invariant
                row@ == Seq::new(j as nat, |t: int| 0u8),
        {
            row.push(0);
        }
        m.push(row);
    }
    m
}

/// `inv` undoes `p`: the position of value `p[i]` in `inv` holds `i`.
pub open spec fn is_inverse_of(inv: Seq<u8>, p: Seq<u8>) -> bool {
    &&& inv.len() == p.len()
    &&& forall|i: int| 0 <= i < p.len() ==> #[trigger] inv[p[i] as int] == i
}

/// Replaces a permutation by its inverse: the value found at position `i`
/// becomes the position of value `i`.
pub fn invert(permu: &mut Vec<u8>)
    requires
        is_permutation(old(permu)@),
    ensures
        is_permutation(final(permu)@),
        is_inverse_of(final(permu)@, old(permu)@),
        is_inverse_of(old(permu)@, final(permu)@),
{
    let n = permu.len();
    let mut copy: Vec<u8> = Vec::new();
    for i in 0..n
        invariant
            n == permu@.len(),
            copy@ == permu@.subrange(0, i as int),
    {
        copy.push(permu[i]);
    }
    assert(copy@ == permu@.subrange(0, n as int));
    assert(copy@ =~= old(permu)@);
    for i in 0..n
        invariant
            n == permu@.len(),
            n == old(permu)@.len(),
            n <= 256,
            copy@ == old(permu)@,
            is_permutation(copy@),
            forall|k: int| 0 <= k < i ==> permu@[copy@[k] as int] == k,
    {
        permu.set(copy[i] as usize, i as u8);
    }
    proof {
        lemma_permutation_onto(copy@);
        assert forall|j: int| 0 <= j < n implies old(permu)@[permu@[j] as int] == j && (#[trigger] permu@[j] as int) < n by {
            assert(value_occurs(copy@, j));
            let k = choose|k: int| 0 <= k < n && copy@[k] == j;
            assert(permu@[copy@[k] as int] == k);
        }
        assert forall|a: int, b: int| 0 <= a < n && 0 <= b < n && a != b implies #[trigger] permu@[a] != #[trigger] permu@[b] by {
            assert(old(permu)@[permu@[a] as int] == a);
            assert(old(permu)@[permu@[b] as int] == b);
        }
    }
}

/// Inverts every permutation of a population.
pub fn invert_pop(pop: &mut Vec<Vec<u8>>)
    requires
        forall|k: int| 0 <= k < old(pop)@.len() ==> (#[trigger] is_permutation(old(pop)@[k]@)),
    ensures
        final(pop)@.len() == old(pop)@.len(),
        forall|k: int| 0 <= k < old(pop)@.len() ==> (#[trigger] is_permutation(final(pop)@[k]@)) && is_inverse_of(final(pop)@[k]@, old(pop)@[k]@),
{
    let n = pop.len();
    let ghost orig = old(pop)@;
    let mut k: usize = 0;
    while k < n
        invariant
            k <= n,
            n == pop@.len(),
            n == orig.len(),
            orig == old(pop)@,
            forall|t: int| k <= t < n ==> #[trigger] pop@[t] == orig[t],
            forall|t: int| 0 <= t < n ==> (#[trigger] is_permutation(orig[t]@)),
            forall|t: int| 0 <= t < k ==> (#[trigger] is_permutation(pop@[t]@)) && is_inverse_of(pop@[t]@, orig[t]@),
        decreases n - k,
    {
        assert(is_permutation(orig[k as int]@));
        let ghost before = pop@;
        invert(&mut pop[k]);
        assert forall|t: int| 0 <= t < n && t != k implies #[trigger] pop@[t] == before[t] by {}
        k += 1;
    }
}

} // verus!
