use vstd::prelude::*;
use crate::problems::{byte_jobs, ProblemInstance};

verus! {

/// Cost contributed by facility row `i` over the locations `j < k`:
/// the sum of `dist[i][j] * flow[p[i]][p[j]]`.
pub open spec fn row_cost(dist: Seq<Seq<usize>>, flow: Seq<Seq<usize>>, p: Seq<int>, i: int, k: int) -> int
    decreases k,
{
    if k <= 0 {
        0
    } else {
        row_cost(dist, flow, p, i, k - 1) + dist[i][k - 1] * flow[p[i]][p[k - 1]]
    }
}

/// Assignment cost over the rows `i < k` of an instance of size `n`.
pub open spec fn qap_cost(dist: Seq<Seq<usize>>, flow: Seq<Seq<usize>>, p: Seq<int>, n: int, k: int) -> int
    decreases k,
{
    if k <= 0 {
        0
    } else {
        qap_cost(dist, flow, p, n, k - 1) + row_cost(dist, flow, p, k - 1, n)
    }
}

/// The parts of an assignment instance: its size, distances and flows.
pub open spec fn parts(instance: ProblemInstance) -> (int, Seq<Seq<usize>>, Seq<Seq<usize>>) {
    match instance {
        ProblemInstance::Instanceqap(n, d, f) => (n as int, Seq::new(d@.len(), |i: int| d@[i]@), Seq::new(f@.len(), |i: int| f@[i]@)),
        _ => (0, Seq::empty(), Seq::empty()),
    }
}

/// The instance and the permutation fit together: `n` rows of at least `n`
/// distances, and a flow for every pair of assigned values.
pub open spec fn fits(instance: ProblemInstance, p: Seq<int>) -> bool {
    let (n, d, f) = parts(instance);
    &&& p.len() >= n
    &&& d.len() >= n
    &&& forall|i: int| 0 <= i < n ==> (#[trigger] d[i]).len() >= n
    &&& forall|i: int| 0 <= i < n ==> 0 <= #[trigger] p[i] < f.len()
    &&& forall|i: int, j: int| 0 <= i < n && 0 <= j < n ==> #[trigger] p[j] < #[trigger] f[p[i]].len()
}

proof fn lemma_row_cost_grows(dist: Seq<Seq<usize>>, flow: Seq<Seq<usize>>, p: Seq<int>, i: int, a: int, b: int)
    requires
        0 <= a <= b,
    ensures
        0 <= row_cost(dist, flow, p, i, a) <= row_cost(dist, flow, p, i, b),
    decreases b,
{
    if b > 0 {
        assert(dist[i][b - 1] * flow[p[i]][p[b - 1]] >= 0) by (nonlinear_arith)
            requires dist[i][b - 1] >= 0, flow[p[i]][p[b - 1]] >= 0;
        if a < b {
            lemma_row_cost_grows(dist, flow, p, i, a, b - 1);
        } else {
            lemma_row_cost_grows(dist, flow, p, i, b - 1, b - 1);
        }
    }
}

proof fn lemma_qap_cost_grows(dist: Seq<Seq<usize>>, flow: Seq<Seq<usize>>, p: Seq<int>, n: int, a: int, b: int)
    requires
        0 <= a <= b,
        0 <= n,
    ensures
        0 <= qap_cost(dist, flow, p, n, a) <= qap_cost(dist, flow, p, n, b),
    decreases b,
{
    if b > 0 {
        lemma_row_cost_grows(dist, flow, p, b - 1, 0, n);
        if a < b {
            lemma_qap_cost_grows(dist, flow, p, n, a, b - 1);
        } else {
            lemma_qap_cost_grows(dist, flow, p, n, b - 1, b - 1);
        }
    }
}

/// Assignment cost of `permu`: the sum over all location pairs `(i, j)` of
/// `dist[i][j] * flow[permu[i]][permu[j]]`.
pub fn evaluate(permu: &Vec<u8>, instance: &ProblemInstance) -> (r: usize)
    requires
        instance is Instanceqap,
        fits(*instance, byte_jobs(permu@)),
        qap_cost(parts(*instance).1, parts(*instance).2, byte_jobs(permu@), parts(*instance).0, parts(*instance).0) <= usize::MAX,
    ensures
        r == qap_cost(parts(*instance).1, parts(*instance).2, byte_jobs(permu@), parts(*instance).0, parts(*instance).0),
{
    match instance {
        ProblemInstance::Instanceqap(size, dist, flow) => {
            let ghost d = parts(*instance).1;
            let ghost f = parts(*instance).2;
            let ghost p = byte_jobs(permu@);
            let n = *size;
            let mut fitness: usize = 0;
            for i in 0..n
                invariant
                    n == parts(*instance).0,
                    d == Seq::new(dist@.len(), |i: int| dist@[i]@),
                    f == Seq::new(flow@.len(), |i: int| flow@[i]@),
                    p == byte_jobs(permu@),
                    fits(*instance, p),
                    *instance == ProblemInstance::Instanceqap(n, *dist, *flow),
                    qap_cost(d, f, p, n as int, n as int) <= usize::MAX,
                    fitness == qap_cost(d, f, p, n as int, i as int),
            {
                proof {
                    lemma_qap_cost_grows(d, f, p, n as int, i + 1, n as int);
                }
                for j in 0..n
                    invariant
                        i < n,
                        n == parts(*instance).0,
                        d == Seq::new(dist@.len(), |i: int| dist@[i]@),
                        f == Seq::new(flow@.len(), |i: int| flow@[i]@),
                        p == byte_jobs(permu@),
                        fits(*instance, p),
                        *instance == ProblemInstance::Instanceqap(n, *dist, *flow),
                        qap_cost(d, f, p, n as int, i + 1) <= usize::MAX,
                        fitness == qap_cost(d, f, p, n as int, i as int) + row_cost(d, f, p, i as int, j as int),
                {
                    proof {
                        lemma_row_cost_grows(d, f, p, i as int, j + 1, n as int);
                        assert(d[i as int] == dist@[i as int]@);
                        assert(0 <= p[i as int] < f.len());
                        assert(p[j as int] < f[p[i as int]].len());
                        assert(f[p[i as int]] == flow@[permu@[i as int] as int]@);
                    }
                    let fact_a = permu[i] as usize;
                    let fact_b = permu[j] as usize;
                    let dist_ab = dist[i][j];
                    let flow_ab = flow[fact_a][fact_b];
                    fitness = fitness + dist_ab * flow_ab;
                }
            }
            fitness
        },
        _ => 0,
    }
}

} // verus!
