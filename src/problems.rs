use vstd::prelude::*;

pub mod pfsp;
pub mod qap;

verus! {

/// A problem instance: an assignment instance (size, distances, flows) or a
/// flow-shop instance (size, processing times per machine and job).
#[derive(Debug)]
pub enum ProblemInstance {
    Instanceqap(usize, Vec<Vec<usize>>, Vec<Vec<usize>>),
    Instancepfsp(usize, Vec<Vec<usize>>),
}

impl ProblemInstance {
    /// Short name of the problem kind.
    pub fn name(&self) -> (r: &str)
        ensures
            self is Instanceqap ==> r@ == "QAP"@,
            self is Instancepfsp ==> r@ == "PFSP"@,
    {
        match *self {
            ProblemInstance::Instanceqap(_, _, _) => "QAP",
            ProblemInstance::Instancepfsp(_, _) => "PFSP",
        }
    }
}

/// The entries of a sequence of bytes, as integers.
pub open spec fn byte_jobs(p: Seq<u8>) -> Seq<int> {
    Seq::new(p.len(), |i: int| p[i] as int)
}

/// The entries of a sequence of indices, as integers.
pub open spec fn index_jobs(p: Seq<usize>) -> Seq<int> {
    Seq::new(p.len(), |i: int| p[i] as int)
}

/// Completion time of the job at sequence position `k` on machine `m` when the
/// jobs run in the order `jobs`: a job starts on a machine once it has left
/// the previous machine and the machine has finished the previous job.
pub open spec fn completion(t: Seq<Seq<usize>>, jobs: Seq<int>, k: int, m: int) -> int
    decreases k, m,
{
    if k <= 0 && m <= 0 {
        t[0][jobs[0]] as int
    } else if m <= 0 {
        completion(t, jobs, k - 1, 0) + t[0][jobs[k]] as int
    } else if k <= 0 {
        completion(t, jobs, k, m - 1) + t[m][jobs[0]] as int
    } else {
        let a = completion(t, jobs, k, m - 1);
        let b = completion(t, jobs, k - 1, m);
        (if a >= b { a } else { b }) + t[m][jobs[k]] as int
    }
}

/// Total flow time of the first `k` jobs: the sum of their completion times
/// on the last machine (zero without machines).
pub open spec fn flow_time(t: Seq<Seq<usize>>, jobs: Seq<int>, k: int) -> int
    decreases k,
{
    if k <= 0 || t.len() == 0 {
        0
    } else {
        flow_time(t, jobs, k - 1) + completion(t, jobs, k - 1, t.len() - 1)
    }
}

/// Every job index names a column of every machine's row.
pub open spec fn jobs_fit(t: Seq<Seq<usize>>, jobs: Seq<int>) -> bool {
    forall|k: int, m: int| 0 <= k < jobs.len() && 0 <= m < t.len() ==> 0 <= #[trigger] jobs[k] < #[trigger] t[m].len()
}

proof fn lemma_completion_grows(t: Seq<Seq<usize>>, jobs: Seq<int>, k: int, m: int)
    requires
        0 <= k,
        0 <= m,
    ensures
        0 <= completion(t, jobs, k, m),
        completion(t, jobs, k, m) <= completion(t, jobs, k, m + 1),
        k > 0 ==> completion(t, jobs, k - 1, m) <= completion(t, jobs, k, m),
    decreases k, m,
{
    if k > 0 && m > 0 {
        lemma_completion_grows(t, jobs, k, m - 1);
        lemma_completion_grows(t, jobs, k - 1, m);
    } else if k > 0 {
        lemma_completion_grows(t, jobs, k - 1, m);
    } else if m > 0 {
        lemma_completion_grows(t, jobs, k, m - 1);
    }
}

proof fn lemma_completion_below_last(t: Seq<Seq<usize>>, jobs: Seq<int>, k: int, m: int, last: int)
    requires
        0 <= k,
        0 <= m <= last,
    ensures
        completion(t, jobs, k, m) <= completion(t, jobs, k, last),
    decreases last - m,
{
    lemma_completion_grows(t, jobs, k, m);
    if m < last {
        lemma_completion_below_last(t, jobs, k, m + 1, last);
    }
}

proof fn lemma_flow_time_grows(t: Seq<Seq<usize>>, jobs: Seq<int>, i: int, j: int)
    requires
        0 <= i <= j,
    ensures
        0 <= flow_time(t, jobs, i) <= flow_time(t, jobs, j),
    decreases j,
{
    if j > 0 && t.len() > 0 {
        lemma_completion_grows(t, jobs, j - 1, t.len() - 1);
        if i < j {
            lemma_flow_time_grows(t, jobs, i, j - 1);
        } else {
            lemma_flow_time_grows(t, jobs, j - 1, j - 1);
        }
    }
}

/// Total flow time of running `jobs` in order through the machines of `t`.
pub fn total_flow_time(t: &Vec<Vec<usize>>, jobs: &Vec<usize>) -> (r: usize)
    requires
        jobs_fit(Seq::new(t@.len(), |m: int| t@[m]@), index_jobs(jobs@)),
        flow_time(Seq::new(t@.len(), |m: int| t@[m]@), index_jobs(jobs@), jobs@.len() as int) <= usize::MAX,
    ensures
        r == flow_time(Seq::new(t@.len(), |m: int| t@[m]@), index_jobs(jobs@), jobs@.len() as int),
{
    let ghost ts = Seq::new(t@.len(), |m: int| t@[m]@);
    let ghost js = index_jobs(jobs@);
    let n_machines = t.len();
    let n = jobs.len();
    let mut tft: usize = 0;
    let mut b: Vec<usize> = Vec::new();
    for m in 0..n_machines
        invariant
            b@.len() == m,
    {
        b.push(0);
    }
    for job_i in 0..n
        invariant
            n == jobs@.len(),
            n_machines == t@.len(),
            ts == Seq::new(t@.len(), |m: int| t@[m]@),
            js == index_jobs(jobs@),
            jobs_fit(ts, js),
            flow_time(ts, js, n as int) <= usize::MAX,
            b@.len() == n_machines,
            tft == flow_time(ts, js, job_i as int),
            job_i > 0 ==> forall|mm: int| 0 <= mm < n_machines ==> #[trigger] b@[mm] == completion(ts, js, job_i - 1, mm),
    {
        proof {
            lemma_flow_time_grows(ts, js, job_i + 1, n as int);
        }
        let job = jobs[job_i];
        let mut pt: usize = 0;
        let mut machine: usize = 0;
        while machine < n_machines
            invariant
                machine <= n_machines,
                n_machines == 0 ==> pt == 0,
                n == jobs@.len(),
                job_i < n,
                job == jobs@[job_i as int],
                n_machines == t@.len(),
                ts == Seq::new(t@.len(), |m: int| t@[m]@),
                js == index_jobs(jobs@),
                jobs_fit(ts, js),
                flow_time(ts, js, job_i + 1) <= usize::MAX,
                tft == flow_time(ts, js, job_i as int),
                tft + (if n_machines > 0 { completion(ts, js, job_i as int, n_machines - 1) } else { 0 }) == flow_time(ts, js, job_i + 1),
                b@.len() == n_machines,
                machine > 0 ==> pt == completion(ts, js, job_i as int, machine - 1),
                forall|mm: int| 0 <= mm < machine ==> #[trigger] b@[mm] == completion(ts, js, job_i as int, mm),
                job_i > 0 ==> forall|mm: int| machine <= mm < n_machines ==> #[trigger] b@[mm] == completion(ts, js, job_i - 1, mm),
            decreases n_machines - machine,
        {
            proof {
                assert(js[job_i as int] == job as int);
                assert(ts[machine as int] == t@[machine as int]@);
                assert(0 <= js[job_i as int] < ts[machine as int].len());
                lemma_completion_grows(ts, js, job_i as int, machine as int);
                lemma_completion_below_last(ts, js, job_i as int, machine as int, n_machines - 1);
                lemma_flow_time_grows(ts, js, job_i as int, job_i as int);
            }
            if job_i == 0 && machine == 0 {
                pt = t[machine][job];
            } else if job_i > 0 && machine == 0 {
                pt = b[machine] + t[machine][job];
            } else if job_i == 0 && machine > 0 {
                pt = b[machine - 1] + t[machine][job];
            } else {
                let prev = if b[machine - 1] >= b[machine] { b[machine - 1] } else { b[machine] };
                pt = prev + t[machine][job];
            }
            b.set(machine, pt);
            machine += 1;
        }
        tft = tft + pt;
    }
    tft
}

} // verus!
