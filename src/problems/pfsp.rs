use vstd::prelude::*;
use crate::problems::{byte_jobs, flow_time, index_jobs, jobs_fit, total_flow_time, ProblemInstance};

verus! {

/// The processing times of a flow-shop instance, row per machine.
pub open spec fn times(instance: ProblemInstance) -> Seq<Seq<usize>> {
    match instance {
        ProblemInstance::Instancepfsp(_, t) => Seq::new(t@.len(), |m: int| t@[m]@),
        _ => Seq::empty(),
    }
}

/// Total flow time of the job order `permu` on a flow-shop instance.
pub fn evaluate(permu: &Vec<u8>, p_instance: &ProblemInstance) -> (r: usize)
    requires
        p_instance is Instancepfsp,
        jobs_fit(times(*p_instance), byte_jobs(permu@)),
        flow_time(times(*p_instance), byte_jobs(permu@), permu@.len() as int) <= usize::MAX,
    ensures
        r == flow_time(times(*p_instance), byte_jobs(permu@), permu@.len() as int),
{
    let mut jobs: Vec<usize> = Vec::new();
    for i in 0..permu.len()
        invariant
            jobs@.len() == i,
            forall|k: int| 0 <= k < i ==> jobs@[k] as int == permu@[k] as int,
    {
        jobs.push(permu[i] as usize);
    }
    assert(index_jobs(jobs@) =~= byte_jobs(permu@));
    match p_instance {
        ProblemInstance::Instancepfsp(_, instance) => total_flow_time(instance, &jobs),
        _ => 0,
    }
}

} // verus!
