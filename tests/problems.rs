use permu_eda::problems::{pfsp, qap, ProblemInstance};
use permu_eda::rk::errors::Errors;
use permu_eda::rk::problems::lop::Lop;
use permu_eda::rk::problems::pfsp::Pfsp;
use permu_eda::rk::problems::{Problem, ProblemType};

#[test]
fn qap_cost_by_hand() {
    let dist = vec![vec![0, 2, 3], vec![2, 0, 1], vec![3, 1, 0]];
    let flow = vec![vec![0, 5, 1], vec![5, 0, 4], vec![1, 4, 0]];
    let instance = ProblemInstance::Instanceqap(3, dist, flow);
    assert_eq!(instance.name(), "QAP");
    // identity: 2*(2*5 + 3*1 + 1*4) = 34
    assert_eq!(qap::evaluate(&vec![0, 1, 2], &instance), 34);
    // [1, 0, 2]: pairs (0,1): d=2, f[1][0]=5; (0,2): d=3, f[1][2]=4; (1,2): d=1, f[0][2]=1
    assert_eq!(qap::evaluate(&vec![1, 0, 2], &instance), 2 * (10 + 12 + 1));
}

#[test]
fn pfsp_flow_time_by_hand() {
    let times = vec![vec![3, 2], vec![1, 4]];
    let instance = ProblemInstance::Instancepfsp(2, times);
    assert_eq!(instance.name(), "PFSP");
    // order [0, 1]: job 0 ends at 3 then 4; job 1: machine 0 at 5, machine 1 at max(5, 4) + 4 = 9
    assert_eq!(pfsp::evaluate(&vec![0, 1], &instance), 4 + 9);
    // order [1, 0]: job 1 ends at 2 then 6; job 0: 5, then max(5, 6) + 1 = 7
    assert_eq!(pfsp::evaluate(&vec![1, 0], &instance), 6 + 7);
}

#[test]
fn lop_and_pfsp_problems() {
    let lop = Lop::from_matrix(3, vec![vec![0, 1, 2], vec![3, 0, 4], vec![5, 6, 0]]).unwrap();
    assert_eq!(lop.size(), 3);
    // [0, 1, 2]: w01 + w02 + w12 = 1 + 2 + 4; [2, 1, 0]: w21 + w20 + w10 = 6 + 5 + 3
    assert_eq!(lop.eval_population(&vec![vec![0, 1, 2], vec![2, 1, 0]]), vec![7, 14]);
    assert!(matches!(Lop::from_matrix(3, vec![vec![0, 1, 2], vec![3, 0]]), Err(Errors::RowsDifferentLength)));

    let pfsp = Pfsp::from_matrix(2, 2, vec![vec![3, 2], vec![1, 4]]).unwrap();
    assert_eq!(pfsp.size(), 2);
    assert_eq!(pfsp.eval_population(&vec![vec![0, 1], vec![1, 0]]), vec![13, 13]);
    assert!(matches!(Pfsp::from_matrix(2, 3, vec![vec![3, 2], vec![1, 4]]), Err(Errors::RowsDifferentLength)));
    assert_eq!(Errors::FailedToParse.message(), "Parse error");
    assert_ne!(ProblemType::Lop, ProblemType::Pfsp);
}
