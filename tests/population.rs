use permu_eda::population::{select_survivors, steady_state_replace};
use permu_eda::rk::Objective;
use permu_eda::umda::ModelType;

#[test]
fn select_best_minimizing_and_maximizing() {
    let pop: Vec<Vec<u8>> = vec![vec![0, 1, 2], vec![2, 0, 1], vec![1, 2, 0], vec![2, 1, 0]];
    let fitness: Vec<usize> = vec![7, 3, 9, 3];
    let best = select_survivors(&pop, &fitness, 2, Objective::Minimize, ModelType::Marginal);
    assert_eq!(best, vec![vec![2, 0, 1], vec![2, 1, 0]]);
    let best = select_survivors(&pop, &fitness, 2, Objective::Maximize, ModelType::Marginal);
    assert_eq!(best, vec![vec![1, 2, 0], vec![0, 1, 2]]);
    let codes = select_survivors(&pop, &fitness, 1, Objective::Minimize, ModelType::Vj);
    assert_eq!(codes, vec![vec![2, 0]]);
}

#[test]
fn steady_state_replaces_worst_with_better_samples() {
    let mut pop: Vec<Vec<u8>> = vec![vec![0, 1, 2], vec![1, 0, 2], vec![2, 1, 0]];
    let mut pop_f: Vec<usize> = vec![5, 9, 7];
    let samples: Vec<Vec<u8>> = vec![vec![1, 2, 0], vec![2, 0, 1], vec![0, 2, 1]];
    let samples_f: Vec<usize> = vec![6, 1, 2];
    let discard: Vec<usize> = vec![];
    let added = steady_state_replace(&mut pop, &mut pop_f, &samples, &samples_f, &discard, Objective::Minimize);
    // worst slots first: 1 (9), 2 (7), 0 (5); best samples first: 1 (1), 2 (2), 0 (6)
    assert_eq!(added, 2);
    assert_eq!(pop, vec![vec![0, 1, 2], vec![2, 0, 1], vec![0, 2, 1]]);
    assert_eq!(pop_f, vec![5, 1, 2]);
    assert_eq!(pop.len(), 3);
}

#[test]
fn steady_state_skips_discarded_and_stops_at_first_worse() {
    let mut pop: Vec<Vec<u8>> = vec![vec![0, 1], vec![1, 0]];
    let mut pop_f: Vec<usize> = vec![4, 8];
    let samples: Vec<Vec<u8>> = vec![vec![1, 0], vec![0, 1], vec![1, 0]];
    let samples_f: Vec<usize> = vec![1, 2, 9];
    let discard: Vec<usize> = vec![0];
    let added = steady_state_replace(&mut pop, &mut pop_f, &samples, &samples_f, &discard, Objective::Minimize);
    // sample 0 is discarded; sample 1 (2) beats slot 1 (8); sample 2 (9) does not beat slot 0 (4)
    assert_eq!(added, 1);
    assert_eq!(pop, vec![vec![0, 1], vec![0, 1]]);
    assert_eq!(pop_f, vec![4, 2]);
    for (new, old) in pop_f.iter().zip([4usize, 8].iter()) {
        assert!(new <= old);
    }
}

#[test]
fn steady_state_maximizing() {
    let mut pop: Vec<Vec<u8>> = vec![vec![0, 1], vec![1, 0]];
    let mut pop_f: Vec<usize> = vec![4, 8];
    let samples: Vec<Vec<u8>> = vec![vec![1, 0]];
    let samples_f: Vec<usize> = vec![5];
    let added = steady_state_replace(&mut pop, &mut pop_f, &samples, &samples_f, &vec![], Objective::Maximize);
    assert_eq!(added, 1);
    assert_eq!(pop_f, vec![5, 8]);
    assert_eq!(pop, vec![vec![1, 0], vec![1, 0]]);
}
