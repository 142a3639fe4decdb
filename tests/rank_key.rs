use permu_eda::rk::eda::{learn_means, permutation_from_keys};
use permu_eda::rk::utils::{argsort, random_population};
use permu_eda::rk::Objective;

#[test]
fn biased_means_divide_by_population_size() {
    let pop: Vec<Vec<usize>> = vec![vec![0, 1, 2], vec![2, 1, 0], vec![1, 0, 2], vec![2, 0, 1]];
    let fitness: Vec<usize> = vec![10, 3, 7, 1];
    let means = learn_means(&pop, &fitness, 2, Objective::Minimize);
    // best two: members 3 and 1; sums per position 4, 1, 1; denominator (3 - 1) * 4 = 8
    assert_eq!(means.sums, vec![4, 1, 1]);
    assert_eq!(means.denominator, 8);
    // the first mean is 4 / 8 = 0.5, where dividing by the selection would give 1.0
    assert_eq!(means.sums[0] as f64 / means.denominator as f64, 0.5);

    let means = learn_means(&pop, &fitness, 1, Objective::Maximize);
    assert_eq!(means.sums, vec![0, 1, 2]);
}

#[test]
fn keys_give_permutations() {
    assert_eq!(permutation_from_keys(&vec![30, 10, 20]), vec![1, 2, 0]);
    assert_eq!(permutation_from_keys(&vec![5, 5, 1, 5]), vec![2, 0, 1, 3]);
    assert_eq!(argsort(&vec![2, 2, 1]), vec![2, 0, 1]);
}

#[test]
fn shuffled_population() {
    let pop = random_population(6, 50);
    assert_eq!(pop.len(), 50);
    for sol in &pop {
        let mut seen = vec![false; 6];
        for &v in sol {
            assert!(v < 6);
            assert!(!seen[v]);
            seen[v] = true;
        }
    }
}
