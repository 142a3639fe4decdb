use permu_eda::permu_utils;

#[test]
fn element_is_in_list() {
    let a: Vec<u8> = vec![8, 2, 1, 3, 4];
    let e = 2;
    assert!(permu_utils::is_in(&e, &a), "Failed to check if {} is in {:?}", e, a);

    let a: Vec<usize> = vec![700, 3726, 4163];
    let e = 4163;
    assert!(permu_utils::is_in(&e, &a), "Failed to check if {} is in {:?}", e, a);

    let a: Vec<f64> = vec![1.1, 3.87, 4.9];
    let e = 1.1;
    assert!(permu_utils::is_in(&e, &a), "Failed to check if {} is in {:?}", e, a);
    let e = 1.2;
    assert!(!permu_utils::is_in(&e, &a), "Failed to check if {} is in {:?}", e, a);
}

#[test]
fn identity() {
    let mut a: Vec<u8> = vec![0; 4];
    permu_utils::identity(&mut a);
    assert_eq!(a, vec![0, 1, 2, 3], "Cannot generate a identity vector")
}

#[test]
fn all_permutations_checker_no_panic() {
    let pop: Vec<Vec<u8>> = vec![vec![0, 1, 2], vec![2, 1, 0], vec![2, 0, 1]];
    permu_utils::all_permus(&pop, true);
}

#[test]
fn all_permutations_checker_reports_non_permutations() {
    let pop: Vec<Vec<u8>> = vec![vec![0, 1, 2], vec![2, 1, 3], vec![0, 0, 0]];
    assert!(!permu_utils::all_permus(&pop, false));
    let pop: Vec<Vec<u8>> = vec![vec![0, 1, 2], vec![1, 0]];
    assert!(permu_utils::all_permus(&pop, false));
}

#[test]
fn random_permutation_generator() {
    let size = 20;
    for _i in 0..2000 {
        let p = permu_utils::random_permutation(&size);
        let pop = vec![p];
        permu_utils::all_permus(&pop, true);
    }
}

#[test]
fn random_permutation_is_shuffled() {
    let size = 20;
    let identity: Vec<u8> = (0..20).collect();
    let mut moved = false;
    for _i in 0..50 {
        let p = permu_utils::random_permutation(&size);
        assert_eq!(p.len(), 20);
        assert!(permu_utils::all_permus(&vec![p.clone()], false));
        if p != identity {
            moved = true;
        }
    }
    assert!(moved);
}

#[test]
fn generate_random_popualtion() {
    let pop = permu_utils::random_population(&10, &3000);
    permu_utils::all_permus(&pop, true);
}

#[test]
fn random_population_members_are_distinct() {
    let pop = permu_utils::random_population(&3, &6);
    assert_eq!(pop.len(), 6);
    for a in 0..pop.len() {
        for b in 0..pop.len() {
            if a != b {
                assert_ne!(pop[a], pop[b]);
            }
        }
    }
}

#[test]
fn transformations_permu_vj() {
    let size = 10;
    for _i in 0..2000 {
        let permu = permu_utils::random_permutation(&size);

        let mut vj: Vec<u8> = vec![0; size - 1];
        permu_utils::permu2vj(&permu, &mut vj);

        let mut permu2: Vec<u8> = vec![0; size];
        permu_utils::vj2permu(&vj, &mut permu2);

        assert_eq!(permu, permu2, "Failed transforming a permutation to vj");

        let pop = vec![permu];
        permu_utils::all_permus(&pop, true);
    }
}

#[test]
fn rank_code_of_known_permutation() {
    let permu: Vec<u8> = vec![2, 0, 3, 1];
    let mut vj: Vec<u8> = vec![0; 3];
    permu_utils::permu2vj(&permu, &mut vj);
    assert_eq!(vj, vec![2, 0, 1]);
    let mut back: Vec<u8> = vec![0; 4];
    permu_utils::vj2permu(&vj, &mut back);
    assert_eq!(back, permu);
}

#[test]
fn discard_repeated_same_pop() {
    let mut discard: Vec<usize> = vec![];
    let correct: Vec<usize> = vec![2];

    let pop: Vec<Vec<u8>> = vec![vec![1, 2, 0], vec![0, 1, 2], vec![1, 2, 0], vec![0, 2, 1], vec![2, 1, 0]];
    let pop_f: Vec<usize> = vec![10, 12, 10, 12, 7];

    permu_utils::discard_repeated_same_pop(&pop, &pop_f, &mut discard);

    assert_eq!(discard, correct, "Discarding repeated samples from a single population failed.");
}

#[test]
fn discard_same_pop_needs_equal_fitness() {
    let pop: Vec<Vec<u8>> = vec![vec![1, 2, 0], vec![1, 2, 0], vec![1, 2, 0]];
    let pop_f: Vec<usize> = vec![4, 5, 4];
    let mut discard: Vec<usize> = vec![];
    permu_utils::discard_repeated_same_pop(&pop, &pop_f, &mut discard);
    assert_eq!(discard, vec![2]);
    let mut discard: Vec<usize> = vec![2];
    permu_utils::discard_repeated_same_pop(&pop, &pop_f, &mut discard);
    assert_eq!(discard, vec![2]);
}

#[test]
fn discard_repeated_different_pop() {
    let pop1: Vec<Vec<u8>> = vec![vec![0, 1, 2], vec![1, 2, 0], vec![0, 1, 2], vec![2, 0, 1]];
    let pop_f1 = vec![5, 3, 5, 1];
    let pop2: Vec<Vec<u8>> = vec![vec![2, 1, 0], vec![1, 0, 2], vec![0, 1, 2], vec![1, 2, 0]];
    let pop_f2 = vec![1, 5, 5, 3];
    let mut discard = vec![2];

    permu_utils::discard_repeated_different_pop(&pop1, &pop_f1, &pop2, &pop_f2, &mut discard);
    assert_eq!(discard, vec![2, 0, 1], "Failed to discard repeted solutions of pop1 in pop2");

    // Second test
    let pop1 = vec![vec![0, 1, 2], vec![1, 2, 0], vec![2, 0, 1]];
    let pop_f1 = vec![3, 2, 5];
    let pop2 = vec![vec![2, 0, 1], vec![2, 1, 0], vec![0, 1, 2]];
    let pop_f2 = vec![5, 3, 3];
    let mut discard = vec![];

    permu_utils::discard_repeated_different_pop(&pop1, &pop_f1, &pop2, &pop_f2, &mut discard);
    assert_eq!(discard, vec![0, 2], "Failed to discard repeted solutions of pop1 in pop2");
}

#[test]
fn invert_permutation_and_population() {
    let permu: Vec<u8> = vec![0, 2, 3, 1];
    let mut permu_mut = permu.clone();

    permu_utils::invert(&mut permu_mut);
    assert_eq!(permu_mut, vec![0, 3, 1, 2], "Failed to invert a permutation");

    permu_utils::invert(&mut permu_mut);
    assert_eq!(permu_mut, permu, "Failed to recover original permutation from inverse");

    let mut pop = permu_utils::random_population(&20, &200);
    let pop_copy = pop.clone();

    for _i in 0..4 {
        permu_utils::invert_pop(&mut pop);
    }

    assert_eq!(pop, pop_copy, "Failed to invert and recover a population of permutations");
}

#[test]
fn argmin_argmax_argsort() {
    let v = vec![1, 4, 2, 4, 2, 1, 0, 3, 5];

    assert_eq!(6, permu_utils::argmin(&v), "Failed to find the index of the minimum value from a vector.");
    assert_eq!(8, permu_utils::argmax(&v), "Failed to find the index of the maximum value from a vector.");

    let v = vec![2, 1, 0, 3, 5];
    let sorted = permu_utils::argsort(&v);

    assert_eq!(sorted, vec![2, 1, 0, 3, 4], "Failed to argsort a vector");

    let v = vec![1, 1, 0, 0, 5];
    let sorted = permu_utils::argsort(&v);

    assert_eq!(sorted, vec![2, 3, 0, 1, 4], "Failed to argsort a vector");
}

#[test]
fn argmin_argmax_ties_and_empty() {
    let v: Vec<usize> = vec![3, 1, 1, 3];
    assert_eq!(permu_utils::argmin(&v), 1);
    assert_eq!(permu_utils::argmax(&v), 0);
    let empty: Vec<usize> = vec![];
    assert_eq!(permu_utils::argmin(&empty), 0);
    assert_eq!(permu_utils::argsort(&empty), Vec::<usize>::new());
}

#[test]
fn count_and_membership() {
    let v: Vec<u8> = vec![1, 0, 1, 1];
    assert_eq!(permu_utils::count_element(&v, &1), 3);
    assert_eq!(permu_utils::count_element(&v, &2), 0);
    let pop: Vec<Vec<u8>> = vec![vec![0, 1], vec![1, 0]];
    assert!(permu_utils::vec_exists_in(&vec![1, 0], &pop));
    assert!(!permu_utils::vec_exists_in(&vec![1, 1], &pop));
    assert_eq!(permu_utils::zeros_u8(2, 3), vec![vec![0u8, 0, 0], vec![0, 0, 0]]);
}

#[test]
fn probability() {
    let d = vec![vec![2, 1, 0], vec![1, 2, 0], vec![0, 0, 3]];
    let fashion = vec![0, 1, 2];
    let factors = permu_utils::probability_factors(&d, &fashion);
    assert_eq!(factors, vec![(2, 3), (2, 3), (3, 3)]);
    let mut p = 1.0;
    for (num, den) in factors {
        p *= num as f64 / den as f64;
    }

    assert_eq!(0.4444444444444444, p);
}

#[test]
fn order_statistics() {
    let a = vec![1, 3, 2, 4, 1];
    assert_eq!(permu_utils::min_median_max(&a), (1, 2, 4));
    assert_eq!(permu_utils::min_median_max(&vec![7]), (7, 7, 7));
    assert_eq!(permu_utils::min_median_max(&vec![9, 2]), (2, 9, 9));
}
