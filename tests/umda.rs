use permu_eda::permu_utils;
use permu_eda::umda::marginal;
use permu_eda::umda::vj;
use permu_eda::umda::{allowed_total, count_matrix, pick_value, Model, ModelError, ModelType};

#[test]
fn marginal_init() {
    let model = Model::new(20, ModelType::Marginal);

    match model.model_type {
        ModelType::Marginal => (),
        _ => panic!("Error"),
    }
}

#[test]
fn marginal_disribution() {
    let size = 3;
    let mut model = Model::new(size, ModelType::Marginal);

    let pop: Vec<Vec<u8>> = vec![vec![2, 1, 0], vec![2, 1, 0], vec![1, 2, 0]];

    model.learn_distribution(&pop).unwrap();

    let d = match model.clone_distribution() {
        Ok(x) => x,
        Err(e) => panic!("{:?}", e),
    };
    let ok = vec![vec![0, 1, 2], vec![0, 2, 1], vec![3, 0, 0]];
    assert_eq!(ok, d, "Distribution calculation error");

    let mut samples = permu_utils::zeros_u8(100, size);
    let zeros = samples.clone();

    model.sample(&mut samples).unwrap();

    let d2 = match model.clone_distribution() {
        Ok(x) => x,
        Err(e) => panic!("{:?}", e),
    };

    assert_ne!(samples, zeros, "Sampling not working, returning empty solutions");
    assert_eq!(d, d2, "This distributions must be equal");
    permu_utils::all_permus(&samples, true);

    model.laplace(false).unwrap();

    let d3 = match model.clone_distribution() {
        Ok(x) => x,
        Err(e) => panic!("{:?}", e),
    };
    let ok_laplace = vec![vec![1, 2, 3], vec![1, 3, 2], vec![4, 1, 1]];
    assert_eq!(ok_laplace, d3, "Failed to apply laplace");

    model.laplace(true).unwrap();

    let d4 = match model.clone_distribution() {
        Ok(x) => x,
        Err(e) => panic!("{:?}", e),
    };
    assert_eq!(ok, d4, "Failed to remove laplace");
}

#[test]
fn vj_in() {
    let model = Model::new(20, ModelType::Vj);
    assert_eq!(model.size(), 20);

    match model.model_type {
        ModelType::Vj => (),
        _ => panic!("Error"),
    }
}

#[test]
fn vj_distribution() {
    let size = 4;
    let mut model = Model::new(size, ModelType::Vj);

    let vj: Vec<Vec<u8>> = vec![vec![2, 1, 0], vec![3, 1, 0], vec![1, 1, 0]];

    model.learn_distribution(&vj).unwrap();

    let d = match model.clone_distribution() {
        Ok(x) => x,
        Err(e) => panic!("{:?}", e),
    };
    let ok = vec![vec![0, 1, 1, 1], vec![0, 3, 0, 0], vec![3, 0, 0, 0]];
    assert_eq!(ok, d, "Distribution calculation error");

    let mut samples = permu_utils::zeros_u8(100, size);
    let zeros = samples.clone();

    model.sample(&mut samples).unwrap();

    let d2 = match model.clone_distribution() {
        Ok(x) => x,
        Err(e) => panic!("{:?}", e),
    };

    assert_ne!(samples, zeros, "Sampling not working, returning empty solutions");
    assert_eq!(d, d2, "This distributions must be equal");
    permu_utils::all_permus(&samples, true);

    model.laplace(false).unwrap();

    let d3 = match model.clone_distribution() {
        Ok(x) => x,
        Err(e) => panic!("{:?}", e),
    };
    let ok_laplace = vec![vec![1, 2, 2, 2], vec![1, 4, 1, 0], vec![4, 1, 0, 0]];
    assert_eq!(ok_laplace, d3, "Failed to apply laplace");

    model.laplace(true).unwrap();

    let d4 = match model.clone_distribution() {
        Ok(x) => x,
        Err(e) => panic!("{:?}", e),
    };
    assert_eq!(ok, d4, "Failed to remove laplace");
}

#[test]
#[should_panic]
fn sample_from_empty_distribution() {
    let mut model = Model::new(10, ModelType::Marginal);
    let mut samples = vec![vec![0; 10]; 100];

    match model.sample(&mut samples) {
        Ok(_) => (),
        Err(e) => panic!("{:?}", e),
    }
}

#[test]
fn model_errors() {
    let mut model = Model::new(3, ModelType::Marginal);
    assert_eq!(model.clone_distribution(), Err(ModelError::ModelNotLearned));
    assert_eq!(model.laplace(false), Err(ModelError::ModelNotLearned));
    assert!(matches!(model.mode(), Err(ModelError::ModelNotLearned)));
    let empty: Vec<Vec<u8>> = vec![];
    assert_eq!(model.learn_distribution(&empty), Err(ModelError::EmptySurvivorSet));
    let short: Vec<Vec<u8>> = vec![vec![0, 1]];
    assert_eq!(model.learn_distribution(&short), Err(ModelError::DimensionMismatch));
    let out_of_range: Vec<Vec<u8>> = vec![vec![0, 1, 3]];
    assert_eq!(model.learn_distribution(&out_of_range), Err(ModelError::DimensionMismatch));
    assert_eq!(model.clone_distribution(), Err(ModelError::ModelNotLearned));

    model.learn_distribution(&vec![vec![0, 1, 2]]).unwrap();
    assert_eq!(model.laplace(true), Err(ModelError::InvalidCountState));
    model.laplace(false).unwrap();
    assert_eq!(model.laplace(false), Err(ModelError::InvalidCountState));
    let mut samples = vec![vec![0u8; 3]; 2];
    assert_eq!(model.sample(&mut samples), Err(ModelError::InvalidCountState));
    assert_eq!(samples, vec![vec![0u8; 3]; 2]);
    model.laplace(true).unwrap();
    assert_eq!(model.clone_distribution().unwrap(), vec![vec![1, 0, 0], vec![0, 1, 0], vec![0, 0, 1]]);

    let mut code_model = Model::new(3, ModelType::Vj);
    assert_eq!(code_model.learn_distribution(&vec![vec![0, 2]]), Err(ModelError::DimensionMismatch));
}

#[test]
fn learning_twice_gives_same_state() {
    let pop: Vec<Vec<u8>> = vec![vec![2, 1, 0], vec![0, 1, 2], vec![1, 2, 0]];
    let mut model = Model::new(3, ModelType::Marginal);
    model.learn_distribution(&pop).unwrap();
    let first = model.clone_distribution().unwrap();
    model.learn_distribution(&pop).unwrap();
    assert_eq!(model.clone_distribution().unwrap(), first);

    let other: Vec<Vec<u8>> = vec![vec![0, 1, 2]];
    model.learn_distribution(&other).unwrap();
    assert_eq!(model.clone_distribution().unwrap(), vec![vec![1, 0, 0], vec![0, 1, 0], vec![0, 0, 1]]);
}

#[test]
fn laplace_round_trip_on_any_matrix() {
    let original: Vec<Vec<usize>> = vec![vec![5, 0, 7, 1], vec![0, 0, 0, 0], vec![9, 3, 2, 8]];
    let mut m = original.clone();
    marginal::laplace(&mut m, false);
    assert_eq!(m, vec![vec![6, 1, 8, 2], vec![1, 1, 1, 1], vec![10, 4, 3, 9]]);
    marginal::laplace(&mut m, true);
    assert_eq!(m, original);

    let mut c: Vec<Vec<usize>> = vec![vec![0, 1, 1, 1], vec![0, 3, 0, 0], vec![3, 0, 0, 0]];
    let before = c.clone();
    vj::laplace_diagonal(&mut c, false);
    assert_eq!(c, vec![vec![1, 2, 2, 2], vec![1, 4, 1, 0], vec![4, 1, 0, 0]]);
    vj::laplace_diagonal(&mut c, true);
    assert_eq!(c, before);
}

#[test]
fn marginal_mode_and_probability() {
    let mut model = Model::new(3, ModelType::Marginal);
    let pop: Vec<Vec<u8>> = vec![vec![0, 1, 2], vec![0, 1, 2], vec![0, 2, 1]];
    model.learn_distribution(&pop).unwrap();
    let (permu, factors) = model.mode().unwrap();
    assert_eq!(permu, vec![0, 1, 2]);
    assert_eq!(factors, vec![(3, 3), (2, 3), (2, 3)]);
    assert_eq!(model.clone_distribution().unwrap(), vec![vec![3, 0, 0], vec![0, 2, 1], vec![0, 1, 2]]);
}

#[test]
fn rank_code_mode() {
    let mut model = Model::new(4, ModelType::Vj);
    let codes: Vec<Vec<u8>> = vec![vec![2, 1, 0], vec![3, 1, 0], vec![1, 1, 0]];
    model.learn_distribution(&codes).unwrap();
    let (permu, factors) = model.mode().unwrap();
    // smoothed rows: [1,2,2,2] -> rank 1, [1,4,1] -> rank 1, [4,1] -> rank 0
    assert_eq!(permu, vec![1, 2, 0, 3]);
    assert_eq!(factors, vec![(1, 3), (3, 3), (3, 3)]);
}

#[test]
fn samplers_give_permutations() {
    let distr: Vec<Vec<usize>> = vec![vec![0, 0, 5], vec![0, 5, 0], vec![5, 0, 0]];
    for _i in 0..100 {
        assert_eq!(marginal::ad_hoc_random_laplace(&distr), vec![2, 1, 0]);
    }
    let zero: Vec<Vec<usize>> = vec![vec![0; 4]; 4];
    let s = marginal::ad_hoc_random_laplace(&zero);
    assert!(permu_utils::all_permus(&vec![s], false));

    let codes: Vec<Vec<usize>> = vec![vec![0, 0, 7, 0], vec![0, 7, 0, 0], vec![7, 0, 0, 0]];
    for _i in 0..100 {
        assert_eq!(vj::no_restriction_laplace(&codes), vec![2, 1, 0, 3]);
    }
    assert_eq!(vj::mode(&codes), vec![2, 1, 0]);
}

#[test]
fn threshold_pick_rule() {
    let row: Vec<usize> = vec![2, 0, 3];
    let all = vec![true, true, true];
    assert_eq!(allowed_total(&row, &all), 5);
    assert_eq!(pick_value(&row, &all, 0), 0);
    assert_eq!(pick_value(&row, &all, 1), 0);
    assert_eq!(pick_value(&row, &all, 2), 2);
    assert_eq!(pick_value(&row, &all, 4), 2);
    let later = vec![false, true, true];
    assert_eq!(allowed_total(&row, &later), 3);
    assert_eq!(pick_value(&row, &later, 0), 2);
    let zeros: Vec<usize> = vec![0, 0, 0];
    assert_eq!(pick_value(&zeros, &later, 0), 1);

    let pop: Vec<Vec<u8>> = vec![vec![1, 0], vec![1, 1]];
    assert_eq!(count_matrix(&pop, 2, 2), vec![vec![0, 2], vec![1, 1]]);
}
