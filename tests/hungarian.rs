use permu_eda::hungarian::W;
use permu_eda::umda::marginal;

#[test]
fn hungarian() {
    let a = vec![vec![1, 3, 4], vec![2, 3, 1], vec![4, 1, 5]];

    let test = W::from(&a);
    let test = test.hungarian();
    assert_eq!(test, vec![2, 1, 0]);
}

#[test]
fn weight_matrix_accessors() {
    let a: Vec<Vec<usize>> = vec![vec![1, 3], vec![2, 7]];
    let w = W::from(&a);
    assert_eq!(w.rows(), 2);
    assert_eq!(w.columns(), 2);
    assert_eq!(w.at(1, 1), 7);
    let n = w.neg();
    assert_eq!(n.at(0, 1), -3);
    assert_eq!(marginal::mode(&a), vec![0, 1]);
    let b: Vec<Vec<usize>> = vec![vec![1, 9], vec![9, 1]];
    assert_eq!(marginal::mode(&b), vec![1, 0]);
}
