use permu_eda::instance::{fields_of, lines2matrix, numbers_of, parse_row, parse_usize, single_number, words_of};
use permu_eda::rk::errors::Errors;

#[test]
fn decimal_tokens() {
    assert_eq!(parse_usize(b"0"), Some(0));
    assert_eq!(parse_usize(b"125551590"), Some(125551590));
    assert_eq!(parse_usize(b"+7"), Some(7));
    assert_eq!(parse_usize(b"007"), Some(7));
    assert_eq!(parse_usize(b""), None);
    assert_eq!(parse_usize(b"+"), None);
    assert_eq!(parse_usize(b"-1"), None);
    assert_eq!(parse_usize(b"12a"), None);
    assert_eq!(parse_usize(b"18446744073709551615"), Some(usize::MAX));
    assert_eq!(parse_usize(b"18446744073709551616"), None);
    assert_eq!(parse_usize(b"99999999999999999999x"), None);
}

#[test]
fn pieces_and_words() {
    assert_eq!(fields_of(b" 1  2"), vec![b"".to_vec(), b"1".to_vec(), b"".to_vec(), b"2".to_vec()]);
    assert_eq!(words_of(b"\t 3 14\r\n"), vec![b"3".to_vec(), b"14".to_vec()]);
    assert_eq!(numbers_of(b" 4 x  5 "), vec![4, 5]);
    assert_eq!(single_number(b"  20\n"), Some(20));
    assert_eq!(single_number(b"20 5"), None);
}

#[test]
fn rows_and_matrices() {
    assert_eq!(parse_row(b"1 2 3\n", 3), Ok(vec![1, 2, 3]));
    assert_eq!(parse_row(b"1 2\n", 3), Err(Errors::RowsDifferentLength));
    assert_eq!(parse_row(b"1 two 3\n", 2), Err(Errors::FailedToParse));
    let lines = vec![b"0 1\n".to_vec(), b"2 3\n".to_vec()];
    assert_eq!(lines2matrix(&lines, 2, 2), Ok(vec![vec![0, 1], vec![2, 3]]));
    assert_eq!(lines2matrix(&lines, 3, 2), Err(Errors::RowsDifferentLength));
    let bad = vec![b"0 1 2\n".to_vec(), b"x 3\n".to_vec()];
    assert_eq!(lines2matrix(&bad, 2, 2), Err(Errors::RowsDifferentLength));
}
