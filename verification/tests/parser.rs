use npuzzle::parser::validate_map;

#[test]
fn validate_accepts_permutation() {
    let rows = vec![vec![1, 2, 3], vec![8, 0, 4], vec![7, 6, 5]];
    let m = validate_map(3, rows).unwrap();
    assert_eq!(m.size, 3);
    assert_eq!(m.board, vec![1, 2, 3, 8, 0, 4, 7, 6, 5]);
}

#[test]
fn validate_rejects_wrong_row_count() {
    let rows = vec![vec![1, 2, 3], vec![8, 0, 4]];
    assert_eq!(validate_map(3, rows), Err("Board has invalid size"));
}

#[test]
fn validate_rejects_wrong_row_length() {
    let rows = vec![vec![0, 1], vec![2]];
    assert_eq!(validate_map(2, rows), Err("Board has invalid size"));
}

#[test]
fn validate_rejects_value_out_of_range() {
    let rows = vec![vec![0, 1], vec![2, 4]];
    assert_eq!(validate_map(2, rows), Err("Invalid value in board"));
}

#[test]
fn validate_rejects_repeated_value() {
    let rows = vec![vec![0, 1], vec![1, 2]];
    assert_eq!(validate_map(2, rows), Err("Invalid Board"));
}
