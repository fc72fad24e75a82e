use light_curve_dmdt::{first_columns, is_comment};

#[test]
fn comment_lines_start_with_hash() {
    assert!(is_comment(b"# time mag err"));
    assert!(is_comment(b"#"));
    assert!(!is_comment(b" # indented"));
    assert!(!is_comment(b""));
    assert!(!is_comment(b"1.0 2.0"));
}

#[test]
fn columns_are_runs_of_non_blank_bytes() {
    let line = b"  1.5\t-0.25   0.01 extra";
    assert_eq!(first_columns(line, 3), vec![(2, 5), (6, 11), (14, 18)]);
    assert_eq!(first_columns(line, 5), vec![(2, 5), (6, 11), (14, 18), (19, 24)]);
    assert_eq!(first_columns(line, 1), vec![(2, 5)]);
    assert_eq!(first_columns(line, 0), vec![]);
}

#[test]
fn missing_columns_give_fewer_ranges() {
    assert_eq!(first_columns(b"", 2), vec![]);
    assert_eq!(first_columns(b" \t \r\n", 2), vec![]);
    assert_eq!(first_columns(b"10.0\n", 2), vec![(0, 4)]);
    assert_eq!(first_columns(b"10.0 11.5", 3), vec![(0, 4), (5, 9)]);
}
