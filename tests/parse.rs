use fssp_solver_rs::instance::InstanceError;
use fssp_solver_rs::parse::{parse_decimal, parse_instance, split_lines, split_words};

fn err_of(text: &str) -> InstanceError {
    parse_instance(text.as_bytes()).unwrap_err()
}

#[test]
fn parses_worked_example() {
    let inst = parse_instance(b"2 2\n3 2\n1 4\n").unwrap();
    assert_eq!(inst.n_jobs, 2);
    assert_eq!(inst.n_machines, 2);
    assert_eq!(inst.processing_times, vec![vec![3, 2], vec![1, 4]]);
    assert_eq!(inst.calculate_makespan(&[1, 0]), 7);
}

#[test]
fn header_is_first_line_with_words() {
    let inst = parse_instance(b"\n   \n  2 1\r\n5\r\n7").unwrap();
    assert_eq!(inst.n_jobs, 2);
    assert_eq!(inst.n_machines, 1);
    assert_eq!(inst.processing_times, vec![vec![5], vec![7]]);
}

#[test]
fn lines_after_the_jobs_are_ignored() {
    let inst = parse_instance(b"1 2\n0 9\n1 2 3\nnot a row\n").unwrap();
    assert_eq!(inst.processing_times, vec![vec![0, 9]]);
}

#[test]
fn empty_text_is_rejected() {
    assert_eq!(err_of(""), InstanceError::Empty);
    assert_eq!(err_of(" \n\t\n"), InstanceError::Empty);
}

#[test]
fn header_arity_and_zeros_are_rejected() {
    assert_eq!(err_of("2\n1 2\n"), InstanceError::BadHeader);
    assert_eq!(err_of("2 2 2\n1 2\n3 4\n"), InstanceError::BadHeader);
    assert_eq!(err_of("0 3\n"), InstanceError::BadHeader);
    assert_eq!(err_of("3 0\n\n\n\n"), InstanceError::BadHeader);
}

#[test]
fn bad_numbers_are_rejected() {
    assert_eq!(err_of("2 x\n"), InstanceError::InvalidNumber);
    assert_eq!(err_of("1 2\n1 -2\n"), InstanceError::InvalidNumber);
    assert_eq!(err_of("1 1\n4294967296\n"), InstanceError::InvalidNumber);
}

#[test]
fn wrong_column_count_is_rejected() {
    assert_eq!(err_of("2 2\n1 2\n3\n"), InstanceError::ColumnCount);
    assert_eq!(err_of("2 2\n1 2\n\n3 4\n"), InstanceError::ColumnCount);
}

#[test]
fn first_faulty_row_decides() {
    assert_eq!(err_of("3 2\n1 2 3\n1 z\n"), InstanceError::ColumnCount);
    assert_eq!(err_of("3 2\n1 z\n1 2 3\n"), InstanceError::InvalidNumber);
}

#[test]
fn missing_rows_are_rejected() {
    assert_eq!(err_of("3 2\n1 2\n3 4\n"), InstanceError::RowCount);
    assert_eq!(err_of("3 2\n1 2\n3 4"), InstanceError::RowCount);
}

#[test]
fn too_much_work_is_rejected() {
    assert_eq!(err_of("2 1\n4294967295\n1\n"), InstanceError::TooLarge);
    assert!(parse_instance(b"2 1\n4294967294\n1\n").is_ok());
}

#[test]
fn lines_split_on_line_feeds() {
    assert_eq!(split_lines(b"a\nbc\n"), vec![b"a".to_vec(), b"bc".to_vec()]);
    assert_eq!(split_lines(b"a\n\nb"), vec![b"a".to_vec(), vec![], b"b".to_vec()]);
    assert!(split_lines(b"").is_empty());
    assert_eq!(split_lines(b"\n"), vec![Vec::<u8>::new()]);
}

#[test]
fn words_split_on_whitespace() {
    let w = split_words(&b"  12\t 3\r".to_vec());
    assert_eq!(w, vec![b"12".to_vec(), b"3".to_vec()]);
    assert!(split_words(&b" \t ".to_vec()).is_empty());
}

#[test]
fn decimals_fit_in_32_bits() {
    assert_eq!(parse_decimal(&b"0".to_vec()), Some(0));
    assert_eq!(parse_decimal(&b"007".to_vec()), Some(7));
    assert_eq!(parse_decimal(&b"4294967295".to_vec()), Some(u32::MAX));
    assert_eq!(parse_decimal(&b"4294967296".to_vec()), None);
    assert_eq!(parse_decimal(&b"".to_vec()), None);
    assert_eq!(parse_decimal(&b"1a".to_vec()), None);
}
