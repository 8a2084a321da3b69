use vai::codec::{read_matrix, read_matrix_dyn, write_matrix, write_matrix_dyn};
use vai::matrix::Matrix;
use vai::VaiError;

fn matrix(rows: usize, cols: usize, data: Vec<i64>) -> Matrix {
    assert_eq!(data.len(), rows * cols);
    Matrix { rows, cols, data }
}

#[test]
fn write_matrix_exact_text() {
    let m = matrix(2, 2, vec![1, -2, 3, 4]);
    let mut lines: Vec<Vec<u8>> = Vec::new();
    write_matrix(&m, &mut lines);
    assert_eq!(lines.len(), 3);
    assert_eq!(lines[0], b"1 -2 ".to_vec());
    assert_eq!(lines[1], b"3 4 ".to_vec());
    assert_eq!(lines[2], b"".to_vec());
}

#[test]
fn matrix_round_trip_is_exact() {
    let m = matrix(2, 3, vec![0, 1, -1, i64::MAX, i64::MIN, 4294967296]);
    let mut lines: Vec<Vec<u8>> = Vec::new();
    write_matrix(&m, &mut lines);
    let (back, next) = read_matrix(&lines, 0, 2, 3).expect("round trip must succeed");
    assert_eq!(next, 2);
    assert_eq!(back.rows, 2);
    assert_eq!(back.cols, 3);
    assert_eq!(back.data, m.data);
}

#[test]
fn read_skips_blank_lines() {
    let lines: Vec<Vec<u8>> = vec![
        b"".to_vec(),
        b"  \t ".to_vec(),
        b"5 6 ".to_vec(),
        b"".to_vec(),
        b"7 8 ".to_vec(),
    ];
    let (m, next) = read_matrix(&lines, 0, 2, 2).expect("blank lines are skipped");
    assert_eq!(m.data, vec![5, 6, 7, 8]);
    assert_eq!(next, 5);
}

#[test]
fn read_rejects_wrong_column_count() {
    let m = matrix(2, 2, vec![1, 2, 3, 4]);
    let mut lines: Vec<Vec<u8>> = Vec::new();
    write_matrix(&m, &mut lines);
    // a reader expecting three columns must fail, leaving nothing behind
    assert_eq!(read_matrix(&lines, 0, 2, 3).err(), Some(VaiError::FormatError));
}

#[test]
fn read_rejects_bad_token() {
    let lines: Vec<Vec<u8>> = vec![b"1 x ".to_vec(), b"".to_vec()];
    assert_eq!(read_matrix(&lines, 0, 1, 2).err(), Some(VaiError::FormatError));
    let lines2: Vec<Vec<u8>> = vec![b"1 2.5 ".to_vec()];
    assert_eq!(read_matrix(&lines2, 0, 1, 2).err(), Some(VaiError::FormatError));
}

#[test]
fn read_rejects_missing_rows() {
    let lines: Vec<Vec<u8>> = vec![b"1 2 ".to_vec(), b"".to_vec()];
    assert_eq!(read_matrix(&lines, 0, 2, 2).err(), Some(VaiError::FormatError));
}

#[test]
fn read_handles_extreme_values() {
    let lines: Vec<Vec<u8>> = vec![b"9223372036854775807 -9223372036854775808 ".to_vec()];
    let (m, _) = read_matrix(&lines, 0, 1, 2).expect("extreme values fit");
    assert_eq!(m.data, vec![i64::MAX, i64::MIN]);
    let over: Vec<Vec<u8>> = vec![b"9223372036854775808 0 ".to_vec()];
    assert_eq!(read_matrix(&over, 0, 1, 2).err(), Some(VaiError::FormatError));
}

#[test]
fn dynamic_write_includes_row_count() {
    let m = matrix(2, 1, vec![9, -9]);
    let mut lines: Vec<Vec<u8>> = Vec::new();
    write_matrix_dyn(&m, &mut lines);
    assert_eq!(lines.len(), 3);
    assert_eq!(lines[0], b"2".to_vec());
    assert_eq!(lines[1], b"9 ".to_vec());
    assert_eq!(lines[2], b"-9 ".to_vec());
}

#[test]
fn dynamic_round_trip_is_exact() {
    let m = matrix(3, 2, vec![1, 2, 3, 4, 5, 6]);
    let mut lines: Vec<Vec<u8>> = Vec::new();
    write_matrix_dyn(&m, &mut lines);
    let (back, next) = read_matrix_dyn(&lines, 0).expect("round trip must succeed");
    assert_eq!(next, 4);
    assert_eq!(back.rows, 3);
    assert_eq!(back.cols, 2);
    assert_eq!(back.data, m.data);
}

#[test]
fn dynamic_read_rejects_bad_count_header() {
    let lines: Vec<Vec<u8>> = vec![b"two".to_vec(), b"1 ".to_vec()];
    assert_eq!(read_matrix_dyn(&lines, 0).err(), Some(VaiError::FormatError));
    let neg: Vec<Vec<u8>> = vec![b"-1".to_vec()];
    assert_eq!(read_matrix_dyn(&neg, 0).err(), Some(VaiError::FormatError));
    let padded: Vec<Vec<u8>> = vec![b" 2".to_vec(), b"1 ".to_vec(), b"2 ".to_vec()];
    assert_eq!(read_matrix_dyn(&padded, 0).err(), Some(VaiError::FormatError));
}

#[test]
fn dynamic_read_infers_columns_from_first_row() {
    let lines: Vec<Vec<u8>> = vec![b"2".to_vec(), b"1 2 3 ".to_vec(), b"4 5 ".to_vec()];
    // the second row has a different width: wrong column count
    assert_eq!(read_matrix_dyn(&lines, 0).err(), Some(VaiError::FormatError));
}

#[test]
fn dynamic_read_zero_rows() {
    let lines: Vec<Vec<u8>> = vec![b"0".to_vec()];
    let (m, next) = read_matrix_dyn(&lines, 0).expect("an empty matrix is valid");
    assert_eq!((m.rows, m.cols), (0, 0));
    assert_eq!(next, 1);
}

#[test]
fn error_messages_name_the_failure() {
    assert_eq!(VaiError::FormatError.message(), "malformed network text");
    assert_eq!(VaiError::DimensionError.message(), "dimension mismatch");
}
