use mo_draw::basis::Basis;
use mo_draw::error::ParseError;
use mo_draw::grid::TextMatrix;

fn rows(m: &TextMatrix) -> Vec<Vec<String>> {
    (0..m.nrows()).map(|i| m.row(i)).collect()
}

fn texts(rows: &[&[&str]]) -> Vec<Vec<String>> {
    rows.iter().map(|r| r.iter().map(|s| s.to_string()).collect()).collect()
}

#[test]
fn basis_ragged_rows_fail() {
    assert!(matches!(
        Basis::from_arg("[N1 0.5 1.2 L0 0.8]"),
        Err(ParseError::InconsistentOrder)
    ));
}

#[test]
fn basis_equal_rows_parse() {
    let b = Basis::from_arg("[N1 0.5 1.2 L0 0.8 0.3]").unwrap();
    assert_eq!(b.order, 2);
    assert_eq!(rows(&b.expns), texts(&[&["0.5", "1.2"]]));
    assert_eq!(rows(&b.coefs), texts(&[&["0.8", "0.3"]]));
}

#[test]
fn basis_two_shells() {
    let b = Basis::from_arg("[N2 1 2 L0 3 4 L1 5 6 N1 7 8 L0 9 10]").unwrap();
    assert_eq!(b.order, 2);
    assert_eq!(rows(&b.expns), texts(&[&["7", "8"], &["1", "2"]]));
    assert_eq!(rows(&b.coefs), texts(&[&["9", "10"], &["3", "4"], &["5", "6"]]));
    for row in rows(&b.expns).iter().chain(rows(&b.coefs).iter()) {
        assert_eq!(row.len(), b.order);
    }
}

#[test]
fn basis_marker_before_shell_fails() {
    assert!(matches!(Basis::from_arg("[L0 0.5]"), Err(ParseError::InvalidBasis)));
    assert!(matches!(Basis::from_arg("[0.5 N1]"), Err(ParseError::InvalidBasis)));
}

#[test]
fn basis_shell_out_of_range() {
    assert!(matches!(Basis::from_arg("[N0 1]"), Err(ParseError::InvalidShell)));
    assert!(matches!(Basis::from_arg("[N-1 1]"), Err(ParseError::InvalidShell)));
    assert!(matches!(Basis::from_arg("[N6 1]"), Err(ParseError::InvalidShell)));
}

#[test]
fn basis_subshell_out_of_range() {
    assert!(matches!(Basis::from_arg("[N1 1 L1 2]"), Err(ParseError::InvalidSubshell)));
    assert!(matches!(Basis::from_arg("[N2 1 L-1 2]"), Err(ParseError::InvalidSubshell)));
}

#[test]
fn basis_bad_integer() {
    assert!(matches!(Basis::from_arg("[Nx 1]"), Err(ParseError::InvalidInteger)));
    assert!(matches!(Basis::from_arg("[N1 1 L 2]"), Err(ParseError::InvalidInteger)));
}

#[test]
fn basis_empty_token_fails() {
    assert!(matches!(Basis::from_arg("[N1  0.5]"), Err(ParseError::InvalidBasis)));
}

#[test]
fn basis_missing_shell_rows_are_ragged() {
    assert!(matches!(
        Basis::from_arg("[N2 1 L0 2]"),
        Err(ParseError::InconsistentOrder)
    ));
}

#[test]
fn basis_signed_markers() {
    let b = Basis::from_arg("[N+1 1 L+0 2]").unwrap();
    assert_eq!(b.order, 1);
    assert!(matches!(Basis::from_arg("[N2147483648 1]"), Err(ParseError::InvalidInteger)));
    assert!(matches!(Basis::from_arg("[N-2147483648 1]"), Err(ParseError::InvalidShell)));
}

#[test]
fn basis_matrix_widths() {
    let b = Basis::from_arg("[N1 1 2 3]").unwrap();
    assert_eq!(b.order, 3);
    assert_eq!(b.coefs.nrows(), 0);
    assert_eq!(b.coefs.ncols(), 3);
    assert_eq!(b.expns.ncols(), 3);
}

#[test]
fn basis_non_numeric_token_fails() {
    assert!(matches!(Basis::from_arg("[N1 abc]"), Err(ParseError::InvalidNumber)));
    assert!(matches!(Basis::from_arg("[N1 0.5 L0 1e]"), Err(ParseError::InvalidNumber)));
    assert!(matches!(Basis::from_arg("[Nx 0.5]"), Err(ParseError::InvalidInteger)));
    assert!(matches!(Basis::from_arg("[N1 0.5 Lq]"), Err(ParseError::InvalidInteger)));
    assert!(matches!(Basis::from_arg("[abc N1]"), Err(ParseError::InvalidBasis)));
    let b = Basis::from_arg("[N1 1e-3 L0 -INF]").unwrap();
    assert_eq!(b.order, 1);
}
