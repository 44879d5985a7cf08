use mo_draw::error::ParseError;
use mo_draw::grid::TextMatrix;
use mo_draw::mo_coefs::{argvs_shape, find_shape, from_arg, mo_coefs_from_argvs};

fn texts(rows: &[&[&str]]) -> Vec<Vec<String>> {
    rows.iter().map(|r| r.iter().map(|s| s.to_string()).collect()).collect()
}

fn rows(m: &TextMatrix) -> Vec<Vec<String>> {
    (0..m.nrows()).map(|i| m.row(i)).collect()
}

fn numbers(m: &TextMatrix) -> Vec<Vec<f64>> {
    let rows = rows(m);
    rows.iter().map(|r| r.iter().map(|s| s.parse().unwrap()).collect()).collect()
}

#[test]
fn mo_coefs_ragged_fails() {
    assert!(matches!(
        from_arg("[1.0 2.0][3.0 4.0 5.0]"),
        Err(ParseError::InconsistentShape)
    ));
}

#[test]
fn mo_coefs_square_parses() {
    let m = from_arg("[1.0 2.0][3.0 4.0]").unwrap();
    assert_eq!(numbers(&m), vec![vec![1.0, 2.0], vec![3.0, 4.0]]);
}

#[test]
fn mo_coefs_blank_segments_dropped() {
    let m = from_arg(" [ 1  2 ] \t [3 4] ").unwrap();
    assert_eq!(rows(&m), texts(&[&["1", "2"], &["3", "4"]]));
}

#[test]
fn mo_coefs_empty_fails() {
    assert!(matches!(from_arg(""), Err(ParseError::InconsistentShape)));
    assert!(matches!(from_arg("[ ][ ]"), Err(ParseError::InconsistentShape)));
}

#[test]
fn shapes_of_grids() {
    let g = texts(&[&["1", "2", "3"], &["4", "5", "6"]]);
    assert_eq!(argvs_shape(&g), Ok((2, 3)));
    assert_eq!(find_shape(&vec![vec![1u8], vec![2u8]]), Ok((2, 1)));
    assert_eq!(find_shape::<u8>(&vec![]), Err(ParseError::InconsistentShape));
    let r = texts(&[&["1", "2"], &["3"]]);
    assert_eq!(argvs_shape(&r), Err(ParseError::InconsistentShape));
}

#[test]
fn argvs_to_matrix() {
    let g = texts(&[&["1", "2"], &["3", "4"]]);
    assert_eq!(rows(&mo_coefs_from_argvs(&g).unwrap()), g);
    let r = texts(&[&["1", "2"], &["3"]]);
    assert!(matches!(mo_coefs_from_argvs(&r), Err(ParseError::InconsistentShape)));
    assert!(matches!(mo_coefs_from_argvs(&vec![]), Err(ParseError::InconsistentShape)));
}

#[test]
fn numbers_round_trip_through_text() {
    let values: [f64; 7] = [0.1, -2.5, 1e-7, 123456.789, 1.0 / 3.0, 6.02214076e23, -0.0];
    let cells: Vec<Vec<String>> = values.chunks(1).map(|c| vec![c[0].to_string()]).collect();
    let arg: String = cells.iter().map(|r| format!("[{}]", r.join(" "))).collect();
    let back = numbers(&from_arg(&arg).unwrap());
    for (row, x) in back.iter().zip(values.iter()) {
        assert_eq!(row[0].to_bits(), x.to_bits());
    }
    let lit = mo_draw::c_fmt::array2(&TextMatrix::from_rows(cells, 1).unwrap()).unwrap();
    let parsed: Vec<f64> = lit
        .split(|c| c == '{' || c == '}' || c == ',')
        .map(|s| s.trim())
        .filter(|s| !s.is_empty())
        .map(|s| s.parse().unwrap())
        .collect();
    assert_eq!(parsed.len(), values.len());
    for (y, x) in parsed.iter().zip(values.iter()) {
        assert_eq!(y.to_bits(), x.to_bits());
        assert!(!y.to_string().contains('e'));
    }
}

#[test]
fn mo_coefs_non_numeric_cell_fails() {
    assert!(matches!(from_arg("[1.0 x][3.0 4.0]"), Err(ParseError::InvalidNumber)));
    assert!(matches!(from_arg("[1.0 x][3.0]"), Err(ParseError::InconsistentShape)));
    let g = texts(&[&["1", "2"], &["3", "four"]]);
    assert!(matches!(mo_coefs_from_argvs(&g), Err(ParseError::InvalidNumber)));
}
