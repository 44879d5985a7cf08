use mo_draw::atom::Atom;
use mo_draw::basis::Basis;
use mo_draw::c_fmt::{array1, array2, orbitals};
use mo_draw::grid::{AtomArray, BasisArray, TextMatrix};

fn strings(items: &[&str]) -> Vec<String> {
    items.iter().map(|s| s.to_string()).collect()
}

#[test]
fn array1_literal() {
    assert_eq!(array1(&strings(&["1", "2.5", "-3"])).unwrap(), "{ 1, 2.5, -3 }");
    assert_eq!(array1(&strings(&["7"])).unwrap(), "{ 7 }");
    assert_eq!(array1(&vec![]).unwrap(), "{  }");
}

#[test]
fn array2_literal() {
    let rows = vec![strings(&["1", "2"]), strings(&["3", "4"])];
    assert_eq!(
        array2(&TextMatrix::from_rows(rows, 2).unwrap()).unwrap(),
        "{ { 1, 2 }, { 3, 4 } }"
    );
    assert_eq!(array2(&TextMatrix::from_rows(vec![], 0).unwrap()).unwrap(), "{  }");
}

#[test]
fn orbitals_single_s_shell() {
    let atoms = AtomArray::from_vec(vec![Atom::from_arg("[B0 X1.0 Y0.0 Z-1.0]").unwrap()]);
    let bases = BasisArray::from_vec(vec![Basis::from_arg("[N1 0.5 1.2 L0 0.8 0.3]").unwrap()]);
    assert_eq!(
        orbitals(&atoms, &bases).unwrap(),
        "{ { { 1.0, 0.0, -1.0 }, 0, 0, { 0.5, 1.2 }, { 0.8, 0.3 } } }"
    );
}

#[test]
fn orbitals_p_shell_enumerates_sublevels() {
    let atoms = AtomArray::from_vec(vec![Atom::from_arg("[B0]").unwrap()]);
    let bases = BasisArray::from_vec(vec![Basis::from_arg("[N1 1 L0 2 N2 3 L0 4 L1 5]").unwrap()]);
    let expected = "{ { { 0, 0, 0 }, 0, 0, { 1 }, { 2 } }, \
                    { { 0, 0, 0 }, 1, 0, { 3 }, { 4 } }, \
                    { { 0, 0, 0 }, 2, 1, { 3 }, { 5 } }, \
                    { { 0, 0, 0 }, 2, 2, { 3 }, { 5 } }, \
                    { { 0, 0, 0 }, 2, 3, { 3 }, { 5 } } }";
    assert_eq!(orbitals(&atoms, &bases).unwrap(), expected);
}

#[test]
fn orbitals_count_over_atoms() {
    let bases = BasisArray::from_vec(vec![
        Basis::from_arg("[N1 1 L0 2 N2 3 L0 4 L1 5]").unwrap(),
        Basis::from_arg("[N1 1 L0 2]").unwrap(),
    ]);
    let atoms = AtomArray::from_vec(vec![
        Atom::from_arg("[B0 X7]").unwrap(),
        Atom::from_arg("[B1 X8]").unwrap(),
        Atom::from_arg("[B0 X9]").unwrap(),
    ]);
    let text = orbitals(&atoms, &bases).unwrap();
    assert_eq!(text.matches("{ 7, 0, 0 }").count(), 1 + 4);
    assert_eq!(text.matches("{ 8, 0, 0 }").count(), 1);
    assert_eq!(text.matches("{ 9, 0, 0 }").count(), 1 + 4);
    assert_eq!(text.matches(", 0, 0 }").count(), 11);
}

#[test]
fn orbitals_missing_basis() {
    let atoms = AtomArray::from_vec(vec![Atom::from_arg("[B1]").unwrap()]);
    let bases = BasisArray::from_vec(vec![Basis::from_arg("[N1 1 L0 2]").unwrap()]);
    assert!(orbitals(&atoms, &bases).is_none());
}

#[test]
fn orbitals_basis_without_subshell_rows() {
    let atoms = AtomArray::from_vec(vec![Atom::from_arg("[B0]").unwrap()]);
    let bases = BasisArray::from_vec(vec![Basis::from_arg("[N1 1 N2 3]").unwrap()]);
    assert!(orbitals(&atoms, &bases).is_none());
    assert_eq!(orbitals(&AtomArray::from_vec(vec![]), &bases).unwrap(), "{  }");
}

#[test]
fn non_finite_numbers_are_refused() {
    assert!(array1(&strings(&["1", "NaN"])).is_none());
    assert!(array1(&strings(&["inf"])).is_none());
    assert!(array1(&strings(&["-inf"])).is_none());
    assert!(array1(&strings(&["1e5"])).is_none());
    assert!(array1(&strings(&["1."])).is_none());
    assert!(array1(&strings(&["1.2.3"])).is_none());
    assert_eq!(array1(&strings(&["-0.5", "10"])).unwrap(), "{ -0.5, 10 }");
    let nan = TextMatrix::from_rows(vec![strings(&["NaN"])], 1).unwrap();
    assert!(array2(&nan).is_none());
}

#[test]
fn orbitals_refuse_non_finite_numbers() {
    let bases = BasisArray::from_vec(vec![Basis::from_arg("[N1 1 L0 2]").unwrap()]);
    let atoms = AtomArray::from_vec(vec![Atom::from_arg("[B0 XNaN]").unwrap()]);
    assert!(orbitals(&atoms, &bases).is_none());
    let bases = BasisArray::from_vec(vec![Basis::from_arg("[N1 inf L0 2]").unwrap()]);
    let atoms = AtomArray::from_vec(vec![Atom::from_arg("[B0]").unwrap()]);
    assert!(orbitals(&atoms, &bases).is_none());
}
