use mo_draw::atom::Atom;
use mo_draw::error::ParseError;

fn coords(a: &Atom) -> [f64; 3] {
    [
        a.position[0].parse().unwrap(),
        a.position[1].parse().unwrap(),
        a.position[2].parse().unwrap(),
    ]
}

#[test]
fn atom_malformed_token_fails() {
    assert!(matches!(Atom::from_arg("Q5"), Err(ParseError::InvalidAtom)));
    assert!(matches!(Atom::from_arg("[B0 Q5]"), Err(ParseError::InvalidAtom)));
}

#[test]
fn atom_well_formed_group() {
    let a = Atom::from_arg("[B0 X1.0 Y0.0 Z-1.0]").unwrap();
    assert_eq!(a.basis_id, 0);
    assert_eq!(coords(&a), [1.0, 0.0, -1.0]);
}

#[test]
fn atom_short_token_fails() {
    assert!(matches!(Atom::from_arg("[B]"), Err(ParseError::InvalidAtom)));
    assert!(matches!(Atom::from_arg("[B1 X]"), Err(ParseError::InvalidAtom)));
    assert!(matches!(Atom::from_arg("[B1  X1]"), Err(ParseError::InvalidAtom)));
}

#[test]
fn atom_bad_basis_index() {
    assert!(matches!(Atom::from_arg("[Bx]"), Err(ParseError::InvalidInteger)));
    assert!(matches!(Atom::from_arg("[B-1]"), Err(ParseError::InvalidInteger)));
}

#[test]
fn atom_defaults_and_last_write_wins() {
    let a = Atom::from_arg("[B2]").unwrap();
    assert_eq!(a.basis_id, 2);
    assert_eq!(coords(&a), [0.0, 0.0, 0.0]);
    let b = Atom::from_arg("[Z3 X1 X2.5 B1 B4]").unwrap();
    assert_eq!(b.basis_id, 4);
    assert_eq!(coords(&b), [2.5, 0.0, 3.0]);
}

#[test]
fn atom_basis_index_forms() {
    assert_eq!(Atom::from_arg("[B+3]").unwrap().basis_id, 3);
    assert_eq!(Atom::from_arg("[B007]").unwrap().basis_id, 7);
    assert!(matches!(Atom::from_arg("[B99999999999999999999999]"), Err(ParseError::InvalidInteger)));
}

#[test]
fn atom_non_numeric_coordinate_fails() {
    assert!(matches!(Atom::from_arg("[Xabc]"), Err(ParseError::InvalidNumber)));
    assert!(matches!(Atom::from_arg("[B0 Y1.2.3]"), Err(ParseError::InvalidNumber)));
    assert!(matches!(Atom::from_arg("[B1.5]"), Err(ParseError::InvalidInteger)));
    let a = Atom::from_arg("[X.5 Y-2e1 Z+3.]").unwrap();
    assert_eq!(coords(&a), [0.5, -20.0, 3.0]);
}
