use mo_draw::error::ParseError;
use mo_draw::params::Params;

fn strings(items: &[&str]) -> Vec<String> {
    items.iter().map(|s| s.to_string()).collect()
}

#[test]
fn params_and_fragments() {
    let p = Params::from_args(
        &strings(&["[N1 0.5 1.2 L0 0.8 0.3]"]),
        &strings(&["[B0 X1 Y2 Z3]"]),
        "[1 2]",
    )
    .unwrap();
    assert_eq!(p.bases.len(), 1);
    assert_eq!(p.atoms.len(), 1);
    let f = p.fragments().unwrap();
    assert_eq!(f.num_cc, "2");
    assert_eq!(f.orbitals, "{ { { 1, 2, 3 }, 0, 0, { 0.5, 1.2 }, { 0.8, 0.3 } } }");
    assert_eq!(f.mo_coefs, "{ { 1, 2 } }");
}

#[test]
fn params_first_failure_wins() {
    let r = Params::from_args(&strings(&["[L0 1]"]), &strings(&["[Q1]"]), "[1][2 3]");
    assert!(matches!(r, Err(ParseError::InvalidBasis)));
    let r = Params::from_args(&strings(&["[N1 1 L0 2]"]), &strings(&["[Q1]"]), "[1][2 3]");
    assert!(matches!(r, Err(ParseError::InvalidAtom)));
    let r = Params::from_args(&strings(&["[N1 1 L0 2]"]), &strings(&["[B0]"]), "[1][2 3]");
    assert!(matches!(r, Err(ParseError::InconsistentShape)));
}

#[test]
fn fragments_need_a_basis() {
    let p = Params::from_args(&vec![], &vec![], "[1]").unwrap();
    assert!(p.fragments().is_none());
}

#[test]
fn fragments_refuse_non_finite_coefficients() {
    let p = Params::from_args(&strings(&["[N1 1 L0 2]"]), &strings(&["[B0]"]), "[NaN 1]").unwrap();
    assert!(p.fragments().is_none());
    let p = Params::from_args(&strings(&["[N1 1 L0 2]"]), &strings(&["[B0]"]), "[0.5 1]").unwrap();
    assert_eq!(p.fragments().unwrap().mo_coefs, "{ { 0.5, 1 } }");
}
