use mo_draw::args::collect_argvs;
use mo_draw::error::ParseError;

fn strings(items: &[&str]) -> Vec<String> {
    items.iter().map(|s| s.to_string()).collect()
}

#[test]
fn collect_argvs_groups() {
    let groups = collect_argvs(&strings(&["[B0", "X1", "Y2]", "[B1]", "[[1", "2]]"])).unwrap();
    assert_eq!(
        groups,
        vec![strings(&["B0", "X1", "Y2"]), strings(&["B1"]), strings(&["1", "2"])]
    );
    assert_eq!(collect_argvs(&vec![]).unwrap(), Vec::<Vec<String>>::new());
}

#[test]
fn collect_argvs_ungrouped_token() {
    assert_eq!(
        collect_argvs(&strings(&["B0", "[X1]"])),
        Err(ParseError::UngroupedToken)
    );
}

#[test]
fn collect_argvs_empty_group() {
    assert_eq!(collect_argvs(&strings(&["[]"])), Err(ParseError::EmptyGroup));
    assert_eq!(collect_argvs(&strings(&["[B0]", "[", "]"])), Err(ParseError::EmptyGroup));
    assert_eq!(collect_argvs(&strings(&["[B0", "]"])).unwrap(), vec![strings(&["B0"])]);
}
