use mo_draw::index::{lm_index, nl_index};

#[test]
fn nl_index_uses_fixed_offsets() {
    assert_eq!(nl_index(1, 0), 0);
    assert_eq!(nl_index(2, 0), 1);
    assert_eq!(nl_index(2, 1), 2);
    assert_eq!(nl_index(3, 0), 3);
    assert_eq!(nl_index(3, 2), 5);
    assert_eq!(nl_index(4, 0), 6);
    assert_eq!(nl_index(5, 0), 10);
    assert_eq!(nl_index(5, 4), 14);
}

#[test]
fn nl_index_increasing_and_disjoint() {
    let mut seen = Vec::new();
    for n in 1..=5 {
        for l in 0..n {
            seen.push(nl_index(n, l));
        }
    }
    let expected: Vec<usize> = (0..15).collect();
    assert_eq!(seen, expected);
}

#[test]
fn lm_index_values() {
    assert_eq!(lm_index(0, 0), 0);
    assert_eq!(lm_index(1, -1), 1);
    assert_eq!(lm_index(1, 0), 2);
    assert_eq!(lm_index(1, 1), 3);
    assert_eq!(lm_index(2, -2), 2);
    assert_eq!(lm_index(2, 2), 6);
}
