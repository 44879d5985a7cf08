use vstd::prelude::*;

verus! {

/// First flat subshell offset of each shell `n = 1..=5`.
pub open spec fn shell_offset(n: int) -> int {
    if n == 1 {
        0
    } else if n == 2 {
        1
    } else if n == 3 {
        3
    } else if n == 4 {
        6
    } else {
        10
    }
}

/// Whether `(n, l)` names a subshell of the fixed table: `1 <= n <= 5`, `0 <= l < n`.
pub open spec fn valid_subshell(n: int, l: int) -> bool {
    1 <= n <= 5 && 0 <= l < n
}

/// Flat row of subshell `(n, l)` in a coefficient table.
pub open spec fn subshell_index(n: int, l: int) -> int {
    shell_offset(n) + l
}

/// Column of magnetic sublevel `m` of subshell `l`.
pub open spec fn sublevel_index(l: int, m: int) -> int {
    2 * l + m
}

const OFFSETS: [usize; 5] = [0, 1, 3, 6, 10];

/// Flat row of subshell `(n, l)`.
pub fn nl_index(n: i32, l: i32) -> (r: usize)
    requires
        valid_subshell(n as int, l as int),
    ensures
        r as int == subshell_index(n as int, l as int),
{
    let offsets = OFFSETS;
    offsets[(n - 1) as usize] + l as usize
}

/// Column of magnetic sublevel `m` within subshell `l`.
pub fn lm_index(l: i32, m: i32) -> (r: usize)
    requires
        0 <= l <= 4,
        -l <= m <= l,
    ensures
        r as int == sublevel_index(l as int, m as int),
{
    (2 * l + m) as usize
}

/// Within a shell the flat index grows with `l`, and the indices of a lower shell all lie
/// below those of a higher one: shell `n` occupies exactly
/// `shell_offset(n) .. shell_offset(n) + n`, and the next shell starts where it ends.
pub proof fn lemma_subshell_index_order(n1: int, l1: int, n2: int, l2: int)
    requires
        valid_subshell(n1, l1),
        valid_subshell(n2, l2),
    ensures
        shell_offset(n1) <= subshell_index(n1, l1) < shell_offset(n1) + n1,
        n1 < 5 ==> shell_offset(n1 + 1) == shell_offset(n1) + n1,
        n1 == n2 && l1 < l2 ==> subshell_index(n1, l1) < subshell_index(n2, l2),
        n1 < n2 ==> subshell_index(n1, l1) < subshell_index(n2, l2),
        subshell_index(n1, l1) == subshell_index(n2, l2) ==> n1 == n2 && l1 == l2,
{
}

} // verus!
