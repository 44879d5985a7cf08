use vstd::prelude::*;
use crate::atom::{Atom, AtomFields};
use crate::basis::{Basis, Rows};
use crate::grid::{AtomArray, BasisArray, TextMatrix};
use crate::index::{lm_index, nl_index, subshell_index, valid_subshell};
use crate::text::{decimal_text, is_plain_decimal, plain_decimal, usize_text};

verus! {

/// `items` separated by `", "`.
pub open spec fn comma_join(items: Seq<Seq<char>>) -> Seq<char>
    decreases items.len(),
{
    if items.len() == 0 {
        Seq::empty()
    } else if items.len() == 1 {
        items[0]
    } else {
        comma_join(items.drop_last()) + seq![',', ' '] + items.last()
    }
}

/// `s` between `"{ "` and `" }"`.
pub open spec fn braced(s: Seq<char>) -> Seq<char> {
    seq!['{', ' '] + s + seq![' ', '}']
}

/// The brace-delimited, comma-separated literal of `items`.
pub open spec fn literal(items: Seq<Seq<char>>) -> Seq<char> {
    braced(comma_join(items))
}

/// The literal of a matrix: the literal of its row literals.
pub open spec fn matrix_literal(rows: Seq<Seq<Seq<char>>>) -> Seq<char> {
    literal(Seq::new(rows.len(), |i: int| literal(rows[i])))
}

/// Joins `items` with `", "` and wraps the result in braces.
fn literal_of(items: &Vec<String>) -> (r: String)
    ensures
        r@ == literal(items.deep_view()),
{
    let mut body = String::new();
    let mut i: usize = 0;
    proof {
        reveal_strlit(", ");
        reveal_strlit("{ ");
        reveal_strlit(" }");
        assert(items.deep_view().take(0) =~= Seq::<Seq<char>>::empty());
    }
    while i < items.len()
        invariant
            i <= items.len(),
            body@ == comma_join(items.deep_view().take(i as int)),
            ", "@ == seq![',', ' '],
        decreases items.len() - i,
    {
        proof {
            assert(items.deep_view().take(i + 1).drop_last() == items.deep_view().take(i as int));
            assert(items.deep_view().take(i + 1).last() == items[i as int]@);
        }
        if i > 0 {
            body.append(", ");
        }
        body.append(items[i].as_str());
        i = i + 1;
    }
    proof {
        assert(items.deep_view().take(items.len() as int) == items.deep_view());
    }
    let mut r = String::new();
    r.append("{ ");
    r.append(body.as_str());
    r.append(" }");
    proof {
        assert(r@ =~= literal(items.deep_view()));
    }
    r
}

/// Every item is a plain decimal literal.
pub open spec fn all_plain(items: Seq<Seq<char>>) -> bool {
    forall|i: int| 0 <= i < items.len() ==> plain_decimal(#[trigger] items[i])
}

/// Every cell of every row is a plain decimal literal.
pub open spec fn rows_plain(rows: Seq<Seq<Seq<char>>>) -> bool {
    forall|i: int| 0 <= i < rows.len() ==> all_plain(#[trigger] rows[i])
}

/// Whether every item is a plain decimal literal.
fn items_plain(items: &Vec<String>) -> (r: bool)
    ensures
        r == all_plain(items.deep_view()),
{
    let mut i: usize = 0;
    while i < items.len()
        invariant
            i <= items.len(),
            forall|k: int| 0 <= k < i ==> plain_decimal(#[trigger] items.deep_view()[k]),
        decreases items.len() - i,
    {
        if !is_plain_decimal(&items[i]) {
            proof {
                assert(!plain_decimal(items.deep_view()[i as int]));
            }
            return false;
        }
        i = i + 1;
    }
    true
}

/// Whether every cell of `m` is a plain decimal literal.
fn matrix_plain(m: &TextMatrix) -> (r: bool)
    ensures
        r == rows_plain(m@),
{
    let h = m.nrows();
    let mut i: usize = 0;
    while i < h
        invariant
            i <= h == m@.len(),
            forall|k: int| 0 <= k < i ==> all_plain(#[trigger] m@[k]),
        decreases h - i,
    {
        if !items_plain(&m.row(i)) {
            return false;
        }
        i = i + 1;
    }
    true
}

/// Renders a sequence of numbers, each given as its text, as `{ a, b, c }`; `None`
/// where some text is not a plain decimal literal (`NaN`, `inf`, an exponent).
pub fn array1(items: &Vec<String>) -> (r: Option<String>)
    ensures
        r is Some <==> all_plain(items.deep_view()),
        r matches Some(t) ==> t@ == literal(items.deep_view()),
{
    if items_plain(items) {
        Some(literal_of(items))
    } else {
        None
    }
}

/// Renders a matrix of numbers, each given as its text, as `{ { a, b }, { c, d } }`;
/// `None` where some text is not a plain decimal literal.
pub fn array2(rows: &TextMatrix) -> (r: Option<String>)
    ensures
        r is Some <==> rows_plain(rows@),
        r matches Some(t) ==> t@ == matrix_literal(rows@),
{
    let h = rows.nrows();
    let mut lits: Vec<String> = Vec::new();
    let mut i: usize = 0;
    while i < h
        invariant
            i <= h == rows@.len(),
            lits.len() == i,
            forall|k: int| 0 <= k < i ==> all_plain(#[trigger] rows@[k]),
            forall|k: int| 0 <= k < i ==> (#[trigger] lits[k])@ == literal(rows@[k]),
        decreases h - i,
    {
        match array1(&rows.row(i)) {
            Some(t) => lits.push(t),
            None => {
                return None;
            },
        }
        i = i + 1;
    }
    let r = literal_of(&lits);
    proof {
        assert(lits.deep_view() =~= Seq::new(rows@.len(), |k: int| literal(rows@[k])));
    }
    Some(r)
}

/// `(order, exponent rows, coefficient rows)` of a basis.
pub type BasisFields = (nat, Rows, Rows);

pub open spec fn atoms_view(atoms: Seq<Atom>) -> Seq<AtomFields> {
    Seq::new(atoms.len(), |i: int| atoms[i]@)
}

pub open spec fn bases_view(bases: Seq<Basis>) -> Seq<BasisFields> {
    Seq::new(bases.len(), |i: int| bases[i]@)
}

/// Literal of an atom's position: `{ x, y, z }`.
pub open spec fn position_literal(a: AtomFields) -> Seq<char> {
    literal(seq![a.1, a.2, a.3])
}

/// One orbital record:
/// `{ position, subshell index, lm index, exponents, coefficients }`.
pub open spec fn orbital_record(
    pos: Seq<char>,
    nl: nat,
    lm: nat,
    ex: Seq<char>,
    co: Seq<char>,
) -> Seq<char> {
    literal(seq![pos, decimal_text(nl), decimal_text(lm), ex, co])
}

/// The records of subshell `l`, whose flat subshell index is `nl`: one per magnetic
/// number `m = -l..=l`, whose lm index is `2l + m`.
pub open spec fn sublevel_records(
    pos: Seq<char>,
    nl: nat,
    l: int,
    ex: Seq<char>,
    co: Seq<char>,
) -> Seq<Seq<char>> {
    Seq::new((2 * l + 1) as nat, |k: int| orbital_record(pos, nl, (l + k) as nat, ex, co))
}

/// The records of subshells `0..count` of shell `n`.
pub open spec fn shell_records(pos: Seq<char>, ex: Rows, co: Rows, n: int, count: int) -> Seq<
    Seq<char>,
>
    decreases count,
{
    if count <= 0 {
        Seq::empty()
    } else {
        shell_records(pos, ex, co, n, count - 1) + sublevel_records(
            pos,
            subshell_index(n, count - 1) as nat,
            count - 1,
            literal(ex[n - 1]),
            literal(co[subshell_index(n, count - 1)]),
        )
    }
}

/// The records of shells `1..=count` of one atom.
pub open spec fn basis_records(pos: Seq<char>, ex: Rows, co: Rows, count: int) -> Seq<Seq<char>>
    decreases count,
{
    if count <= 0 {
        Seq::empty()
    } else {
        basis_records(pos, ex, co, count - 1) + shell_records(pos, ex, co, count, count)
    }
}

/// The records of one atom with its basis.
pub open spec fn atom_records(a: AtomFields, b: BasisFields) -> Seq<Seq<char>> {
    basis_records(position_literal(a), b.1, b.2, b.1.len() as int)
}

/// All records, atom by atom, shell by shell, subshell by subshell, sublevel by sublevel.
pub open spec fn molecule_records(atoms: Seq<AtomFields>, bases: Seq<BasisFields>) -> Seq<
    Seq<char>,
>
    decreases atoms.len(),
{
    if atoms.len() == 0 {
        Seq::empty()
    } else {
        molecule_records(atoms.drop_last(), bases) + atom_records(
            atoms.last(),
            bases[atoms.last().0 as int],
        )
    }
}

/// A basis that the records can be drawn from: at most five shells, and a coefficient
/// row for every subshell of them.
pub open spec fn basis_covers(b: BasisFields) -> bool {
    &&& b.1.len() <= 5
    &&& b.1.len() > 0 ==> b.2.len() > subshell_index(b.1.len() as int, b.1.len() - 1)
}

/// Every coordinate of an atom is a plain decimal literal.
pub open spec fn atom_plain(a: AtomFields) -> bool {
    plain_decimal(a.1) && plain_decimal(a.2) && plain_decimal(a.3)
}

/// Every exponent and coefficient of a basis is a plain decimal literal.
pub open spec fn basis_plain(b: BasisFields) -> bool {
    rows_plain(b.1) && rows_plain(b.2)
}

/// Every atom has plain decimal coordinates and names a basis that exists, covers its
/// shells, and holds plain decimal numbers only.
pub open spec fn orbitals_ready(atoms: Seq<AtomFields>, bases: Seq<BasisFields>) -> bool {
    forall|i: int|
        0 <= i < atoms.len() ==> {
            &&& (#[trigger] atoms[i]).0 < bases.len()
            &&& basis_covers(bases[atoms[i].0 as int])
            &&& atom_plain(atoms[i])
            &&& basis_plain(bases[atoms[i].0 as int])
        }
}

/// Every subshell up to shell `top` lies at or below the last subshell of `top`.
proof fn lemma_index_bound(n: int, l: int, top: int)
    requires
        valid_subshell(n, l),
        n <= top <= 5,
    ensures
        subshell_index(n, l) <= subshell_index(top, top - 1),
{
}

/// Renders the orbital list of a molecule, or `None` where an atom names a basis that
/// is missing or lacks coefficient rows for its shells, or where a coordinate or a number
/// of a basis that an atom uses is not a plain decimal literal.
///
/// Every magnetic sublevel `m` of subshell `(n, l)` gets a record of its own, laid out as
/// `{ { x, y, z }, nl, lm, { exponents }, { coefficients } }`: the atom's position, the
/// flat subshell index `nl_index(n, l)`, the sublevel index `lm_index(l, m)`, the
/// exponent row of shell `n` and the coefficient row of subshell `(n, l)`. The pair
/// `(nl, lm)` names the orbital within its atom.
pub fn orbitals(atoms: &AtomArray, bases: &BasisArray) -> (r: Option<String>)
    ensures
        r is Some <==> orbitals_ready(atoms_view(atoms@), bases_view(bases@)),
        r matches Some(t) ==> t@ == literal(
            molecule_records(atoms_view(atoms@), bases_view(bases@)),
        ),
{
    let ghost av = atoms_view(atoms@);
    let ghost bv = bases_view(bases@);
    let mut v: Vec<String> = Vec::new();
    let mut i: usize = 0;
    proof {
        assert(av.take(0) =~= Seq::<AtomFields>::empty());
        assert(v.deep_view() =~= Seq::<Seq<char>>::empty());
    }
    while i < atoms.len()
        invariant
            i <= atoms@.len(),
            av == atoms_view(atoms@),
            bv == bases_view(bases@),
            orbitals_ready(av.take(i as int), bv),
            v.deep_view() == molecule_records(av.take(i as int), bv),
        decreases atoms@.len() - i,
    {
        let atom = atoms.get(i);
        let bid = atom.basis_id;
        if bid >= bases.len() {
            proof {
                assert(av[i as int].0 >= bv.len());
            }
            return None;
        }
        let basis = bases.get(bid);
        let num_expns = basis.expns.nrows();
        if num_expns > 5 || num_expns > 0 && basis.coefs.nrows() <= nl_index(
            num_expns as i32,
            (num_expns - 1) as i32,
        ) {
            proof {
                assert(av[i as int] == atom@);
                assert(bv[bid as int] == basis@);
                assert(!basis_covers(bv[av[i as int].0 as int]));
            }
            return None;
        }
        let plain = is_plain_decimal(&atom.position[0]) && is_plain_decimal(&atom.position[1])
            && is_plain_decimal(&atom.position[2]) && matrix_plain(&basis.expns) && matrix_plain(
            &basis.coefs,
        );
        if !plain {
            proof {
                assert(av[i as int] == atom@);
                assert(bv[bid as int] == basis@);
                assert(!(atom_plain(av[i as int]) && basis_plain(bv[av[i as int].0 as int])));
            }
            return None;
        }
        let ghost ex = basis.expns@;
        let ghost co = basis.coefs@;
        let coords = vec![
            atom.position[0].clone(),
            atom.position[1].clone(),
            atom.position[2].clone(),
        ];
        proof {
            assert(coords.deep_view() =~= seq![atom@.1, atom@.2, atom@.3]);
        }
        let pos = literal_of(&coords);
        let ghost m_i = v.deep_view();
        let mut n: usize = 1;
        proof {
            assert(m_i + basis_records(pos@, ex, co, 0) =~= m_i);
        }
        while n <= num_expns
            invariant
                1 <= n <= num_expns + 1,
                num_expns <= 5,
                num_expns == basis.expns@.len(),
                num_expns > 0 ==> basis.coefs@.len() > subshell_index(
                    num_expns as int,
                    num_expns - 1,
                ),
                ex == basis.expns@,
                co == basis.coefs@,
                v.deep_view() == m_i + basis_records(pos@, ex, co, n - 1),
            decreases num_expns + 1 - n,
        {
            let exl = literal_of(&basis.expns.row(n - 1));
            let ghost pre_l = v.deep_view();
            let mut l: usize = 0;
            proof {
                assert(pre_l + shell_records(pos@, ex, co, n as int, 0) =~= pre_l);
            }
            while l < n
                invariant
                    1 <= n <= num_expns <= 5,
                    l <= n,
                    num_expns == basis.expns@.len(),
                    basis.coefs@.len() > subshell_index(num_expns as int, num_expns - 1),
                    ex == basis.expns@,
                    co == basis.coefs@,
                    exl@ == literal(ex[n - 1]),
                    v.deep_view() == pre_l + shell_records(pos@, ex, co, n as int, l as int),
                decreases n - l,
            {
                let k = nl_index(n as i32, l as i32);
                proof {
                    lemma_index_bound(n as int, l as int, num_expns as int);
                }
                let col = literal_of(&basis.coefs.row(k));
                let nl_text = usize_text(k);
                let ghost pre_k = v.deep_view();
                let ghost subs = sublevel_records(pos@, k as nat, l as int, exl@, col@);
                let mut j: usize = 0;
                proof {
                    assert(pre_k + subs.take(0) =~= pre_k);
                }
                while j <= 2 * l
                    invariant
                        l < n <= 5,
                        j <= 2 * l + 1,
                        subs == sublevel_records(pos@, k as nat, l as int, exl@, col@),
                        nl_text@ == decimal_text(k as nat),
                        v.deep_view() == pre_k + subs.take(j as int),
                    decreases 2 * l + 1 - j,
                {
                    let m = j as i32 - l as i32;
                    let lm = lm_index(l as i32, m);
                    let lm_text = usize_text(lm);
                    let parts = vec![pos.clone(), nl_text.clone(), lm_text, exl.clone(), col.clone()];
                    proof {
                        assert(parts.deep_view() =~= seq![
                            pos@,
                            decimal_text(k as nat),
                            decimal_text(lm as nat),
                            exl@,
                            col@,
                        ]);
                    }
                    let rec = literal_of(&parts);
                    proof {
                        assert(rec@ == subs[j as int]);
                    }
                    let ghost before = v.deep_view();
                    v.push(rec);
                    proof {
                        assert(v.deep_view() =~= before.push(rec@));
                        assert(subs.take(j + 1) =~= subs.take(j as int).push(subs[j as int]));
                        assert(v.deep_view() =~= pre_k + subs.take(j + 1));
                    }
                    j = j + 1;
                }
                proof {
                    assert(subs.take(j as int) =~= subs);
                    assert(v.deep_view() =~= pre_l + shell_records(
                        pos@,
                        ex,
                        co,
                        n as int,
                        l + 1,
                    ));
                }
                l = l + 1;
            }
            proof {
                assert(v.deep_view() =~= m_i + basis_records(pos@, ex, co, n as int));
            }
            n = n + 1;
        }
        proof {
            assert(av.take(i + 1).drop_last() =~= av.take(i as int));
            assert(av.take(i + 1).last() == atom@);
            assert(bv[bid as int] == basis@);
            assert(pos@ == position_literal(atom@));
            assert(v.deep_view() =~= molecule_records(av.take(i + 1), bv));
            assert(orbitals_ready(av.take(i + 1), bv));
        }
        i = i + 1;
    }
    proof {
        assert(av.take(atoms@.len() as int) =~= av);
    }
    Some(literal_of(&v))
}

/// Number of sublevels of subshells `0..count`: the sum of `2l + 1` over them.
pub open spec fn sublevel_count(count: int) -> int
    decreases count,
{
    if count <= 0 {
        0
    } else {
        sublevel_count(count - 1) + 2 * (count - 1) + 1
    }
}

/// Number of orbitals of shells `1..=count`: for each shell `n`, the sublevels of its
/// subshells `0..n`.
pub open spec fn shell_count(count: int) -> int
    decreases count,
{
    if count <= 0 {
        0
    } else {
        shell_count(count - 1) + sublevel_count(count)
    }
}

/// Number of orbitals of a molecule: the sum over atoms of the orbitals of the shells of
/// each atom's basis.
pub open spec fn molecule_count(atoms: Seq<AtomFields>, bases: Seq<BasisFields>) -> int
    decreases atoms.len(),
{
    if atoms.len() == 0 {
        0
    } else {
        molecule_count(atoms.drop_last(), bases) + shell_count(
            bases[atoms.last().0 as int].1.len() as int,
        )
    }
}

proof fn lemma_shell_records_len(pos: Seq<char>, ex: Rows, co: Rows, n: int, count: int)
    ensures
        shell_records(pos, ex, co, n, count).len() == sublevel_count(count),
    decreases count,
{
    if count > 0 {
        lemma_shell_records_len(pos, ex, co, n, count - 1);
    }
}

proof fn lemma_basis_records_len(pos: Seq<char>, ex: Rows, co: Rows, count: int)
    ensures
        basis_records(pos, ex, co, count).len() == shell_count(count),
    decreases count,
{
    if count > 0 {
        lemma_basis_records_len(pos, ex, co, count - 1);
        lemma_shell_records_len(pos, ex, co, count, count);
    }
}

/// The orbital list holds, for every atom, for every shell `n` of its basis, for every
/// subshell `l` in `0..n`, exactly `2l + 1` records, and nothing else.
pub proof fn lemma_orbital_count(atoms: Seq<AtomFields>, bases: Seq<BasisFields>)
    ensures
        molecule_records(atoms, bases).len() == molecule_count(atoms, bases),
    decreases atoms.len(),
{
    if atoms.len() > 0 {
        lemma_orbital_count(atoms.drop_last(), bases);
        let a = atoms.last();
        let b = bases[a.0 as int];
        lemma_basis_records_len(position_literal(a), b.1, b.2, b.1.len() as int);
    }
}

/// Sum of `n * n` over shells `n = 1..=count`.
pub open spec fn square_sum(count: int) -> int
    decreases count,
{
    if count <= 0 {
        0
    } else {
        square_sum(count - 1) + count * count
    }
}

/// A shell `n` has `n * n` orbitals: the sum of `2l + 1` over its subshells `l` in
/// `0..n`; so shells `1..=count` have the sum of the squares.
pub proof fn lemma_shell_squares(count: int)
    requires
        count >= 0,
    ensures
        sublevel_count(count) == count * count,
        shell_count(count) == square_sum(count),
    decreases count,
{
    if count > 0 {
        lemma_shell_squares(count - 1);
        assert(sublevel_count(count) == (count - 1) * (count - 1) + 2 * (count - 1) + 1);
        assert((count - 1) * (count - 1) + 2 * (count - 1) + 1 == count * count)
            by (nonlinear_arith);
    } else {
        assert(count * count == 0) by (nonlinear_arith)
            requires
                count == 0,
        ;
    }
}

} // verus!
