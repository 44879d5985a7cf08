use vstd::prelude::*;
use ndarray::{Array1, Array2};
use crate::atom::Atom;
use crate::basis::Basis;

verus! {

/// Whether an array of `h` rows and `w` columns can be allocated: the product of its
/// non-zero axis lengths is at most `isize::MAX`.
pub open spec fn fits_array(h: int, w: int) -> bool {
    if h == 0 {
        w <= isize::MAX
    } else if w == 0 {
        h <= isize::MAX
    } else {
        h * w <= isize::MAX
    }
}

/// A dense matrix of number texts.
#[verifier::external_body]
pub struct TextMatrix {
    cells: Array2<String>,
}

/// The rows of a text matrix.
pub uninterp spec fn matrix_rows(m: TextMatrix) -> Seq<Seq<Seq<char>>>;

/// The number of columns of a text matrix, which its shape fixes even without rows.
pub uninterp spec fn matrix_width(m: TextMatrix) -> nat;

/// Relies on `Array2::from_shape_vec`: given exactly `h * w` cells row by row, it
/// builds the `h` by `w` array of them, and fails only when the product of the non-zero
/// axis lengths exceeds `isize::MAX`.
#[verifier::external_body]
fn matrix_from_rows(rows: Vec<Vec<String>>, w: usize) -> (r: Option<TextMatrix>)
    requires
        forall|i: int| 0 <= i < rows.len() ==> (#[trigger] rows[i]).len() == w,
    ensures
        r is Some <==> fits_array(rows.len() as int, w as int),
        r matches Some(m) ==> matrix_rows(m) == rows.deep_view() && matrix_width(m) == w,
{
    let h = rows.len();
    let cells: Vec<String> = rows.into_iter().flatten().collect();
    Array2::from_shape_vec((h, w), cells).ok().map(|cells| TextMatrix { cells })
}

/// Relies on `ArrayBase::nrows`.
#[verifier::external_body]
fn matrix_nrows(m: &TextMatrix) -> (r: usize)
    ensures
        r == matrix_rows(*m).len(),
{
    m.cells.nrows()
}

/// Relies on `ArrayBase::ncols`: the width of the shape, and every row has that many
/// cells.
#[verifier::external_body]
fn matrix_ncols(m: &TextMatrix) -> (r: usize)
    ensures
        r == matrix_width(*m),
        forall|i: int| 0 <= i < matrix_rows(*m).len() ==> (#[trigger] matrix_rows(*m)[i]).len() == r,
{
    m.cells.ncols()
}

/// Relies on indexing an `Array2` by `(row, column)`.
#[verifier::external_body]
fn matrix_cell(m: &TextMatrix, i: usize, j: usize) -> (r: &String)
    requires
        i < matrix_rows(*m).len(),
        j < matrix_rows(*m)[i as int].len(),
    ensures
        r@ == matrix_rows(*m)[i as int][j as int],
{
    &m.cells[(i, j)]
}

impl TextMatrix {
    pub open spec fn view(&self) -> Seq<Seq<Seq<char>>> {
        matrix_rows(*self)
    }

    pub open spec fn width(&self) -> nat {
        matrix_width(*self)
    }

    /// Packs rows that are all `width` long into a matrix, or `None` where the matrix is
    /// too large to allocate.
    pub fn from_rows(rows: Vec<Vec<String>>, width: usize) -> (r: Option<TextMatrix>)
        requires
            forall|i: int| 0 <= i < rows.len() ==> (#[trigger] rows[i]).len() == width,
        ensures
            r is Some <==> fits_array(rows.len() as int, width as int),
            r matches Some(m) ==> m@ == rows.deep_view() && m.width() == width,
    {
        matrix_from_rows(rows, width)
    }

    /// Number of rows.
    pub fn nrows(&self) -> (r: usize)
        ensures
            r == self@.len(),
    {
        matrix_nrows(self)
    }

    /// Number of columns: the length of every row.
    pub fn ncols(&self) -> (r: usize)
        ensures
            r == self.width(),
            forall|i: int| 0 <= i < self@.len() ==> (#[trigger] self@[i]).len() == r,
    {
        matrix_ncols(self)
    }

    /// A copy of row `i`.
    pub fn row(&self, i: usize) -> (r: Vec<String>)
        requires
            i < self@.len(),
        ensures
            r.deep_view() == self@[i as int],
    {
        let w = matrix_ncols(self);
        let mut out: Vec<String> = Vec::new();
        let mut j: usize = 0;
        while j < w
            invariant
                i < self@.len(),
                j <= w == self@[i as int].len(),
                out.deep_view() == self@[i as int].take(j as int),
            decreases w - j,
        {
            let cell = matrix_cell(self, i, j).clone();
            let ghost before = out.deep_view();
            out.push(cell);
            proof {
                assert(out.deep_view() =~= before.push(cell@));
                assert(self@[i as int].take(j + 1) =~= self@[i as int].take(j as int).push(
                    cell@,
                ));
            }
            j = j + 1;
        }
        proof {
            assert(self@[i as int].take(w as int) =~= self@[i as int]);
        }
        out
    }
}

/// A one-dimensional array of atoms.
#[verifier::external_body]
pub struct AtomArray {
    items: Array1<Atom>,
}

/// The atoms of an array, in order.
pub uninterp spec fn atom_items(a: AtomArray) -> Seq<Atom>;

/// Relies on `Array1`'s `From<Vec<A>>`: the same items in the same order.
#[verifier::external_body]
fn atoms_from_vec(v: Vec<Atom>) -> (r: AtomArray)
    ensures
        atom_items(r) == v@,
{
    AtomArray { items: Array1::from(v) }
}

/// Relies on `ArrayBase::len`.
#[verifier::external_body]
fn atoms_len(a: &AtomArray) -> (r: usize)
    ensures
        r == atom_items(*a).len(),
{
    a.items.len()
}

/// Relies on indexing an `Array1` by position.
#[verifier::external_body]
fn atom_at(a: &AtomArray, i: usize) -> (r: &Atom)
    requires
        i < atom_items(*a).len(),
    ensures
        *r == atom_items(*a)[i as int],
{
    &a.items[i]
}

impl AtomArray {
    pub open spec fn view(&self) -> Seq<Atom> {
        atom_items(*self)
    }

    pub fn from_vec(v: Vec<Atom>) -> (r: AtomArray)
        ensures
            r@ == v@,
    {
        atoms_from_vec(v)
    }

    pub fn len(&self) -> (r: usize)
        ensures
            r == self@.len(),
    {
        atoms_len(self)
    }

    pub fn get(&self, i: usize) -> (r: &Atom)
        requires
            i < self@.len(),
        ensures
            *r == self@[i as int],
    {
        atom_at(self, i)
    }
}

/// A one-dimensional array of bases.
#[verifier::external_body]
pub struct BasisArray {
    items: Array1<Basis>,
}

/// The bases of an array, in order.
pub uninterp spec fn basis_items(a: BasisArray) -> Seq<Basis>;

/// Relies on `Array1`'s `From<Vec<A>>`: the same items in the same order.
#[verifier::external_body]
fn bases_from_vec(v: Vec<Basis>) -> (r: BasisArray)
    ensures
        basis_items(r) == v@,
{
    BasisArray { items: Array1::from(v) }
}

/// Relies on `ArrayBase::len`.
#[verifier::external_body]
fn bases_len(a: &BasisArray) -> (r: usize)
    ensures
        r == basis_items(*a).len(),
{
    a.items.len()
}

/// Relies on indexing an `Array1` by position.
#[verifier::external_body]
fn basis_at(a: &BasisArray, i: usize) -> (r: &Basis)
    requires
        i < basis_items(*a).len(),
    ensures
        *r == basis_items(*a)[i as int],
{
    &a.items[i]
}

impl BasisArray {
    pub open spec fn view(&self) -> Seq<Basis> {
        basis_items(*self)
    }

    pub fn from_vec(v: Vec<Basis>) -> (r: BasisArray)
        ensures
            r@ == v@,
    {
        bases_from_vec(v)
    }

    pub fn len(&self) -> (r: usize)
        ensures
            r == self@.len(),
    {
        bases_len(self)
    }

    pub fn get(&self, i: usize) -> (r: &Basis)
        requires
            i < self@.len(),
        ensures
            *r == self@[i as int],
    {
        basis_at(self, i)
    }
}

} // verus!
