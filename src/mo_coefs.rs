use vstd::prelude::*;
use crate::error::ParseError;
use crate::grid::{TextMatrix, fits_array};
use crate::text::{
    chars_of, float_text, is_float_text, is_whitespace, non_blank, pieces, split_chars,
    unicode_whitespace,
};

verus! {

/// Every row is as long as the first, and there is a first row.
pub open spec fn rectangular<T>(rows: Seq<Vec<T>>) -> bool {
    rows.len() > 0 && forall|i: int| 0 <= i < rows.len() ==> (#[trigger] rows[i])@.len()
        == rows[0]@.len()
}

/// `(height, width)` of a rectangular grid of rows; a shape error otherwise.
pub open spec fn shape_of<T>(rows: Seq<Vec<T>>) -> Result<(usize, usize), ParseError> {
    if rectangular(rows) {
        Ok((rows.len() as usize, rows[0]@.len() as usize))
    } else {
        Err(ParseError::InconsistentShape)
    }
}

/// The pieces of `s` that hold some non-whitespace character, in order.
pub open spec fn keep_non_blank(s: Seq<Seq<char>>) -> Seq<Seq<char>>
    decreases s.len(),
{
    if s.len() == 0 {
        Seq::empty()
    } else if non_blank(s.last()) {
        keep_non_blank(s.drop_last()).push(s.last())
    } else {
        keep_non_blank(s.drop_last())
    }
}

/// The rows of a coefficient descriptor: its non-blank bracket-delimited segments, each
/// split into its non-blank space-separated tokens.
pub open spec fn mo_rows(s: Seq<char>) -> Seq<Seq<Seq<char>>> {
    let segs = keep_non_blank(pieces(s, true));
    Seq::new(segs.len(), |i: int| keep_non_blank(pieces(segs[i], false)))
}

/// Every cell is a float literal.
pub open spec fn cells_numeric(rows: Seq<Seq<Seq<char>>>) -> bool {
    forall|i: int, j: int|
        0 <= i < rows.len() && 0 <= j < rows[i].len() ==> float_text(#[trigger] rows[i][j])
}

/// The matrix that rows of cells make: they must form a non-empty rectangle, every cell
/// must be a float literal, and the matrix must fit in memory.
pub open spec fn checked_rows(rows: Seq<Seq<Seq<char>>>) -> Result<Seq<Seq<Seq<char>>>, ParseError> {
    if !(rows.len() > 0 && forall|i: int| 0 <= i < rows.len() ==> (#[trigger] rows[i]).len()
        == rows[0].len()) {
        Err(ParseError::InconsistentShape)
    } else if !cells_numeric(rows) {
        Err(ParseError::InvalidNumber)
    } else if !fits_array(rows.len() as int, rows[0].len() as int) {
        Err(ParseError::TooLarge)
    } else {
        Ok(rows)
    }
}

/// The coefficient matrix a descriptor describes.
pub open spec fn mo_coefs_of(s: Seq<char>) -> Result<Seq<Seq<Seq<char>>>, ParseError> {
    checked_rows(mo_rows(s))
}

/// Shape of a grid of argument rows.
pub fn argvs_shape(argvs: &Vec<Vec<String>>) -> (r: Result<(usize, usize), ParseError>)
    ensures
        r == shape_of(argvs@),
{
    find_shape(argvs)
}

/// Shape of a grid of rows: every row must be as wide as the first.
pub fn find_shape<T>(elems: &Vec<Vec<T>>) -> (r: Result<(usize, usize), ParseError>)
    ensures
        r == shape_of(elems@),
{
    if elems.len() == 0 {
        return Err(ParseError::InconsistentShape);
    }
    let height = elems.len();
    let width = elems[0].len();
    let mut i: usize = 1;
    while i < height
        invariant
            1 <= i <= height == elems@.len(),
            width == elems@[0]@.len(),
            forall|k: int| 0 <= k < i ==> (#[trigger] elems@[k])@.len() == width,
        decreases height - i,
    {
        if elems[i].len() != width {
            return Err(ParseError::InconsistentShape);
        }
        i = i + 1;
    }
    Ok((height, width))
}

/// Checks that argument rows form a non-empty rectangle of float literals and packs its
/// cells into a matrix.
pub fn mo_coefs_from_argvs(argvs: &Vec<Vec<String>>) -> (r: Result<TextMatrix, ParseError>)
    ensures
        match r {
            Ok(m) => checked_rows(argvs.deep_view()) == Ok::<Seq<Seq<Seq<char>>>, ParseError>(
                m@,
            ),
            Err(e) => checked_rows(argvs.deep_view()) == Err::<Seq<Seq<Seq<char>>>, ParseError>(
                e,
            ),
        },
{
    match argvs_shape(argvs) {
        Err(e) => {
            proof {
                lemma_shape_err(argvs);
            }
            Err(e)
        },
        Ok(_) => {
            let mut m: Vec<Vec<String>> = Vec::new();
            let mut i: usize = 0;
            while i < argvs.len()
                invariant
                    i <= argvs.len(),
                    m.deep_view() == argvs.deep_view().take(i as int),
                decreases argvs.len() - i,
            {
                let mut row: Vec<String> = Vec::new();
                let mut j: usize = 0;
                while j < argvs[i].len()
                    invariant
                        i < argvs.len(),
                        j <= argvs[i as int].len(),
                        row.deep_view() == argvs[i as int].deep_view().take(j as int),
                    decreases argvs[i as int].len() - j,
                {
                    let cell = argvs[i][j].clone();
                    proof {
                        assert(cell@ == argvs[i as int][j as int]@);
                    }
                    let ghost before = row.deep_view();
                    row.push(cell);
                    proof {
                        assert(row.deep_view() =~= before.push(cell@));
                        assert(argvs[i as int].deep_view().take(j + 1) =~= argvs[
                            i as int
                        ].deep_view().take(j as int).push(cell@));
                    }
                    j = j + 1;
                }
                proof {
                    assert(row.deep_view() =~= argvs[i as int].deep_view());
                }
                let ghost before = m.deep_view();
                m.push(row);
                proof {
                    assert(m.deep_view() =~= before.push(argvs[i as int].deep_view()));
                    assert(argvs.deep_view().take(i + 1) =~= argvs.deep_view().take(
                        i as int,
                    ).push(argvs[i as int].deep_view()));
                }
                i = i + 1;
            }
            proof {
                assert(m.deep_view() =~= argvs.deep_view());
            }
            pack_rows(m)
        },
    }
}

/// A grid whose shape check fails has rows that do not form a non-empty rectangle.
proof fn lemma_shape_err(rows: &Vec<Vec<String>>)
    requires
        !rectangular(rows@),
    ensures
        checked_rows(rows.deep_view()) == Err::<Seq<Seq<Seq<char>>>, ParseError>(
            ParseError::InconsistentShape,
        ),
{
    if rows.deep_view().len() > 0 {
        let k = choose|k: int|
            0 <= k < rows@.len() && !((#[trigger] rows@[k])@.len() == rows@[0]@.len());
        assert(rows.deep_view()[k].len() == rows@[k]@.len());
        assert(rows.deep_view()[0].len() == rows@[0]@.len());
    }
}

/// Packs rows of cells into a matrix, checking shape, cells and size in that order.
fn pack_rows(rows: Vec<Vec<String>>) -> (r: Result<TextMatrix, ParseError>)
    ensures
        match r {
            Ok(m) => checked_rows(rows.deep_view()) == Ok::<Seq<Seq<Seq<char>>>, ParseError>(
                m@,
            ),
            Err(e) => checked_rows(rows.deep_view()) == Err::<Seq<Seq<Seq<char>>>, ParseError>(
                e,
            ),
        },
{
    let ghost dv = rows.deep_view();
    let width = match argvs_shape(&rows) {
        Err(e) => {
            proof {
                lemma_shape_err(&rows);
            }
            return Err(e);
        },
        Ok((_, w)) => w,
    };
    let first_len = rows[0].len();
    proof {
        assert(first_len == rows@[0]@.len());
        assert forall|k: int| 0 <= k < dv.len() implies (#[trigger] dv[k]).len() == dv[0].len() by {
            assert(rows@[k]@.len() == rows@[0]@.len());
            assert(dv[k].len() == rows@[k]@.len());
        }
        assert(dv[0].len() == width);
        assert forall|q: int| 0 <= q < rows.len() implies (#[trigger] rows[q]).len() == width by {
            assert(rows@[q]@.len() == rows@[0]@.len());
        }
    }
    let mut i: usize = 0;
    while i < rows.len()
        invariant
            i <= rows.len(),
            dv == rows.deep_view(),
            dv.len() > 0,
            forall|k: int| 0 <= k < dv.len() ==> (#[trigger] dv[k]).len() == dv[0].len(),
            forall|a: int, b: int|
                0 <= a < i && 0 <= b < dv[a].len() ==> float_text(#[trigger] dv[a][b]),
        decreases rows.len() - i,
    {
        let mut j: usize = 0;
        while j < rows[i].len()
            invariant
                i < rows.len(),
                j <= rows[i as int].len(),
                dv == rows.deep_view(),
                dv.len() > 0,
                forall|k: int| 0 <= k < dv.len() ==> (#[trigger] dv[k]).len() == dv[0].len(),
                forall|a: int, b: int|
                    0 <= a < i && 0 <= b < dv[a].len() ==> float_text(#[trigger] dv[a][b]),
                forall|b: int| 0 <= b < j ==> float_text(#[trigger] dv[i as int][b]),
            decreases rows[i as int].len() - j,
        {
            proof {
                assert(dv[i as int][j as int] == rows[i as int][j as int]@);
            }
            if !is_float_text(&rows[i][j]) {
                proof {
                    assert(!float_text(dv[i as int][j as int]));
                    assert(!cells_numeric(dv));
                }
                return Err(ParseError::InvalidNumber);
            }
            j = j + 1;
        }
        proof {
            assert(dv[i as int].len() == rows[i as int].len());
        }
        i = i + 1;
    }
    match TextMatrix::from_rows(rows, width) {
        Some(m) => Ok(m),
        None => Err(ParseError::TooLarge),
    }
}

/// Whether `s` holds a character that is not whitespace.
fn has_non_blank(s: &String) -> (r: bool)
    ensures
        r == non_blank(s@),
{
    let cs = chars_of(s.as_str());
    let mut i: usize = 0;
    while i < cs.len()
        invariant
            i <= cs.len(),
            cs@ == s@,
            forall|k: int| 0 <= k < i ==> unicode_whitespace(#[trigger] cs@[k]),
        decreases cs.len() - i,
    {
        if !is_whitespace(cs[i]) {
            return true;
        }
        i = i + 1;
    }
    false
}

/// The pieces that hold some non-whitespace character, in order.
fn non_blank_pieces(v: Vec<String>) -> (r: Vec<String>)
    ensures
        r.deep_view() == keep_non_blank(v.deep_view()),
{
    let mut out: Vec<String> = Vec::new();
    let mut i: usize = 0;
    proof {
        assert(v.deep_view().take(0) =~= Seq::<Seq<char>>::empty());
        assert(out.deep_view() =~= Seq::<Seq<char>>::empty());
    }
    while i < v.len()
        invariant
            i <= v.len(),
            out.deep_view() == keep_non_blank(v.deep_view().take(i as int)),
        decreases v.len() - i,
    {
        proof {
            assert(v.deep_view().take(i + 1).drop_last() == v.deep_view().take(i as int));
            assert(v.deep_view().take(i + 1).last() == v[i as int]@);
        }
        if has_non_blank(&v[i]) {
            let ghost before = out.deep_view();
            out.push(v[i].clone());
            proof {
                assert(out.deep_view() =~= before.push(v[i as int]@));
            }
        }
        i = i + 1;
    }
    proof {
        assert(v.deep_view().take(v.len() as int) == v.deep_view());
    }
    out
}

/// Parses a coefficient descriptor such as `[1.0 2.0][3.0 4.0]` into its rectangle of
/// number texts, one row per bracketed segment. Every cell must be a float literal;
/// its text is kept as given.
pub fn from_arg(arg: &str) -> (r: Result<TextMatrix, ParseError>)
    ensures
        match r {
            Ok(m) => mo_coefs_of(arg@) == Ok::<Seq<Seq<Seq<char>>>, ParseError>(m@),
            Err(e) => mo_coefs_of(arg@) == Err::<Seq<Seq<Seq<char>>>, ParseError>(e),
        },
{
    let cs = chars_of(arg);
    let segs = non_blank_pieces(split_chars(&cs, true));
    let mut elems: Vec<Vec<String>> = Vec::new();
    let mut i: usize = 0;
    while i < segs.len()
        invariant
            i <= segs.len(),
            segs.deep_view() == keep_non_blank(pieces(arg@, true)),
            elems.len() == i,
            forall|k: int|
                0 <= k < i ==> (#[trigger] elems[k]).deep_view() == keep_non_blank(
                    pieces(segs[k]@, false),
                ),
        decreases segs.len() - i,
    {
        let seg = chars_of(segs[i].as_str());
        elems.push(non_blank_pieces(split_chars(&seg, false)));
        i = i + 1;
    }
    proof {
        assert(elems.deep_view() =~= mo_rows(arg@));
    }
    pack_rows(elems)
}

} // verus!
