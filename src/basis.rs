use vstd::prelude::*;
use vstd::slice::slice_subrange;
use crate::error::ParseError;
use crate::grid::{TextMatrix, fits_array};
use crate::index::{nl_index, subshell_index, valid_subshell};
use crate::text::{
    chars_of, float_text, group_tokens, group_tokens_of, is_float_text, parse_i32, signed_value,
    text_of,
};

verus! {

/// Rows of number tokens, as text.
pub type Rows = Seq<Seq<Seq<char>>>;

/// What the next bare number of a basis group is appended to.
#[derive(Debug, Clone, Copy, PartialEq, Eq, Structural)]
pub enum Mode {
    /// No shell marker seen yet.
    Start,
    /// Exponents of shell `n`.
    Exponents(i32),
    /// Coefficients of subshell `(n, l)`.
    Coefficients(i32, i32),
}

/// A contracted Gaussian basis: one exponent row per shell, one coefficient row per
/// subshell, every row `order` numbers long. Numbers are kept as their decimal text.
pub struct Basis {
    pub order: usize,
    pub expns: TextMatrix,
    pub coefs: TextMatrix,
}

/// Value of an integer token body, where it fits in `i32`.
pub open spec fn i32_value(s: Seq<char>) -> Option<int> {
    match signed_value(s) {
        Some(v) => if i32::MIN <= v <= i32::MAX {
            Some(v)
        } else {
            None
        },
        None => None,
    }
}

/// `rows` padded with empty rows up to length `k`.
pub open spec fn grow(rows: Rows, k: int) -> Rows {
    if k > rows.len() {
        rows + Seq::new((k - rows.len()) as nat, |i: int| Seq::<Seq<char>>::empty())
    } else {
        rows
    }
}

/// Row `i` of `rows` with `t` appended.
pub open spec fn append_at(rows: Rows, i: int, t: Seq<char>) -> Rows {
    rows.update(i, rows[i].push(t))
}

/// One step of the basis group scanner on token `t`. `N<n>` starts the exponents of shell
/// `n`, padding the exponent rows to `n`; `L<l>` starts the coefficients of subshell
/// `(n, l)` of the current shell, padding the coefficient rows to cover it; any other
/// token is a number, which must be a float literal, appended to the row being filled.
pub open spec fn basis_step(
    acc: Result<(Mode, Rows, Rows), ParseError>,
    t: Seq<char>,
) -> Result<(Mode, Rows, Rows), ParseError> {
    match acc {
        Err(e) => Err(e),
        Ok((mode, ex, co)) => {
            if t.len() == 0 {
                Err(ParseError::InvalidBasis)
            } else if t[0] == 'N' {
                match i32_value(t.drop_first()) {
                    None => Err(ParseError::InvalidInteger),
                    Some(n) => if 1 <= n <= 5 {
                        Ok((Mode::Exponents(n as i32), grow(ex, n), co))
                    } else {
                        Err(ParseError::InvalidShell)
                    },
                }
            } else if t[0] == 'L' {
                match i32_value(t.drop_first()) {
                    None => Err(ParseError::InvalidInteger),
                    Some(l) => match mode {
                        Mode::Start => Err(ParseError::InvalidBasis),
                        Mode::Exponents(n) | Mode::Coefficients(n, _) => if valid_subshell(
                            n as int,
                            l,
                        ) {
                            Ok(
                                (
                                    Mode::Coefficients(n, l as i32),
                                    ex,
                                    grow(co, subshell_index(n as int, l) + 1),
                                ),
                            )
                        } else {
                            Err(ParseError::InvalidSubshell)
                        },
                    },
                }
            } else {
                match mode {
                    Mode::Start => Err(ParseError::InvalidBasis),
                    _ => if !float_text(t) {
                        Err(ParseError::InvalidNumber)
                    } else {
                        match mode {
                            Mode::Exponents(n) => Ok((mode, append_at(ex, n - 1, t), co)),
                            Mode::Coefficients(n, l) => Ok(
                                (mode, ex, append_at(co, subshell_index(n as int, l as int), t)),
                            ),
                            Mode::Start => Err(ParseError::InvalidBasis),
                        }
                    },
                }
            }
        },
    }
}

/// The scanner run over a whole token sequence.
pub open spec fn basis_scan(toks: Seq<Seq<char>>) -> Result<(Mode, Rows, Rows), ParseError>
    decreases toks.len(),
{
    if toks.len() == 0 {
        Ok((Mode::Start, Seq::empty(), Seq::empty()))
    } else {
        basis_step(basis_scan(toks.drop_last()), toks.last())
    }
}

/// Once the scanner has failed on a prefix, it fails with the same error on the whole.
proof fn lemma_scan_err(toks: Seq<Seq<char>>, i: int)
    requires
        0 <= i <= toks.len(),
        basis_scan(toks.take(i)) is Err,
    ensures
        basis_scan(toks) == basis_scan(toks.take(i)),
    decreases toks.len() - i,
{
    if i < toks.len() {
        assert(toks.take(i + 1).drop_last() == toks.take(i));
        lemma_scan_err(toks, i + 1);
    } else {
        assert(toks.take(i) == toks);
    }
}

/// Growing by one more empty row.
proof fn lemma_grow_push(before: Rows, now: Rows)
    requires
        before.len() <= now.len(),
        now == grow(before, now.len() as int),
    ensures
        now.push(Seq::empty()) == grow(before, now.len() as int + 1),
{
    assert(now.push(Seq::empty()) =~= grow(before, now.len() as int + 1));
}

/// Every row of `rows` from index `from` on has length `order`.
pub open spec fn rows_of_len(rows: Rows, from: int, order: int) -> bool {
    forall|i: int| from <= i < rows.len() ==> (#[trigger] rows[i]).len() == order
}

/// The basis a descriptor describes: `(order, exponent rows, coefficient rows)`.
pub open spec fn basis_of(s: Seq<char>) -> Result<(nat, Rows, Rows), ParseError> {
    match basis_scan(group_tokens(s)) {
        Err(e) => Err(e),
        Ok((_, ex, co)) => if !(ex.len() > 0 && rows_of_len(ex, 1, ex[0].len() as int)
            && rows_of_len(co, 0, ex[0].len() as int)) {
            Err(ParseError::InconsistentOrder)
        } else if !(fits_array(ex.len() as int, ex[0].len() as int) && fits_array(
            co.len() as int,
            ex[0].len() as int,
        )) {
            Err(ParseError::TooLarge)
        } else {
            Ok((ex[0].len(), ex, co))
        },
    }
}

impl Basis {
    pub open spec fn view(&self) -> (nat, Rows, Rows) {
        (self.order as nat, self.expns@, self.coefs@)
    }

    /// At least one exponent row, and every row holds `order` numbers.
    pub open spec fn wf(&self) -> bool {
        &&& self.expns.width() == self.order
        &&& self.coefs.width() == self.order
        &&& self.expns@.len() > 0
        &&& self.expns@[0].len() == self.order
        &&& rows_of_len(self.expns@, 0, self.order as int)
        &&& rows_of_len(self.coefs@, 0, self.order as int)
    }

    /// Parses a basis group such as `[N1 0.5 1.2 L0 0.8 0.3]`. Every number token must be
    /// a float literal; its text is kept as given.
    pub fn from_arg(arg: &str) -> (r: Result<Basis, ParseError>)
        ensures
            match r {
                Ok(b) => basis_of(arg@) == Ok::<(nat, Rows, Rows), ParseError>(b@) && b.wf(),
                Err(e) => basis_of(arg@) == Err::<(nat, Rows, Rows), ParseError>(e),
            },
    {
        let toks = group_tokens_of(arg);
        let mut expns: Vec<Vec<String>> = Vec::new();
        let mut coefs: Vec<Vec<String>> = Vec::new();
        let mut mode = Mode::Start;
        let mut i: usize = 0;
        proof {
            assert(toks.deep_view().take(0) =~= Seq::<Seq<char>>::empty());
            assert(expns.deep_view() =~= Seq::<Seq<Seq<char>>>::empty());
            assert(coefs.deep_view() =~= Seq::<Seq<Seq<char>>>::empty());
        }
        while i < toks.len()
            invariant
                i <= toks.len(),
                toks.deep_view() == group_tokens(arg@),
                basis_scan(toks.deep_view().take(i as int)) == Ok::<
                    (Mode, Rows, Rows),
                    ParseError,
                >((mode, expns.deep_view(), coefs.deep_view())),
                match mode {
                    Mode::Start => true,
                    Mode::Exponents(n) => 1 <= n <= 5 && n <= expns.len(),
                    Mode::Coefficients(n, l) => valid_subshell(n as int, l as int) && n
                        <= expns.len() && subshell_index(n as int, l as int) < coefs.len(),
                },
            decreases toks.len() - i,
        {
            proof {
                assert(toks.deep_view().take(i + 1).drop_last() == toks.deep_view().take(
                    i as int,
                ));
            }
            let cs = chars_of(toks[i].as_str());
            proof {
                assert(toks.deep_view().take(i + 1).last() == cs@);
            }
            if cs.len() == 0 {
                proof {
                    lemma_scan_err(toks.deep_view(), i + 1);
                }
                return Err(ParseError::InvalidBasis);
            }
            if cs[0] == 'N' || cs[0] == 'L' {
                let body = text_of(slice_subrange(cs.as_slice(), 1, cs.len()));
                proof {
                    assert(body@ == cs@.drop_first());
                }
                let v = match parse_i32(body.as_str()) {
                    Some(v) => v,
                    None => {
                        proof {
                            lemma_scan_err(toks.deep_view(), i + 1);
                        }
                        return Err(ParseError::InvalidInteger);
                    },
                };
                if cs[0] == 'N' {
                    if v < 1 || v > 5 {
                        proof {
                            lemma_scan_err(toks.deep_view(), i + 1);
                        }
                        return Err(ParseError::InvalidShell);
                    }
                    let ghost before = expns.deep_view();
                    while expns.len() < v as usize
                        invariant
                            1 <= v <= 5,
                            before.len() <= expns.len() <= if before.len() < v {
                                v as int
                            } else {
                                before.len() as int
                            },
                            expns.deep_view() == grow(before, expns.len() as int),
                        decreases v - expns.len(),
                    {
                        let ghost prev = expns.deep_view();
                        let empty: Vec<String> = Vec::new();
                        proof {
                            assert(empty.deep_view() =~= Seq::<Seq<char>>::empty());
                        }
                        expns.push(empty);
                        proof {
                            lemma_grow_push(before, prev);
                            assert(expns.deep_view() =~= prev.push(Seq::empty()));
                        }
                    }
                    proof {
                        assert(expns.deep_view() == grow(before, v as int));
                    }
                    mode = Mode::Exponents(v);
                } else {
                    let n = match mode {
                        Mode::Start => {
                            proof {
                                lemma_scan_err(toks.deep_view(), i + 1);
                            }
                            return Err(ParseError::InvalidBasis);
                        },
                        Mode::Exponents(n) => n,
                        Mode::Coefficients(n, _) => n,
                    };
                    if v < 0 || v >= n {
                        proof {
                            lemma_scan_err(toks.deep_view(), i + 1);
                        }
                        return Err(ParseError::InvalidSubshell);
                    }
                    let k = nl_index(n, v);
                    let ghost before = coefs.deep_view();
                    while coefs.len() <= k
                        invariant
                            k < 15,
                            before.len() <= coefs.len() <= if before.len() < k + 1 {
                                k + 1
                            } else {
                                before.len() as int
                            },
                            coefs.deep_view() == grow(before, coefs.len() as int),
                        decreases k + 1 - coefs.len(),
                    {
                        let ghost prev = coefs.deep_view();
                        let empty: Vec<String> = Vec::new();
                        proof {
                            assert(empty.deep_view() =~= Seq::<Seq<char>>::empty());
                        }
                        coefs.push(empty);
                        proof {
                            lemma_grow_push(before, prev);
                            assert(coefs.deep_view() =~= prev.push(Seq::empty()));
                        }
                    }
                    proof {
                        assert(coefs.deep_view() == grow(before, k + 1));
                    }
                    mode = Mode::Coefficients(n, v);
                }
            } else {
                match mode {
                    Mode::Start => {
                        proof {
                            lemma_scan_err(toks.deep_view(), i + 1);
                        }
                        return Err(ParseError::InvalidBasis);
                    },
                    _ => {},
                }
                if !is_float_text(&toks[i]) {
                    proof {
                        lemma_scan_err(toks.deep_view(), i + 1);
                    }
                    return Err(ParseError::InvalidNumber);
                }
                match mode {
                    Mode::Start => {},
                    Mode::Exponents(n) => {
                        let ghost before = expns.deep_view();
                        let t = toks[i].clone();
                        let ghost row = expns[n - 1].deep_view();
                        expns[(n - 1) as usize].push(t);
                        proof {
                            assert(expns[n - 1].deep_view() =~= row.push(t@));
                            assert(expns.deep_view() =~= append_at(before, n - 1, t@));
                            assert(expns.deep_view() == append_at(before, n - 1, t@));
                        }
                    },
                    Mode::Coefficients(n, l) => {
                        let ghost before = coefs.deep_view();
                        let k = nl_index(n, l);
                        let t = toks[i].clone();
                        let ghost row = coefs[k as int].deep_view();
                        coefs[k].push(t);
                        proof {
                            assert(coefs[k as int].deep_view() =~= row.push(t@));
                            assert(coefs.deep_view() =~= append_at(before, k as int, t@));
                            assert(coefs.deep_view() == append_at(before, k as int, t@));
                        }
                    },
                }
            }
            i = i + 1;
        }
        proof {
            assert(toks.deep_view().take(toks.len() as int) == toks.deep_view());
        }
        if expns.len() == 0 {
            return Err(ParseError::InconsistentOrder);
        }
        let order = expns[0].len();
        proof {
            assert(basis_scan(group_tokens(arg@)) == Ok::<(Mode, Rows, Rows), ParseError>(
                (mode, expns.deep_view(), coefs.deep_view()),
            ));
            assert(expns.deep_view()[0].len() == order);
        }
        let mut j: usize = 1;
        while j < expns.len()
            invariant
                1 <= j <= expns.len(),
                expns.len() > 0,
                order == expns[0].len(),
                basis_scan(group_tokens(arg@)) == Ok::<(Mode, Rows, Rows), ParseError>(
                    (mode, expns.deep_view(), coefs.deep_view()),
                ),
                expns.deep_view()[0].len() == order,
                rows_of_len(expns.deep_view(), 1, order as int) ==> rows_of_len(
                    expns.deep_view(),
                    j as int,
                    order as int,
                ),
                forall|q: int| 1 <= q < j ==> (#[trigger] expns.deep_view()[q]).len() == order,
            decreases expns.len() - j,
        {
            if expns[j].len() != order {
                proof {
                    assert(expns.deep_view()[j as int].len() != order);
                    assert(!rows_of_len(expns.deep_view(), 1, order as int));
                }
                return Err(ParseError::InconsistentOrder);
            }
            j = j + 1;
        }
        let mut j: usize = 0;
        while j < coefs.len()
            invariant
                j <= coefs.len(),
                expns.len() > 0,
                order == expns[0].len(),
                basis_scan(group_tokens(arg@)) == Ok::<(Mode, Rows, Rows), ParseError>(
                    (mode, expns.deep_view(), coefs.deep_view()),
                ),
                expns.deep_view()[0].len() == order,
                rows_of_len(expns.deep_view(), 1, order as int),
                forall|q: int| 0 <= q < j ==> (#[trigger] coefs.deep_view()[q]).len() == order,
            decreases coefs.len() - j,
        {
            if coefs[j].len() != order {
                proof {
                    assert(coefs.deep_view()[j as int].len() != order);
                    assert(!rows_of_len(coefs.deep_view(), 0, order as int));
                }
                return Err(ParseError::InconsistentOrder);
            }
            j = j + 1;
        }
        proof {
            assert forall|q: int| 0 <= q < expns.len() implies (#[trigger] expns[q]).len()
                == order by {
                assert(expns.deep_view()[q].len() == expns[q].len());
            }
            assert forall|q: int| 0 <= q < coefs.len() implies (#[trigger] coefs[q]).len()
                == order by {
                assert(coefs.deep_view()[q].len() == coefs[q].len());
            }
        }
        let ghost ex = expns.deep_view();
        let ghost co = coefs.deep_view();
        let expns = match TextMatrix::from_rows(expns, order) {
            Some(m) => m,
            None => {
                return Err(ParseError::TooLarge);
            },
        };
        let coefs = match TextMatrix::from_rows(coefs, order) {
            Some(m) => m,
            None => {
                return Err(ParseError::TooLarge);
            },
        };
        Ok(Basis { order, expns, coefs })
    }
}

/// Of every basis that a descriptor describes, the order is the length of the first
/// exponent row, and every exponent row and every coefficient row has that length.
pub proof fn lemma_basis_order(s: Seq<char>)
    requires
        basis_of(s) is Ok,
    ensures
        ({
            let (order, ex, co) = basis_of(s)->Ok_0;
            &&& ex.len() > 0
            &&& order == ex[0].len()
            &&& rows_of_len(ex, 0, order as int)
            &&& rows_of_len(co, 0, order as int)
        }),
{
}

} // verus!
