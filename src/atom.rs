use vstd::prelude::*;
use vstd::slice::slice_subrange;
use crate::error::ParseError;
use crate::text::{
    chars_of, float_text, group_tokens, group_tokens_of, is_float_text, parse_usize, text_of,
    unsigned_value,
};

verus! {

/// Basis index and the text of the `x`, `y` and `z` coordinates.
pub type AtomFields = (usize, Seq<char>, Seq<char>, Seq<char>);

/// A nucleus: the index of its basis and its position, each coordinate as decimal text.
pub struct Atom {
    pub basis_id: usize,
    pub position: [String; 3],
}

/// Text of a coordinate that no token sets.
pub open spec fn zero_text() -> Seq<char> {
    seq!['0']
}

/// One step of the atom group scanner on token `t`.
pub open spec fn atom_step(acc: Result<AtomFields, ParseError>, t: Seq<char>) -> Result<
    AtomFields,
    ParseError,
> {
    match acc {
        Err(e) => Err(e),
        Ok((b, x, y, z)) => {
            let rest = t.drop_first();
            if t.len() < 2 {
                Err(ParseError::InvalidAtom)
            } else if t[0] == 'B' {
                match unsigned_value(rest) {
                    Some(v) => if v <= usize::MAX {
                        Ok((v as usize, x, y, z))
                    } else {
                        Err(ParseError::InvalidInteger)
                    },
                    None => Err(ParseError::InvalidInteger),
                }
            } else if (t[0] == 'X' || t[0] == 'Y' || t[0] == 'Z') && !float_text(rest) {
                Err(ParseError::InvalidNumber)
            } else if t[0] == 'X' {
                Ok((b, rest, y, z))
            } else if t[0] == 'Y' {
                Ok((b, x, rest, z))
            } else if t[0] == 'Z' {
                Ok((b, x, y, rest))
            } else {
                Err(ParseError::InvalidAtom)
            }
        },
    }
}

/// The scanner run over a whole token sequence.
pub open spec fn atom_scan(toks: Seq<Seq<char>>) -> Result<AtomFields, ParseError>
    decreases toks.len(),
{
    if toks.len() == 0 {
        Ok((0, zero_text(), zero_text(), zero_text()))
    } else {
        atom_step(atom_scan(toks.drop_last()), toks.last())
    }
}

/// The atom a descriptor describes.
pub open spec fn atom_of(s: Seq<char>) -> Result<AtomFields, ParseError> {
    atom_scan(group_tokens(s))
}

/// Once the scanner has failed on a prefix, it fails with the same error on the whole.
proof fn lemma_atom_scan_err(toks: Seq<Seq<char>>, i: int)
    requires
        0 <= i <= toks.len(),
        atom_scan(toks.take(i)) is Err,
    ensures
        atom_scan(toks) == atom_scan(toks.take(i)),
    decreases toks.len() - i,
{
    if i < toks.len() {
        assert(toks.take(i + 1).drop_last() == toks.take(i));
        lemma_atom_scan_err(toks, i + 1);
    } else {
        assert(toks.take(i) == toks);
    }
}

impl Atom {
    pub open spec fn view(&self) -> AtomFields {
        (self.basis_id, self.position[0]@, self.position[1]@, self.position[2]@)
    }

    /// Parses an atom group such as `[B0 X1.0 Y0.0 Z-1.0]`; unset coordinates are `0`.
    /// Every coordinate must be a float literal; its text is kept as given.
    pub fn from_arg(arg: &str) -> (r: Result<Atom, ParseError>)
        ensures
            match r {
                Ok(a) => atom_of(arg@) == Ok::<AtomFields, ParseError>(a@),
                Err(e) => atom_of(arg@) == Err::<AtomFields, ParseError>(e),
            },
    {
        let toks = group_tokens_of(arg);
        let mut basis_id: usize = 0;
        let mut x = text_of(&['0']);
        let mut y = text_of(&['0']);
        let mut z = text_of(&['0']);
        proof {
            assert(x@ =~= zero_text());
            assert(toks.deep_view().take(0) =~= Seq::<Seq<char>>::empty());
        }
        let mut i: usize = 0;
        while i < toks.len()
            invariant
                i <= toks.len(),
                toks.deep_view() == group_tokens(arg@),
                atom_scan(toks.deep_view().take(i as int)) == Ok::<AtomFields, ParseError>(
                    (basis_id, x@, y@, z@),
                ),
            decreases toks.len() - i,
        {
            proof {
                assert(toks.deep_view().take(i + 1).drop_last() == toks.deep_view().take(
                    i as int,
                ));
            }
            let cs = chars_of(toks[i].as_str());
            proof {
                assert(toks.deep_view().take(i + 1).last() == cs@);
            }
            if cs.len() < 2 {
                proof {
                    lemma_atom_scan_err(toks.deep_view(), i + 1);
                }
                return Err(ParseError::InvalidAtom);
            }
            let rest = text_of(slice_subrange(cs.as_slice(), 1, cs.len()));
            proof {
                assert(rest@ == cs@.drop_first());
            }
            if (cs[0] == 'X' || cs[0] == 'Y' || cs[0] == 'Z') && !is_float_text(&rest) {
                proof {
                    lemma_atom_scan_err(toks.deep_view(), i + 1);
                }
                return Err(ParseError::InvalidNumber);
            }
            if cs[0] == 'B' {
                match parse_usize(rest.as_str()) {
                    Some(v) => {
                        basis_id = v;
                    },
                    None => {
                        proof {
                            lemma_atom_scan_err(toks.deep_view(), i + 1);
                        }
                        return Err(ParseError::InvalidInteger);
                    },
                }
            } else if cs[0] == 'X' {
                x = rest;
            } else if cs[0] == 'Y' {
                y = rest;
            } else if cs[0] == 'Z' {
                z = rest;
            } else {
                proof {
                    lemma_atom_scan_err(toks.deep_view(), i + 1);
                }
                return Err(ParseError::InvalidAtom);
            }
            i = i + 1;
        }
        proof {
            assert(toks.deep_view().take(toks.len() as int) == toks.deep_view());
        }
        Ok(Atom { basis_id, position: [x, y, z] })
    }
}

} // verus!
