use vstd::prelude::*;
use crate::atom::{Atom, AtomFields, atom_of};
use crate::basis::{Basis, basis_of};
use crate::c_fmt::{
    BasisFields, array2, atoms_view, bases_view, literal, matrix_literal, molecule_records,
    orbitals, orbitals_ready, rows_plain,
};
use crate::error::ParseError;
use crate::grid::{AtomArray, BasisArray, TextMatrix};
use crate::mo_coefs::{from_arg, mo_coefs_of};
use crate::text::{decimal_text, usize_text};

verus! {

/// Bases, atoms and coefficient rows, as described.
pub type ParamsFields = (Seq<BasisFields>, Seq<AtomFields>, Seq<Seq<Seq<char>>>);

/// Everything the orbital renderer needs: the bases, the atoms, and the molecular-orbital
/// coefficient matrix (one row per orbital), numbers as decimal text.
pub struct Params {
    pub bases: BasisArray,
    pub atoms: AtomArray,
    pub mo_coefs: TextMatrix,
}

/// The text fragments spliced into the fragment shader.
pub struct Fragments {
    /// The contraction order of the first basis.
    pub num_cc: String,
    /// The orbital list.
    pub orbitals: String,
    /// The coefficient matrix literal.
    pub mo_coefs: String,
}

/// Every basis descriptor parsed, or the error of the first that fails.
pub open spec fn bases_of(args: Seq<Seq<char>>) -> Result<Seq<BasisFields>, ParseError>
    decreases args.len(),
{
    if args.len() == 0 {
        Ok(Seq::empty())
    } else {
        match bases_of(args.drop_last()) {
            Err(e) => Err(e),
            Ok(done) => match basis_of(args.last()) {
                Err(e) => Err(e),
                Ok(b) => Ok(done.push(b)),
            },
        }
    }
}

/// Every atom descriptor parsed, or the error of the first that fails.
pub open spec fn atoms_of(args: Seq<Seq<char>>) -> Result<Seq<AtomFields>, ParseError>
    decreases args.len(),
{
    if args.len() == 0 {
        Ok(Seq::empty())
    } else {
        match atoms_of(args.drop_last()) {
            Err(e) => Err(e),
            Ok(done) => match atom_of(args.last()) {
                Err(e) => Err(e),
                Ok(a) => Ok(done.push(a)),
            },
        }
    }
}

/// The parameters that the descriptors describe; bases are read first, then atoms, then
/// the coefficients, and the first failure is the result.
pub open spec fn params_of(bases: Seq<Seq<char>>, atoms: Seq<Seq<char>>, coefs: Seq<char>) -> Result<
    ParamsFields,
    ParseError,
> {
    match bases_of(bases) {
        Err(e) => Err(e),
        Ok(bs) => match atoms_of(atoms) {
            Err(e) => Err(e),
            Ok(ats) => match mo_coefs_of(coefs) {
                Err(e) => Err(e),
                Ok(m) => Ok((bs, ats, m)),
            },
        },
    }
}

proof fn lemma_bases_err(args: Seq<Seq<char>>, i: int)
    requires
        0 <= i <= args.len(),
        bases_of(args.take(i)) is Err,
    ensures
        bases_of(args) == bases_of(args.take(i)),
    decreases args.len() - i,
{
    if i < args.len() {
        assert(args.take(i + 1).drop_last() == args.take(i));
        lemma_bases_err(args, i + 1);
    } else {
        assert(args.take(i) == args);
    }
}

proof fn lemma_atoms_err(args: Seq<Seq<char>>, i: int)
    requires
        0 <= i <= args.len(),
        atoms_of(args.take(i)) is Err,
    ensures
        atoms_of(args) == atoms_of(args.take(i)),
    decreases args.len() - i,
{
    if i < args.len() {
        assert(args.take(i + 1).drop_last() == args.take(i));
        lemma_atoms_err(args, i + 1);
    } else {
        assert(args.take(i) == args);
    }
}

impl Params {
    pub open spec fn view(&self) -> ParamsFields {
        (bases_view(self.bases@), atoms_view(self.atoms@), self.mo_coefs@)
    }

    /// Parses every basis descriptor, every atom descriptor and the coefficient
    /// descriptor.
    pub fn from_args(bases: &Vec<String>, atoms: &Vec<String>, coefs: &str) -> (r: Result<
        Params,
        ParseError,
    >)
        ensures
            match r {
                Ok(p) => params_of(bases.deep_view(), atoms.deep_view(), coefs@) == Ok::<
                    ParamsFields,
                    ParseError,
                >(p@),
                Err(e) => params_of(bases.deep_view(), atoms.deep_view(), coefs@) == Err::<
                    ParamsFields,
                    ParseError,
                >(e),
            },
    {
        let ghost bargs = bases.deep_view();
        let ghost aargs = atoms.deep_view();
        let mut bs: Vec<Basis> = Vec::new();
        let mut i: usize = 0;
        proof {
            assert(bargs.take(0) =~= Seq::<Seq<char>>::empty());
            assert(bases_view(bs@) =~= Seq::<BasisFields>::empty());
        }
        while i < bases.len()
            invariant
                i <= bases.len(),
                bargs == bases.deep_view(),
                bases_of(bargs.take(i as int)) == Ok::<Seq<BasisFields>, ParseError>(
                    bases_view(bs@),
                ),
            decreases bases.len() - i,
        {
            proof {
                assert(bargs.take(i + 1).drop_last() == bargs.take(i as int));
                assert(bargs.take(i + 1).last() == bases[i as int]@);
            }
            match Basis::from_arg(bases[i].as_str()) {
                Err(e) => {
                    proof {
                        lemma_bases_err(bargs, i + 1);
                    }
                    return Err(e);
                },
                Ok(b) => {
                    let ghost before = bases_view(bs@);
                    bs.push(b);
                    proof {
                        assert(bases_view(bs@) =~= before.push(b@));
                    }
                },
            }
            i = i + 1;
        }
        proof {
            assert(bargs.take(bases.len() as int) == bargs);
        }
        let mut ats: Vec<Atom> = Vec::new();
        let mut i: usize = 0;
        proof {
            assert(aargs.take(0) =~= Seq::<Seq<char>>::empty());
            assert(atoms_view(ats@) =~= Seq::<AtomFields>::empty());
        }
        while i < atoms.len()
            invariant
                i <= atoms.len(),
                aargs == atoms.deep_view(),
                bargs == bases.deep_view(),
                bases_of(bargs) == Ok::<Seq<BasisFields>, ParseError>(bases_view(bs@)),
                atoms_of(aargs.take(i as int)) == Ok::<Seq<AtomFields>, ParseError>(
                    atoms_view(ats@),
                ),
            decreases atoms.len() - i,
        {
            proof {
                assert(aargs.take(i + 1).drop_last() == aargs.take(i as int));
                assert(aargs.take(i + 1).last() == atoms[i as int]@);
            }
            match Atom::from_arg(atoms[i].as_str()) {
                Err(e) => {
                    proof {
                        lemma_atoms_err(aargs, i + 1);
                    }
                    return Err(e);
                },
                Ok(a) => {
                    let ghost before = atoms_view(ats@);
                    ats.push(a);
                    proof {
                        assert(atoms_view(ats@) =~= before.push(a@));
                    }
                },
            }
            i = i + 1;
        }
        proof {
            assert(aargs.take(atoms.len() as int) == aargs);
        }
        match from_arg(coefs) {
            Err(e) => Err(e),
            Ok(m) => Ok(
                Params {
                    bases: BasisArray::from_vec(bs),
                    atoms: AtomArray::from_vec(ats),
                    mo_coefs: m,
                },
            ),
        }
    }

    /// The shader fragments for these parameters, or `None` where there is no basis, where
    /// an atom names a basis that is missing or lacks coefficient rows for its shells, or
    /// where a coordinate, an exponent or a coefficient that would be written out is not a
    /// plain decimal literal (`NaN`, `inf`, an exponent).
    pub fn fragments(&self) -> (r: Option<Fragments>)
        ensures
            r is Some <==> self.bases@.len() > 0 && orbitals_ready(
                atoms_view(self.atoms@),
                bases_view(self.bases@),
            ) && rows_plain(self.mo_coefs@),
            r matches Some(f) ==> {
                &&& f.num_cc@ == decimal_text(self.bases@[0].order as nat)
                &&& f.orbitals@ == literal(
                    molecule_records(atoms_view(self.atoms@), bases_view(self.bases@)),
                )
                &&& f.mo_coefs@ == matrix_literal(self.mo_coefs@)
            },
    {
        if self.bases.len() == 0 {
            return None;
        }
        match orbitals(&self.atoms, &self.bases) {
            None => None,
            Some(list) => match array2(&self.mo_coefs) {
                None => None,
                Some(mo_coefs) => Some(
                    Fragments {
                        num_cc: usize_text(self.bases.get(0).order),
                        orbitals: list,
                        mo_coefs,
                    },
                ),
            },
        }
    }
}

} // verus!
