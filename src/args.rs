use vstd::prelude::*;
use crate::error::ParseError;
use crate::text::{chars_of, strip_back, strip_front, text_of, trim_pair, trim_run};

verus! {

/// Groups so far, each a sequence of tokens.
pub type Groups = Seq<Seq<Seq<char>>>;

/// One step of grouping on argument `t`: a token that starts with `[` opens a group
/// (leading `[`s and trailing `]`s removed); any other joins the last group (trailing
/// `]`s removed). What is empty once its brackets are removed adds no token.
pub open spec fn group_step(acc: Result<Groups, ParseError>, t: Seq<char>) -> Result<
    Groups,
    ParseError,
> {
    match acc {
        Err(e) => Err(e),
        Ok(gs) => if t.len() > 0 && t[0] == '[' {
            if trim_pair(t, '[', ']').len() == 0 {
                Ok(gs.push(Seq::empty()))
            } else {
                Ok(gs.push(seq![trim_pair(t, '[', ']')]))
            }
        } else if gs.len() == 0 {
            Err(ParseError::UngroupedToken)
        } else if strip_back(t, ']').len() == 0 {
            Ok(gs)
        } else {
            Ok(gs.update(gs.len() - 1, gs.last().push(strip_back(t, ']'))))
        },
    }
}

/// Grouping run over a whole argument sequence.
pub open spec fn groups_of(args: Seq<Seq<char>>) -> Result<Groups, ParseError>
    decreases args.len(),
{
    if args.len() == 0 {
        Ok(Seq::empty())
    } else {
        group_step(groups_of(args.drop_last()), args.last())
    }
}

/// The groups of an argument list; a group without tokens is refused.
pub open spec fn argv_groups(args: Seq<Seq<char>>) -> Result<Groups, ParseError> {
    match groups_of(args) {
        Err(e) => Err(e),
        Ok(gs) => if exists|i: int| 0 <= i < gs.len() && (#[trigger] gs[i]).len() == 0 {
            Err(ParseError::EmptyGroup)
        } else {
            Ok(gs)
        },
    }
}

/// Splits a flat argument list into bracketed groups: `["[B0", "X1]", "[B1]"]` gives
/// `[["B0", "X1"], ["B1"]]`. A token before the first group is refused, and so is a
/// group with no token (`"[]"`, or `"["` then `"]"`).
pub fn collect_argvs(raw_argv: &Vec<String>) -> (r: Result<Vec<Vec<String>>, ParseError>)
    ensures
        match r {
            Ok(gs) => argv_groups(raw_argv.deep_view()) == Ok::<Groups, ParseError>(
                gs.deep_view(),
            ),
            Err(e) => argv_groups(raw_argv.deep_view()) == Err::<Groups, ParseError>(e),
        },
{
    let mut argvs: Vec<Vec<String>> = Vec::new();
    let mut i: usize = 0;
    proof {
        assert(raw_argv.deep_view().take(0) =~= Seq::<Seq<char>>::empty());
        assert(argvs.deep_view() =~= Seq::<Seq<Seq<char>>>::empty());
    }
    while i < raw_argv.len()
        invariant
            i <= raw_argv.len(),
            groups_of(raw_argv.deep_view().take(i as int)) == Ok::<Groups, ParseError>(
                argvs.deep_view(),
            ),
        decreases raw_argv.len() - i,
    {
        let ghost before = argvs.deep_view();
        proof {
            assert(raw_argv.deep_view().take(i + 1).drop_last() == raw_argv.deep_view().take(
                i as int,
            ));
            assert(raw_argv.deep_view().take(i + 1).last() == raw_argv[i as int]@);
        }
        let cs = chars_of(raw_argv[i].as_str());
        let tv = trim_run(&cs, '[', ']');
        let t = text_of(tv.as_slice());
        if cs.len() > 0 && cs[0] == '[' {
            let mut group: Vec<String> = Vec::new();
            if tv.len() > 0 {
                group.push(t);
            }
            proof {
                if t@.len() == 0 {
                    assert(group.deep_view() =~= Seq::<Seq<char>>::empty());
                    assert(argvs.deep_view().push(group.deep_view()) =~= before.push(
                        Seq::empty(),
                    ));
                } else {
                    assert(group.deep_view() =~= seq![trim_pair(cs@, '[', ']')]);
                }
            }
            argvs.push(group);
            proof {
                if t@.len() == 0 {
                    assert(argvs.deep_view() =~= before.push(Seq::empty()));
                } else {
                    assert(argvs.deep_view() =~= before.push(seq![trim_pair(cs@, '[', ']')]));
                }
            }
        } else {
            if argvs.len() == 0 {
                proof {
                    lemma_groups_err(raw_argv.deep_view(), i + 1);
                }
                return Err(ParseError::UngroupedToken);
            }
            proof {
                assert(strip_front(cs@, '[') == cs@);
            }
            if tv.len() > 0 {
                let last = argvs.len() - 1;
                let ghost row = argvs[last as int].deep_view();
                argvs[last].push(t);
                proof {
                    assert(argvs[last as int].deep_view() =~= row.push(t@));
                    assert(argvs.deep_view() =~= before.update(
                        before.len() - 1,
                        before.last().push(strip_back(cs@, ']')),
                    ));
                }
            }
        }
        i = i + 1;
    }
    proof {
        assert(raw_argv.deep_view().take(raw_argv.len() as int) == raw_argv.deep_view());
    }
    let mut k: usize = 0;
    while k < argvs.len()
        invariant
            k <= argvs.len(),
            groups_of(raw_argv.deep_view()) == Ok::<Groups, ParseError>(argvs.deep_view()),
            forall|q: int| 0 <= q < k ==> (#[trigger] argvs.deep_view()[q]).len() != 0,
        decreases argvs.len() - k,
    {
        if argvs[k].len() == 0 {
            proof {
                assert(argvs.deep_view()[k as int].len() == 0);
            }
            return Err(ParseError::EmptyGroup);
        }
        proof {
            assert(argvs.deep_view()[k as int].len() == argvs[k as int].len());
        }
        k = k + 1;
    }
    Ok(argvs)
}

/// Once grouping has failed on a prefix, it fails with the same error on the whole.
proof fn lemma_groups_err(args: Seq<Seq<char>>, i: int)
    requires
        0 <= i <= args.len(),
        groups_of(args.take(i)) is Err,
    ensures
        groups_of(args) == groups_of(args.take(i)),
    decreases args.len() - i,
{
    if i < args.len() {
        assert(args.take(i + 1).drop_last() == args.take(i));
        lemma_groups_err(args, i + 1);
    } else {
        assert(args.take(i) == args);
    }
}

} // verus!
