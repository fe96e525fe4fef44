use crate::parser::instructions::errors::{ErrV, ErrorKind};
use crate::parser::instructions::matching::{captures, groups_view, regex_captures, trim, trimmed};
use crate::model::repo::strs;
use vstd::prelude::*;

verus! {

/// An argument written `name = value`.
pub struct NamedArg {
    pub name: String,
    pub value: String,
}

/// The arguments of a command: plain ones first, then named ones.
pub struct ArgList {
    pub plain_args: Vec<String>,
    pub named_args: Vec<NamedArg>,
}

/// Mathematical view of an `ArgList`: the plain arguments, and the named ones as pairs.
pub struct ArgListV {
    pub plain: Seq<Seq<char>>,
    pub named: Seq<(Seq<char>, Seq<char>)>,
}

impl View for NamedArg {
    type V = (Seq<char>, Seq<char>);

    open spec fn view(&self) -> (Seq<char>, Seq<char>) {
        (self.name@, self.value@)
    }
}

impl View for ArgList {
    type V = ArgListV;

    open spec fn view(&self) -> ArgListV {
        ArgListV {
            plain: strs(self.plain_args@),
            named: self.named_args@.map_values(|a: NamedArg| a@),
        }
    }
}

pub open spec fn opt_named(r: Option<NamedArg>) -> Option<(Seq<char>, Seq<char>)> {
    match r {
        Some(a) => Some(a@),
        None => None,
    }
}

/// A name of letters, optional spaces, `=`, and a non-empty value.
pub open spec fn named_arg_pattern() -> Seq<char> {
    r"^\s*([a-zA-Z]+)\s*=(.+)$"@
}

/// The name and value, trimmed, that groups 1 and 2 of a match hold.
pub open spec fn named_from_groups(g: Option<Seq<Option<Seq<char>>>>) -> Option<(Seq<char>, Seq<char>)> {
    match g {
        Some(gs) => if gs.len() >= 3 && gs[1] is Some && gs[2] is Some {
            Some((trimmed(gs[1].unwrap()), trimmed(gs[2].unwrap())))
        } else {
            None
        },
        None => None,
    }
}

/// `arg` read as a named argument.
pub open spec fn named_arg_of(arg: Seq<char>) -> Option<(Seq<char>, Seq<char>)> {
    named_from_groups(regex_captures(named_arg_pattern(), arg))
}

/// Arguments read in order: a named one is kept as a pair; a plain one after a named one
/// is refused.
pub open spec fn parse_args(args: Seq<Seq<char>>, line: nat) -> Result<ArgListV, ErrV>
    decreases args.len(),
{
    if args.len() == 0 {
        Ok(ArgListV { plain: Seq::empty(), named: Seq::empty() })
    } else {
        match parse_args(args.drop_last(), line) {
            Err(e) => Err(e),
            Ok(l) => match named_arg_of(args.last()) {
                Some(p) => Ok(ArgListV { plain: l.plain, named: l.named.push(p) }),
                None => if l.named.len() > 0 {
                    Err(ErrV::NamedArgAfterPlainArg(line))
                } else {
                    Ok(ArgListV { plain: l.plain.push(args.last()), named: l.named })
                },
            },
        }
    }
}

/// Once the arguments read so far are refused, so are all of them, for the same reason.
pub proof fn lemma_args_err_sticks(s: Seq<Seq<char>>, k: int, line: nat)
    requires
        0 <= k <= s.len(),
        parse_args(s.take(k), line) is Err,
    ensures
        parse_args(s, line) == parse_args(s.take(k), line),
    decreases s.len(),
{
    if k == s.len() {
        assert(s.take(k) =~= s);
    } else {
        assert(s.drop_last().take(k) =~= s.take(k));
        lemma_args_err_sticks(s.drop_last(), k, line);
    }
}

impl NamedArg {
    fn new(name: String, value: String) -> (r: NamedArg)
        ensures
            r@ == (name@, value@),
    {
        NamedArg { name, value }
    }

    /// The named argument that the groups of a match of `named_arg_pattern` hold.
    pub fn from_captures(groups: &Option<Vec<Option<String>>>) -> (r: Option<NamedArg>)
        ensures
            opt_named(r) == named_from_groups(groups_view(*groups)),
    {
        match groups {
            Some(gs) => {
                if gs.len() >= 3 {
                    match (&gs[1], &gs[2]) {
                        (Some(n), Some(v)) => Some(NamedArg::new(trim(n.as_str()), trim(v.as_str()))),
                        _ => None,
                    }
                } else {
                    None
                }
            },
            None => None,
        }
    }

    /// Reads `arg` as `name = value`, both trimmed.
    pub fn parse(arg: &str) -> (r: Option<NamedArg>)
        ensures
            opt_named(r) == named_arg_of(arg@),
    {
        let g = captures(r"^\s*([a-zA-Z]+)\s*=(.+)$", arg);
        NamedArg::from_captures(&g)
    }
}

impl ArgList {
    fn new() -> (r: ArgList)
        ensures
            r@ == (ArgListV { plain: Seq::empty(), named: Seq::empty() }),
    {
        let r = ArgList { plain_args: Vec::new(), named_args: Vec::new() };
        assert(r@.plain =~= Seq::empty());
        assert(r@.named =~= Seq::empty());
        r
    }

    /// Sorts the arguments of line `line_num` into plain and named ones; a plain argument
    /// after a named one is an error.
    pub fn parse(args: Vec<String>, line_num: usize) -> (r: Result<ArgList, ErrorKind>)
        ensures
            match r {
                Ok(l) => parse_args(strs(args@), line_num as nat) == Ok::<ArgListV, ErrV>(l@),
                Err(e) => parse_args(strs(args@), line_num as nat) == Err::<ArgListV, ErrV>(e@),
            },
    {
        let ghost all = strs(args@);
        let mut res = ArgList::new();
        let mut k: usize = 0;
        while k < args.len()
            invariant
                all == strs(args@),
                k <= args.len(),
                parse_args(all.take(k as int), line_num as nat) == Ok::<ArgListV, ErrV>(res@),
            decreases args.len() - k,
        {
            proof {
                assert(all.take(k + 1).drop_last() =~= all.take(k as int));
                assert(all.take(k + 1).last() == args@[k as int]@);
            }
            let ghost before = res@;
            match NamedArg::parse(args[k].as_str()) {
                Some(n) => {
                    res.named_args.push(n);
                    assert(res@.named =~= before.named.push(n@));
                    assert(res@.plain =~= before.plain);
                },
                None => {
                    if res.named_args.len() > 0 {
                        proof {
                            lemma_args_err_sticks(all, k + 1, line_num as nat);
                        }
                        return Err(ErrorKind::NamedArgAfterPlainArg(line_num));
                    }
                    res.plain_args.push(args[k].clone());
                    assert(res@.plain =~= before.plain.push(args@[k as int]@));
                    assert(res@.named =~= before.named);
                },
            }
            k += 1;
        }
        assert(all.take(args.len() as int) =~= all);
        Ok(res)
    }
}

} // verus!
