use crate::parser::instructions::arguments::{parse_args, ArgList, ArgListV};
use crate::parser::instructions::errors::{ErrV, ErrorKind};
use crate::parser::instructions::matching::{captures, groups_view, regex_captures, str_eq};
use crate::model::repo::strs;
use vstd::prelude::*;
use vstd::string::*;

verus! {

/// Options of a `branch` instruction.
#[derive(Clone, Copy, Debug)]
pub struct BranchArgs {
    pub new_root: bool,
}

/// One step of a history description.
#[derive(Debug)]
pub enum Instruction {
    /// Create a branch at the current commit.
    BRANCH(String, BranchArgs),
    /// Add a commit to the active branch.
    COMMIT(String),
    /// Make a branch active, creating it if needed.
    CHECKOUT(String),
    /// Add a commit to the active branch whose further parents are the named branches or commits.
    MERGE(String, Vec<String>),
}

/// Mathematical view of an `Instruction`.
pub enum InstrV {
    Branch(Seq<char>, bool),
    Commit(Seq<char>),
    Checkout(Seq<char>),
    Merge(Seq<char>, Seq<Seq<char>>),
}

impl View for Instruction {
    type V = InstrV;

    open spec fn view(&self) -> InstrV {
        match self {
            Instruction::BRANCH(n, a) => InstrV::Branch(n@, a.new_root),
            Instruction::COMMIT(id) => InstrV::Commit(id@),
            Instruction::CHECKOUT(n) => InstrV::Checkout(n@),
            Instruction::MERGE(id, srcs) => InstrV::Merge(id@, strs(srcs@)),
        }
    }
}

/// Options of a branch command from its named arguments: all but the first must be
/// `new_root`, which sets the flag.
pub open spec fn branch_options(named: Seq<(Seq<char>, Seq<char>)>, m: int, cmd: Seq<char>, line: nat) -> Result<bool, ErrV>
    decreases m,
{
    if m <= 1 {
        Ok(false)
    } else {
        match branch_options(named, m - 1, cmd, line) {
            Err(e) => Err(e),
            Ok(_) => if named[m - 1].0 == "new_root"@ {
                Ok(true)
            } else {
                Err(ErrV::InvalidArgument(cmd, named[m - 1].0, line))
            },
        }
    }
}

/// The instruction that command `cmd` with arguments `a` on line `line` stands for.
pub open spec fn command_spec(cmd: Seq<char>, a: ArgListV, line: nat) -> Result<InstrV, ErrV> {
    if cmd == "branch"@ {
        if a.plain.len() != 1 {
            Err(ErrV::WrongNumberOfArguments(cmd, line))
        } else {
            match branch_options(a.named, a.named.len() as int, cmd, line) {
                Err(e) => Err(e),
                Ok(nr) => Ok(InstrV::Branch(a.plain[0], nr)),
            }
        }
    } else if cmd == "commit"@ {
        if a.plain.len() != 1 || a.named.len() != 0 {
            Err(ErrV::WrongNumberOfArguments(cmd, line))
        } else {
            Ok(InstrV::Commit(a.plain[0]))
        }
    } else if cmd == "checkout"@ {
        if a.plain.len() != 1 || a.named.len() != 0 {
            Err(ErrV::WrongNumberOfArguments(cmd, line))
        } else {
            Ok(InstrV::Checkout(a.plain[0]))
        }
    } else if cmd == "merge"@ {
        if a.plain.len() < 2 || a.named.len() != 0 {
            Err(ErrV::WrongNumberOfArguments(cmd, line))
        } else {
            Ok(InstrV::Merge(a.plain[0], a.plain.skip(1)))
        }
    } else {
        Err(ErrV::InvalidInstruction(cmd, line))
    }
}

pub open spec fn instr_result(r: Result<Instruction, ErrorKind>) -> Result<InstrV, ErrV> {
    match r {
        Ok(i) => Ok(i@),
        Err(e) => Err(e@),
    }
}

/// Once a named argument is refused, the options are refused for the same reason.
pub proof fn lemma_options_err_sticks(named: Seq<(Seq<char>, Seq<char>)>, k: int, m: int, cmd: Seq<char>, line: nat)
    requires
        k <= m,
        branch_options(named, k, cmd, line) is Err,
    ensures
        branch_options(named, m, cmd, line) == branch_options(named, k, cmd, line),
    decreases m - k,
{
    if k < m {
        lemma_options_err_sticks(named, k, m - 1, cmd, line);
    }
}

/// A command name, then one or more comma-separated arguments in parentheses.
pub open spec fn line_pattern() -> Seq<char> {
    r"^(\s*[a-z]+)\((?:([^,\n]+),)*([^,\n]+)\)\s*$"@
}

/// The argument groups (from group 2 on) that took part in a match, in order.
pub open spec fn present_groups(gs: Seq<Option<Seq<char>>>) -> Seq<Seq<char>>
    decreases gs.len(),
{
    if gs.len() <= 2 {
        Seq::empty()
    } else {
        present_groups(gs.drop_last()) + if gs.last() is Some {
            seq![gs.last().unwrap()]
        } else {
            Seq::empty()
        }
    }
}

/// The instruction that the groups of a match of `line_pattern` on `line` stand for.
pub open spec fn line_from_groups(g: Option<Seq<Option<Seq<char>>>>, line: Seq<char>, n: nat) -> Result<InstrV, ErrV> {
    match g {
        None => Err(ErrV::InvalidInstruction(line, n)),
        Some(gs) => if gs.len() < 2 || gs[1] is None {
            Err(ErrV::InvalidInstruction(line, n))
        } else {
            match parse_args(present_groups(gs), n) {
                Err(e) => Err(e),
                Ok(a) => command_spec(gs[1].unwrap(), a, n),
            }
        },
    }
}

/// The instruction that line `n` holds.
pub open spec fn line_spec(line: Seq<char>, n: nat) -> Result<InstrV, ErrV> {
    line_from_groups(regex_captures(line_pattern(), line), line, n)
}

impl BranchArgs {
    fn default() -> (r: BranchArgs)
        ensures
            !r.new_root,
    {
        BranchArgs { new_root: false }
    }

    fn with_new_root(&self) -> (r: BranchArgs)
        ensures
            r.new_root,
    {
        let mut res = *self;
        res.new_root = true;
        res
    }
}

impl Instruction {
    /// The instruction for a command and its arguments, or why they do not form one.
    pub fn from_command(command: String, args: ArgList, line_num: usize) -> (r: Result<Instruction, ErrorKind>)
        ensures
            instr_result(r) == command_spec(command@, args@, line_num as nat),
    {
        let c = command.as_str();
        if str_eq(c, "branch") {
            if args.plain_args.len() != 1 {
                return Err(ErrorKind::WrongNumberOfArguments(command, line_num));
            }
            let ghost named = args@.named;
            let mut ba = BranchArgs::default();
            let mut k: usize = 1;
            while k < args.named_args.len()
                invariant
                    named == args@.named,
                    command@ == "branch"@,
                    args.plain_args.len() == 1,
                    1 <= k,
                    k <= args.named_args.len() || args.named_args.len() == 0,
                    args.named_args.len() > 0 ==> branch_options(named, k as int, command@, line_num as nat) == Ok::<
                        bool,
                        ErrV,
                    >(ba.new_root),
                    args.named_args.len() == 0 ==> !ba.new_root,
                decreases args.named_args.len() - k,
            {
                assert(named[k as int].0 == args.named_args@[k as int].name@);
                if str_eq(args.named_args[k].name.as_str(), "new_root") {
                    ba = ba.with_new_root();
                } else {
                    proof {
                        assert(branch_options(named, k + 1, command@, line_num as nat) == Err::<bool, ErrV>(
                            ErrV::InvalidArgument(command@, named[k as int].0, line_num as nat),
                        ));
                        lemma_options_err_sticks(named, k + 1, named.len() as int, command@, line_num as nat);
                    }
                    return Err(ErrorKind::InvalidArgument(command, args.named_args[k].name.clone(), line_num));
                }
                k += 1;
            }
            let ghost a = args@;
            assert(a.plain[0] == args.plain_args@[0]@);
            return Ok(Instruction::BRANCH(args.plain_args[0].clone(), ba));
        }
        if str_eq(c, "commit") {
            if args.plain_args.len() != 1 || args.named_args.len() != 0 {
                return Err(ErrorKind::WrongNumberOfArguments(command, line_num));
            }
            assert(args@.plain[0] == args.plain_args@[0]@);
            return Ok(Instruction::COMMIT(args.plain_args[0].clone()));
        }
        if str_eq(c, "checkout") {
            if args.plain_args.len() != 1 || args.named_args.len() != 0 {
                return Err(ErrorKind::WrongNumberOfArguments(command, line_num));
            }
            assert(args@.plain[0] == args.plain_args@[0]@);
            return Ok(Instruction::CHECKOUT(args.plain_args[0].clone()));
        }
        if str_eq(c, "merge") {
            if args.plain_args.len() < 2 || args.named_args.len() != 0 {
                return Err(ErrorKind::WrongNumberOfArguments(command, line_num));
            }
            let mut rest: Vec<String> = Vec::new();
            let mut k: usize = 1;
            while k < args.plain_args.len()
                invariant
                    1 <= k <= args.plain_args.len(),
                    strs(rest@) == args@.plain.subrange(1, k as int),
                decreases args.plain_args.len() - k,
            {
                let ghost before = rest@;
                rest.push(args.plain_args[k].clone());
                assert(rest@ == before.push(args.plain_args@[k as int]));
                assert(args@.plain[k as int] == args.plain_args@[k as int]@);
                assert(strs(rest@) =~= strs(before).push(args.plain_args@[k as int]@));
                assert(args@.plain.subrange(1, k + 1) =~= args@.plain.subrange(1, k as int).push(args@.plain[k as int]));
                assert(strs(rest@) =~= args@.plain.subrange(1, k + 1));
                k += 1;
            }
            assert(args@.plain.subrange(1, args.plain_args.len() as int) =~= args@.plain.skip(1));
            assert(args@.plain[0] == args.plain_args@[0]@);
            return Ok(Instruction::MERGE(args.plain_args[0].clone(), rest));
        }
        Err(ErrorKind::InvalidInstruction(command, line_num))
    }

    /// The instruction that the groups of a match of `line_pattern` on `line` stand for.
    pub fn from_captures(groups: Option<Vec<Option<String>>>, line: &str, line_num: usize) -> (r: Result<Instruction, ErrorKind>)
        ensures
            instr_result(r) == line_from_groups(groups_view(groups), line@, line_num as nat),
    {
        let gs = match groups {
            Some(gs) => gs,
            None => {
                return Err(ErrorKind::InvalidInstruction(String::from_str(line), line_num));
            },
        };
        let ghost gv = groups_view(Some(gs)).unwrap();
        if gs.len() < 2 {
            return Err(ErrorKind::InvalidInstruction(String::from_str(line), line_num));
        }
        let command = match &gs[1] {
            Some(c) => c.clone(),
            None => {
                return Err(ErrorKind::InvalidInstruction(String::from_str(line), line_num));
            },
        };
        let mut args: Vec<String> = Vec::new();
        let mut i: usize = 2;
        proof {
            assert(strs(args@) =~= present_groups(gv.take(2)));
        }
        while i < gs.len()
            invariant
                gv == groups_view(Some(gs)).unwrap(),
                2 <= i <= gs.len(),
                strs(args@) == present_groups(gv.take(i as int)),
            decreases gs.len() - i,
        {
            let ghost before = strs(args@);
            proof {
                assert(gv.take(i + 1).drop_last() =~= gv.take(i as int));
                assert(gv.take(i + 1).last() == crate::model::repo::opt_str(gs@[i as int]));
            }
            match &gs[i] {
                Some(c) => {
                    args.push(c.clone());
                    assert(strs(args@) =~= before + seq![c@]);
                },
                None => {},
            }
            assert(strs(args@) =~= present_groups(gv.take(i + 1)));
            i += 1;
        }
        assert(gv.take(gs.len() as int) =~= gv);
        match ArgList::parse(args, line_num) {
            Err(e) => Err(e),
            Ok(a) => Instruction::from_command(command, a, line_num),
        }
    }

    /// Reads one line of the instruction language, such as `merge(M,feature)`.
    pub fn from_line(line: &str, line_num: usize) -> (r: Result<Instruction, ErrorKind>)
        ensures
            instr_result(r) == line_spec(line@, line_num as nat),
    {
        let g = captures(r"^(\s*[a-z]+)\((?:([^,\n]+),)*([^,\n]+)\)\s*$", line);
        Instruction::from_captures(g, line, line_num)
    }
}

} // verus!
