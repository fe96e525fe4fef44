use crate::model::repo::{empty_repo, spec_apply, strs, RepoV, Repository};
use crate::parser::instructions::errors::{ErrV, ErrorKind};
use crate::parser::instructions::instruction::{line_spec, Instruction};
use crate::parser::instructions::matching::{trim, trimmed};
use vstd::prelude::*;
use vstd::string::*;

verus! {

/// `s` cut at each line feed; there is always at least one, possibly empty, line.
pub open spec fn split_lines(s: Seq<char>) -> Seq<Seq<char>>
    decreases s.len(),
{
    if s.len() == 0 {
        seq![Seq::empty()]
    } else {
        let prev = split_lines(s.drop_last());
        if s.last() == '\n' {
            prev.push(Seq::empty())
        } else {
            prev.update(prev.len() - 1, prev.last().push(s.last()))
        }
    }
}

pub proof fn lemma_split_lines_len(s: Seq<char>)
    ensures
        split_lines(s).len() >= 1,
    decreases s.len(),
{
    if s.len() > 0 {
        lemma_split_lines_len(s.drop_last());
    }
}

/// The store after the first `m` lines: lines that trim to nothing are skipped, the first
/// line that does not read as an instruction stops the run with its error.
pub open spec fn run_lines(r: RepoV, ls: Seq<Seq<char>>, m: int) -> Result<RepoV, ErrV>
    decreases m,
{
    if m <= 0 {
        Ok(r)
    } else {
        match run_lines(r, ls, m - 1) {
            Err(e) => Err(e),
            Ok(r1) => {
                let t = trimmed(ls[m - 1]);
                if t.len() == 0 {
                    Ok(r1)
                } else {
                    match line_spec(t, (m - 1) as nat) {
                        Err(e) => Err(e),
                        Ok(i) => Ok(spec_apply(r1, i)),
                    }
                }
            },
        }
    }
}

/// What a text of instructions, one per line, builds.
pub open spec fn parse_spec(input: Seq<char>) -> Result<RepoV, ErrV> {
    run_lines(empty_repo(), split_lines(input), split_lines(input).len() as int)
}

pub proof fn lemma_run_err_sticks(r: RepoV, ls: Seq<Seq<char>>, k: int, m: int)
    requires
        k <= m,
        run_lines(r, ls, k) is Err,
    ensures
        run_lines(r, ls, m) == run_lines(r, ls, k),
    decreases m - k,
{
    if k < m {
        lemma_run_err_sticks(r, ls, k, m - 1);
    }
}

/// The lines of `input`.
pub fn lines_of(input: &str) -> (r: Vec<String>)
    ensures
        strs(r@) == split_lines(input@),
{
    let n = input.unicode_len();
    let mut lines: Vec<String> = Vec::new();
    let mut start: usize = 0;
    let mut i: usize = 0;
    proof {
        assert(input@.take(0) =~= Seq::<char>::empty());
        assert(strs(lines@).push(input@.subrange(0, 0)) =~= seq![Seq::<char>::empty()]);
    }
    while i < n
        invariant
            n == input@.len(),
            start <= i <= n,
            strs(lines@).push(input@.subrange(start as int, i as int)) == split_lines(input@.take(i as int)),
        decreases n - i,
    {
        let ghost prev = split_lines(input@.take(i as int));
        let ghost before = strs(lines@);
        let c = input.get_char(i);
        proof {
            assert(input@.take(i + 1).drop_last() =~= input@.take(i as int));
            assert(input@.take(i + 1).last() == c);
        }
        if c == '\n' {
            let piece = String::from_str(input.substring_char(start, i));
            let ghost pv = piece@;
            assert(pv == input@.subrange(start as int, i as int));
            lines.push(piece);
            assert(strs(lines@) =~= before.push(pv));
            start = i + 1;
            assert(input@.subrange(start as int, i + 1) =~= Seq::<char>::empty());
            assert(strs(lines@).push(input@.subrange(start as int, i + 1)) =~= prev.push(Seq::empty()));
        } else {
            assert(input@.subrange(start as int, i + 1) =~= input@.subrange(start as int, i as int).push(c));
            assert(strs(lines@).push(input@.subrange(start as int, i + 1)) =~= prev.update(
                prev.len() - 1,
                prev.last().push(c),
            ));
        }
        i += 1;
    }
    let last = String::from_str(input.substring_char(start, n));
    lines.push(last);
    assert(input@.take(n as int) =~= input@);
    assert(strs(lines@) =~= split_lines(input@));
    lines
}

/// Builds a store from a text of instructions, one per line, such as `commit(A)`; blank
/// lines are skipped, and the first line that is not an instruction gives its error.
pub fn parse_git_instructions(input: &str) -> (r: Result<Repository, ErrorKind>)
    ensures
        match r {
            Ok(repo) => repo.inv() && parse_spec(input@) == Ok::<RepoV, ErrV>(repo@),
            Err(e) => parse_spec(input@) == Err::<RepoV, ErrV>(e@),
        },
{
    let lines = lines_of(input);
    let ghost ls = split_lines(input@);
    let mut state = Repository::default();
    let mut k: usize = 0;
    while k < lines.len()
        invariant
            strs(lines@) == ls,
            ls == split_lines(input@),
            k <= lines.len(),
            state.inv(),
            run_lines(empty_repo(), ls, k as int) == Ok::<RepoV, ErrV>(state@),
        decreases lines.len() - k,
    {
        let t = trim(lines[k].as_str());
        assert(ls[k as int] == lines@[k as int]@);
        if t.unicode_len() != 0 {
            match Instruction::from_line(t.as_str(), k) {
                Err(e) => {
                    proof {
                        lemma_run_err_sticks(empty_repo(), ls, k + 1, ls.len() as int);
                    }
                    return Err(e);
                },
                Ok(c) => {
                    state.apply_instruction(&c);
                },
            }
        }
        k += 1;
    }
    Ok(state)
}

} // verus!
