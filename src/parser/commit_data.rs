use crate::parser::branch_data::BranchData;
use vstd::prelude::*;

verus! {

/// What one time step of the compact notation holds.
pub struct CommitData {
    pub commit_id: String,
    pub branch: String,
    pub merge_into_branches: Vec<String>,
    pub merge_from_branches: Vec<String>,
}

/// Whether `c` is a letter or digit, as std's `char::is_alphanumeric` decides.
pub uninterp spec fn alphanumeric(c: char) -> bool;

/// Relies on char::is_alphanumeric: Unicode letters and numbers.
#[verifier::external_body]
fn is_alphanumeric(c: char) -> (r: bool)
    ensures
        r == alphanumeric(c),
{
    c.is_alphanumeric()
}

/// Relies on char's `ToString`: a string of that one character.
#[verifier::external_body]
fn char_string(c: char) -> (r: String)
    ensures
        r@ == seq![c],
{
    c.to_string()
}

/// The symbol of branch `b` at step `i`; a blank past the end of its line.
pub open spec fn symbol(bs: Seq<BranchData>, b: int, i: int) -> char {
    if 0 <= i < bs[b].commit_line.len() {
        bs[b].commit_line@[i]
    } else {
        ' '
    }
}

/// The last of the first `m` branches whose symbol at step `i` is a letter or digit.
pub open spec fn commit_owner(bs: Seq<BranchData>, i: int, m: int) -> int
    decreases m,
{
    if m <= 0 {
        -1
    } else if alphanumeric(symbol(bs, m - 1, i)) {
        m - 1
    } else {
        commit_owner(bs, i, m - 1)
    }
}

/// The names, in order, of the first `m` branches whose symbol at step `i` is `ch`.
pub open spec fn names_marked(bs: Seq<BranchData>, i: int, ch: char, m: int) -> Seq<Seq<char>>
    decreases m,
{
    if m <= 0 {
        Seq::empty()
    } else {
        names_marked(bs, i, ch, m - 1) + if symbol(bs, m - 1, i) == ch {
            seq![bs[m - 1].name@]
        } else {
            Seq::empty()
        }
    }
}

pub open spec fn names_view(v: Seq<String>) -> Seq<Seq<char>> {
    v.map_values(|s: String| s@)
}

/// Reads step `commit_index` across the branch lines: the commit there (on the last branch
/// with a letter or digit there), the branches marked `<` and those marked `>`. Nothing
/// where no branch has a commit at that step.
pub fn build_commit_data(branch_datas: &Vec<BranchData>, commit_index: usize) -> (r: Option<CommitData>)
    ensures
        ({
            let bs = branch_datas@;
            let o = commit_owner(bs, commit_index as int, bs.len() as int);
            match r {
                None => o == -1,
                Some(d) => o >= 0 && d.commit_id@ == seq![symbol(bs, o, commit_index as int)] && d.branch@
                    == bs[o].name@ && names_view(d.merge_into_branches@) == names_marked(
                    bs,
                    commit_index as int,
                    '<',
                    bs.len() as int,
                ) && names_view(d.merge_from_branches@) == names_marked(
                    bs,
                    commit_index as int,
                    '>',
                    bs.len() as int,
                ),
            }
        }),
{
    let ghost bs = branch_datas@;
    let ghost ci = commit_index as int;
    let mut owner: Option<usize> = None;
    let mut into: Vec<String> = Vec::new();
    let mut from: Vec<String> = Vec::new();
    let mut b: usize = 0;
    while b < branch_datas.len()
        invariant
            bs == branch_datas@,
            ci == commit_index as int,
            b <= branch_datas.len(),
            match owner {
                Some(x) => x < b && commit_owner(bs, ci, b as int) == x,
                None => commit_owner(bs, ci, b as int) == -1,
            },
            names_view(into@) == names_marked(bs, ci, '<', b as int),
            names_view(from@) == names_marked(bs, ci, '>', b as int),
        decreases branch_datas.len() - b,
    {
        let line = &branch_datas[b].commit_line;
        let sym = if commit_index < line.len() {
            line[commit_index]
        } else {
            ' '
        };
        assert(bs[b as int].commit_line@ == line@);
        assert(sym == symbol(bs, b as int, ci));
        if is_alphanumeric(sym) {
            owner = Some(b);
        }
        let ghost in0 = names_view(into@);
        let ghost fr0 = names_view(from@);
        if sym == '<' {
            into.push(branch_datas[b].name.clone());
        }
        if sym == '>' {
            from.push(branch_datas[b].name.clone());
        }
        assert(names_view(into@) =~= names_marked(bs, ci, '<', b + 1));
        assert(names_view(from@) =~= names_marked(bs, ci, '>', b + 1));
        b += 1;
    }
    match owner {
        Some(o) => {
            let line = &branch_datas[o].commit_line;
            let sym = if commit_index < line.len() {
                line[commit_index]
            } else {
                ' '
            };
            assert(bs[o as int].commit_line@ == line@);
            Some(
                CommitData {
                    commit_id: char_string(sym),
                    branch: branch_datas[o].name.clone(),
                    merge_into_branches: into,
                    merge_from_branches: from,
                },
            )
        },
        None => None,
    }
}

} // verus!
