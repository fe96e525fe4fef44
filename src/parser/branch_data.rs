use crate::model::repo::strs;
use crate::parser::instructions::matching::{trim, trimmed};
use crate::parser::instructions::reader::{lines_of, split_lines};
use vstd::prelude::*;
use vstd::string::*;

verus! {

/// One line of the compact notation, `name: commits`.
pub struct BranchData {
    /// The branch name.
    pub name: String,
    /// The symbols after the colon, one per time step.
    pub commit_line: Vec<char>,
    /// Commits that the next commit on this branch merges in.
    pub merge_into_commits: Vec<String>,
}

/// Position `p` holds the first colon of `s`.
pub open spec fn first_colon(s: Seq<char>, p: int) -> bool {
    0 <= p < s.len() && s[p] == ':' && forall|q: int| 0 <= q < p ==> s[q] != ':'
}

pub open spec fn colon_count(s: Seq<char>) -> nat
    decreases s.len(),
{
    if s.len() == 0 {
        0
    } else {
        colon_count(s.drop_last()) + if s.last() == ':' {
            1nat
        } else {
            0nat
        }
    }
}

/// A line with exactly one colon gives the trimmed name before it and the symbols after it;
/// any other line is refused with a message that quotes it.
pub open spec fn branch_line(s: Seq<char>) -> Result<(Seq<char>, Seq<char>), Seq<char>> {
    if colon_count(s) == 1 {
        let p = choose|p: int| first_colon(s, p);
        Ok((trimmed(s.take(p)), s.skip(p + 1)))
    } else {
        Err("Incorrect number of : in line "@ + s)
    }
}

/// The branch lines of a text, up to the first refused line.
pub open spec fn branch_lines(ls: Seq<Seq<char>>, m: int) -> Result<Seq<(Seq<char>, Seq<char>)>, Seq<char>>
    decreases m,
{
    if m <= 0 {
        Ok(Seq::empty())
    } else {
        match branch_lines(ls, m - 1) {
            Err(e) => Err(e),
            Ok(done) => match branch_line(ls[m - 1]) {
                Err(e) => Err(e),
                Ok(b) => Ok(done.push(b)),
            },
        }
    }
}

pub open spec fn data_view(v: Seq<BranchData>) -> Seq<(Seq<char>, Seq<char>)> {
    v.map_values(|b: BranchData| (b.name@, b.commit_line@))
}

proof fn lemma_branch_lines_err(ls: Seq<Seq<char>>, k: int, m: int)
    requires
        k <= m,
        branch_lines(ls, k) is Err,
    ensures
        branch_lines(ls, m) == branch_lines(ls, k),
    decreases m - k,
{
    if k < m {
        lemma_branch_lines_err(ls, k, m - 1);
    }
}

/// Reads one line: its colons, then the name and symbols around the only one.
fn branch_of_line(line: &str) -> (r: Result<BranchData, String>)
    ensures
        match r {
            Ok(b) => branch_line(line@) == Ok::<(Seq<char>, Seq<char>), Seq<char>>((b.name@, b.commit_line@))
                && b.merge_into_commits@.len() == 0,
            Err(e) => branch_line(line@) == Err::<(Seq<char>, Seq<char>), Seq<char>>(e@),
        },
{
    let n = line.unicode_len();
    let mut count: usize = 0;
    let mut first: usize = n;
    let mut i: usize = 0;
    while i < n
        invariant
            n == line@.len(),
            i <= n,
            count == colon_count(line@.take(i as int)),
            count <= i,
            count == 0 ==> first == n && forall|q: int| 0 <= q < i ==> line@[q] != ':',
            count > 0 ==> first_colon(line@, first as int) && first < i,
        decreases n - i,
    {
        assert(line@.take(i + 1).drop_last() =~= line@.take(i as int));
        if line.get_char(i) == ':' {
            if count == 0 {
                first = i;
            }
            count += 1;
        }
        i += 1;
    }
    assert(line@.take(n as int) =~= line@);
    if count != 1 {
        let mut msg = String::from_str("Incorrect number of : in line ");
        msg.append(line);
        return Err(msg);
    }
    proof {
        let p = choose|p: int| first_colon(line@, p);
        assert(p == first);
    }
    let name = trim(line.substring_char(0, first));
    let mut commit_line: Vec<char> = Vec::new();
    let mut j: usize = first + 1;
    while j < n
        invariant
            n == line@.len(),
            first < n,
            first + 1 <= j <= n,
            commit_line@ == line@.subrange(first + 1, j as int),
        decreases n - j,
    {
        commit_line.push(line.get_char(j));
        assert(commit_line@ =~= line@.subrange(first + 1, j + 1));
        j += 1;
    }
    assert(line@.subrange(first + 1, n as int) =~= line@.skip(first + 1));
    assert(line@.take(first as int) =~= line@.subrange(0, first as int));
    Ok(BranchData { name, commit_line, merge_into_commits: Vec::new() })
}

/// Reads the compact notation: one `name: commits` line per branch.
pub fn build_branch_data(input: String) -> (r: Result<Vec<BranchData>, String>)
    ensures
        match r {
            Ok(v) => branch_lines(split_lines(input@), split_lines(input@).len() as int) == Ok::<
                Seq<(Seq<char>, Seq<char>)>,
                Seq<char>,
            >(data_view(v@)),
            Err(e) => branch_lines(split_lines(input@), split_lines(input@).len() as int) == Err::<
                Seq<(Seq<char>, Seq<char>)>,
                Seq<char>,
            >(e@),
        },
{
    let lines = lines_of(input.as_str());
    let ghost ls = split_lines(input@);
    let mut datas: Vec<BranchData> = Vec::new();
    let mut k: usize = 0;
    assert(data_view(datas@) =~= Seq::empty());
    while k < lines.len()
        invariant
            strs(lines@) == ls,
            ls == split_lines(input@),
            k <= lines.len(),
            branch_lines(ls, k as int) == Ok::<Seq<(Seq<char>, Seq<char>)>, Seq<char>>(data_view(datas@)),
        decreases lines.len() - k,
    {
        assert(ls[k as int] == lines@[k as int]@);
        match branch_of_line(lines[k].as_str()) {
            Ok(b) => {
                let ghost before = data_view(datas@);
                let ghost bv = (b.name@, b.commit_line@);
                datas.push(b);
                assert(data_view(datas@) =~= before.push(bv));
            },
            Err(e) => {
                proof {
                    lemma_branch_lines_err(ls, k + 1, ls.len() as int);
                }
                return Err(e);
            },
        }
        k += 1;
    }
    Ok(datas)
}

} // verus!
