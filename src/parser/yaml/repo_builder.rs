use crate::model::repo::{empty_repo, opt_str, spec_checkout, spec_merge, strs, RepoV, Repository};
use crate::parser::yaml::file::Command;
use vstd::prelude::*;

verus! {

/// The effect of one command of a history file.
pub open spec fn command_step(r: RepoV, c: Command) -> RepoV {
    match c {
        Command::Commit(cc) => spec_merge(r, cc.name@, Seq::empty()),
        Command::SimpleCommit(name) => spec_merge(r, name@, Seq::empty()),
        Command::Branch(b) => spec_checkout(r, b.name@, opt_str(b.at_commit)),
        Command::Merge(m) => spec_merge(r, m.commit_name@, strs(m.branches@)),
    }
}

/// The store after the first `m` commands.
pub open spec fn commands_spec(cs: Seq<Command>, m: int) -> RepoV
    decreases m,
{
    if m <= 0 {
        empty_repo()
    } else {
        command_step(commands_spec(cs, m - 1), cs[m - 1])
    }
}

/// Builds a store from the commands of a history file, in order: a branch command checks
/// the branch out (creating it at its commit where one is given).
pub fn build_repo(commands: &Vec<Command>) -> (r: Repository)
    ensures
        r.inv(),
        r@ == commands_spec(commands@, commands.len() as int),
{
    let mut repo = Repository::default();
    let mut k: usize = 0;
    while k < commands.len()
        invariant
            k <= commands.len(),
            repo.inv(),
            repo@ == commands_spec(commands@, k as int),
        decreases commands.len() - k,
    {
        match &commands[k] {
            Command::Commit(c) => {
                repo.commit(c.name.clone());
            },
            Command::SimpleCommit(name) => {
                repo.commit(name.clone());
            },
            Command::Branch(b) => {
                match &b.at_commit {
                    Some(commit) => {
                        repo.checkout_branch_at_commit(b.name.as_str(), commit.as_str());
                    },
                    None => {
                        repo.checkout_branch(b.name.as_str());
                    },
                }
            },
            Command::Merge(m) => {
                repo.merge(m.commit_name.clone(), m.branches.clone());
            },
        }
        k += 1;
    }
    repo
}

} // verus!
