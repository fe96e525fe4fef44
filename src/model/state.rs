use crate::model::repo::{
    opt_ref, repo_inv, spec_add_branch, spec_apply, spec_branch_head, spec_checkout, spec_current_commit,
    spec_merge, strs, RepoV, Repository,
};
use crate::parser::instructions::instruction::Instruction;
use vstd::prelude::*;

pub use crate::model::repo::{Branch, Commit};

verus! {

/// A history store driven by instructions, with the active branch kept as state.
pub struct ParseState {
    pub repo: Repository,
}

impl View for ParseState {
    type V = RepoV;

    open spec fn view(&self) -> RepoV {
        self.repo@
    }
}

impl ParseState {
    pub open spec fn inv(&self) -> bool {
        repo_inv(self@)
    }

    /// An empty store.
    pub fn new() -> (r: ParseState)
        ensures
            r@ == crate::model::repo::empty_repo(),
            r.inv(),
    {
        ParseState { repo: Repository::default() }
    }

    /// Applies one instruction.
    pub fn apply_instruction(&mut self, i: &Instruction)
        requires
            old(self).inv(),
        ensures
            final(self).inv(),
            final(self)@ == spec_apply(old(self)@, i@),
    {
        self.repo.apply_instruction(i);
    }

    /// The commit that the branch `branch` points at.
    pub fn branch_head(&self, branch: &String) -> (r: Option<&String>)
        requires
            self.inv(),
        ensures
            opt_ref(r) == spec_branch_head(self@, branch@),
    {
        self.repo.branch_head(branch.as_str())
    }

    /// The commit that the active branch points at.
    pub fn current_commit(&self) -> (r: Option<&String>)
        requires
            self.inv(),
        ensures
            opt_ref(r) == spec_current_commit(self@),
    {
        self.repo.current_commit()
    }

    /// Creates the branch `name` at the active commit; the first branch becomes active.
    pub fn add_branch(&mut self, name: &String)
        requires
            old(self).inv(),
        ensures
            final(self).inv(),
            final(self)@ == spec_add_branch(old(self)@, name@, None),
    {
        self.repo.add_branch(name.clone(), None);
    }

    /// Makes the branch `name` active, creating it where it does not exist.
    pub fn switch_branch(&mut self, name: &String)
        requires
            old(self).inv(),
        ensures
            final(self).inv(),
            final(self)@ == spec_checkout(old(self)@, name@, None),
    {
        self.repo.checkout_branch(name.as_str());
    }

    /// Adds a commit to the active branch.
    pub fn commit(&mut self, id: &String)
        requires
            old(self).inv(),
        ensures
            final(self).inv(),
            final(self)@ == spec_merge(old(self)@, id@, Seq::empty()),
    {
        self.repo.commit(id.clone());
    }

    /// Adds a commit to the active branch with the sources as further parents.
    pub fn merge(&mut self, id: &String, add_branches: Vec<String>)
        requires
            old(self).inv(),
        ensures
            final(self).inv(),
            final(self)@ == spec_merge(old(self)@, id@, strs(add_branches@)),
    {
        self.repo.merge(id.clone(), add_branches);
    }
}

} // verus!
