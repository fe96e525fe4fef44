use vstd::prelude::*;

verus! {

/// A commit given by name.
pub struct CommitCommand {
    pub name: String,
}

/// A checkout of a branch, created at `at_commit` where given.
pub struct BranchCommand {
    pub name: String,
    pub at_commit: Option<String>,
}

/// A merge of branches into a new commit.
pub struct MergeCommand {
    pub commit_name: String,
    pub branches: Vec<String>,
}

/// One command of a history file.
pub enum Command {
    Commit(CommitCommand),
    SimpleCommit(String),
    Branch(BranchCommand),
    Merge(MergeCommand),
}

/// A history file: its commands, in order.
pub struct YamlFile {
    pub commands: Vec<Command>,
}

} // verus!
