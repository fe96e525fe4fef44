use vstd::prelude::*;

verus! {

/// A branch of the compact notation: its commits in time order, and where it points.
pub struct Branch {
    pub name: String,
    pub style: String,
    /// The branches are ordered by priority.
    pub priority: i32,
    /// The commits of this branch, in time order.
    pub commits: Vec<String>,
    /// The commit the branch is pointed at, where set.
    pub current_commit: Option<String>,
}

/// Mathematical view of a compact-notation branch.
pub struct TrackV {
    pub name: Seq<char>,
    pub priority: int,
    pub commits: Seq<Seq<char>>,
    pub current: Option<Seq<char>>,
}

impl View for Branch {
    type V = TrackV;

    open spec fn view(&self) -> TrackV {
        TrackV {
            name: self.name@,
            priority: self.priority as int,
            commits: crate::model::repo::strs(self.commits@),
            current: crate::model::repo::opt_str(self.current_commit),
        }
    }
}

impl Branch {
    /// A branch without commits.
    pub fn new(name: String, style: String, priority: i32) -> (r: Branch)
        ensures
            r@ == (TrackV { name: name@, priority: priority as int, commits: Seq::empty(), current: None }),
            r.style@ == style@,
    {
        let r = Branch { name, style, priority, commits: Vec::new(), current_commit: None };
        assert(r@.commits =~= Seq::empty());
        r
    }

    /// Where the branch points: the commit it is set to, else its last commit.
    pub fn current_commit(&self) -> (r: Option<&String>)
        ensures
            crate::model::repo::opt_ref(r) == match self@.current {
                Some(c) => Some(c),
                None => if self@.commits.len() > 0 {
                    Some(self@.commits.last())
                } else {
                    None
                },
            },
    {
        match &self.current_commit {
            Some(c) => Some(c),
            None => self.commits.last(),
        }
    }
}

} // verus!
