use crate::parser::instructions::instruction::{InstrV, Instruction};
use vstd::prelude::*;
use vstd::string::*;

verus! {

/// A branch: its name, its rank in creation order, and the commit it points at.
pub struct Branch {
    pub name: String,
    pub style: String,
    pub priority: usize,
    pub current_commit: Option<String>,
}

/// A commit: its id, its creation time, the branch it was made on and its parents.
/// The first parent is the previous head of the branch it was made on.
pub struct Commit {
    pub id: String,
    pub time: usize,
    pub branch: String,
    pub parents: Vec<String>,
}

/// The history store: branches, commits, and the active branch.
pub struct Repository {
    pub branches: Vec<Branch>,
    pub head: Option<String>,
    pub commits: Vec<Commit>,
}

/// Mathematical view of a branch.
pub struct BranchV {
    pub name: Seq<char>,
    pub priority: nat,
    pub head: Option<Seq<char>>,
}

/// Mathematical view of a commit.
pub struct CommitV {
    pub id: Seq<char>,
    pub time: nat,
    pub branch: Seq<char>,
    pub parents: Seq<Seq<char>>,
}

/// Mathematical view of the history store; commits are listed in the order they were stored.
pub struct RepoV {
    pub branches: Seq<BranchV>,
    pub head: Option<Seq<char>>,
    pub commits: Seq<CommitV>,
}

pub open spec fn opt_str(o: Option<String>) -> Option<Seq<char>> {
    match o {
        Some(s) => Some(s@),
        None => None,
    }
}

pub open spec fn opt_ref(o: Option<&String>) -> Option<Seq<char>> {
    match o {
        Some(s) => Some(s@),
        None => None,
    }
}

pub open spec fn strs(v: Seq<String>) -> Seq<Seq<char>> {
    v.map_values(|s: String| s@)
}

impl View for Branch {
    type V = BranchV;

    open spec fn view(&self) -> BranchV {
        BranchV { name: self.name@, priority: self.priority as nat, head: opt_str(self.current_commit) }
    }
}

impl View for Commit {
    type V = CommitV;

    open spec fn view(&self) -> CommitV {
        CommitV {
            id: self.id@,
            time: self.time as nat,
            branch: self.branch@,
            parents: strs(self.parents@),
        }
    }
}

impl View for Repository {
    type V = RepoV;

    open spec fn view(&self) -> RepoV {
        RepoV {
            branches: self.branches@.map_values(|b: Branch| b@),
            head: opt_str(self.head),
            commits: self.commits@.map_values(|c: Commit| c@),
        }
    }
}

// ---------------------------------------------------------------------------
// Lookups
// ---------------------------------------------------------------------------

/// Position of the branch called `name`, or -1.
pub open spec fn branch_index(bs: Seq<BranchV>, name: Seq<char>) -> int {
    if exists|i: int| 0 <= i < bs.len() && bs[i].name == name {
        choose|i: int| 0 <= i < bs.len() && bs[i].name == name
    } else {
        -1
    }
}

/// Position of the commit with id `id`, or -1.
pub open spec fn commit_index(cs: Seq<CommitV>, id: Seq<char>) -> int {
    if exists|i: int| 0 <= i < cs.len() && cs[i].id == id {
        choose|i: int| 0 <= i < cs.len() && cs[i].id == id
    } else {
        -1
    }
}

pub open spec fn names_distinct(bs: Seq<BranchV>) -> bool {
    forall|i: int, j: int| 0 <= i < bs.len() && 0 <= j < bs.len() && i != j ==> bs[i].name != bs[j].name
}

pub open spec fn ids_distinct(cs: Seq<CommitV>) -> bool {
    forall|i: int, j: int| 0 <= i < cs.len() && 0 <= j < cs.len() && i != j ==> cs[i].id != cs[j].id
}

pub proof fn lemma_branch_index(bs: Seq<BranchV>, name: Seq<char>)
    ensures
        -1 <= branch_index(bs, name) < bs.len(),
        branch_index(bs, name) >= 0 ==> bs[branch_index(bs, name)].name == name,
        branch_index(bs, name) == -1 <==> forall|j: int| 0 <= j < bs.len() ==> bs[j].name != name,
{
}

pub proof fn lemma_branch_index_at(bs: Seq<BranchV>, name: Seq<char>, i: int)
    requires
        names_distinct(bs),
        0 <= i < bs.len(),
        bs[i].name == name,
    ensures
        branch_index(bs, name) == i,
{
}

pub proof fn lemma_commit_index(cs: Seq<CommitV>, id: Seq<char>)
    ensures
        -1 <= commit_index(cs, id) < cs.len(),
        commit_index(cs, id) >= 0 ==> cs[commit_index(cs, id)].id == id,
        commit_index(cs, id) == -1 <==> forall|j: int| 0 <= j < cs.len() ==> cs[j].id != id,
{
}

pub proof fn lemma_commit_index_at(cs: Seq<CommitV>, id: Seq<char>, i: int)
    requires
        ids_distinct(cs),
        0 <= i < cs.len(),
        cs[i].id == id,
    ensures
        commit_index(cs, id) == i,
{
}

// ---------------------------------------------------------------------------
// The state machine, stated over views
// ---------------------------------------------------------------------------

pub open spec fn empty_repo() -> RepoV {
    RepoV { branches: Seq::empty(), head: None, commits: Seq::empty() }
}

/// The commit that branch `name` points at.
pub open spec fn spec_branch_head(r: RepoV, name: Seq<char>) -> Option<Seq<char>> {
    let i = branch_index(r.branches, name);
    if i >= 0 {
        r.branches[i].head
    } else {
        None
    }
}

/// The commit that the active branch points at.
pub open spec fn spec_current_commit(r: RepoV) -> Option<Seq<char>> {
    match r.head {
        Some(b) => spec_branch_head(r, b),
        None => None,
    }
}

/// Where a new branch points: the given commit, else the head of the given branch,
/// and without a reference the active commit.
pub open spec fn branch_start(r: RepoV, reference: Option<Seq<char>>) -> Option<Seq<char>> {
    match reference {
        Some(x) => if commit_index(r.commits, x) >= 0 {
            Some(x)
        } else {
            spec_branch_head(r, x)
        },
        None => spec_current_commit(r),
    }
}

/// Creating a branch (replacing one of the same name); the first branch becomes active.
pub open spec fn spec_add_branch(r: RepoV, name: Seq<char>, reference: Option<Seq<char>>) -> RepoV {
    let b = BranchV { name, priority: r.branches.len() as nat, head: branch_start(r, reference) };
    let i = branch_index(r.branches, name);
    RepoV {
        branches: if i >= 0 {
            r.branches.update(i, b)
        } else {
            r.branches.push(b)
        },
        head: if r.head is Some {
            r.head
        } else {
            Some(name)
        },
        commits: r.commits,
    }
}

/// Making a branch active, creating it first (at `reference`) where it does not exist.
pub open spec fn spec_checkout(r: RepoV, name: Seq<char>, reference: Option<Seq<char>>) -> RepoV {
    let r1 = if branch_index(r.branches, name) >= 0 {
        r
    } else {
        spec_add_branch(r, name, reference)
    };
    RepoV { branches: r1.branches, head: Some(name), commits: r1.commits }
}

/// What one merge source contributes: the head of the branch of that name, then the
/// commit of that id, each where it exists.
pub open spec fn resolve_source(r: RepoV, s: Seq<char>) -> Seq<Seq<char>> {
    (match spec_branch_head(r, s) {
        Some(h) => seq![h],
        None => Seq::empty(),
    }) + (if commit_index(r.commits, s) >= 0 {
        seq![s]
    } else {
        Seq::empty()
    })
}

pub open spec fn resolve_sources(r: RepoV, ss: Seq<Seq<char>>) -> Seq<Seq<char>>
    decreases ss.len(),
{
    if ss.len() == 0 {
        Seq::empty()
    } else {
        resolve_sources(r, ss.drop_last()) + resolve_source(r, ss.last())
    }
}

/// Parents of a merge: the active commit first, then the sources in the order given.
pub open spec fn merge_parents(r: RepoV, ss: Seq<Seq<char>>) -> Seq<Seq<char>> {
    (match spec_current_commit(r) {
        Some(h) => seq![h],
        None => Seq::empty(),
    }) + resolve_sources(r, ss)
}

/// The store with an active branch: "main" is checked out where none is active.
pub open spec fn with_active(r: RepoV) -> RepoV {
    if r.head is None {
        spec_checkout(r, "main"@, None)
    } else {
        r
    }
}

/// A merge (a commit when `ss` is empty): the new commit gets the next time, belongs to
/// the active branch, and becomes that branch's head. A commit of the same id is replaced.
pub open spec fn spec_merge(r: RepoV, id: Seq<char>, ss: Seq<Seq<char>>) -> RepoV {
    let r1 = with_active(r);
    let b = r1.head.unwrap();
    let c = CommitV { id, time: r1.commits.len() as nat, branch: b, parents: merge_parents(r1, ss) };
    let ci = commit_index(r1.commits, id);
    let bi = branch_index(r1.branches, b);
    RepoV {
        branches: r1.branches.update(
            bi,
            BranchV { name: r1.branches[bi].name, priority: r1.branches[bi].priority, head: Some(id) },
        ),
        head: r1.head,
        commits: if ci >= 0 {
            r1.commits.update(ci, c)
        } else {
            r1.commits.push(c)
        },
    }
}

/// The effect of one instruction.
pub open spec fn spec_apply(r: RepoV, i: InstrV) -> RepoV {
    match i {
        InstrV::Branch(name, _) => spec_add_branch(r, name, None),
        InstrV::Commit(id) => spec_merge(r, id, Seq::empty()),
        InstrV::Checkout(name) => spec_checkout(r, name, None),
        InstrV::Merge(id, srcs) => spec_merge(r, id, srcs),
    }
}

/// The effect of a sequence of instructions, applied in order.
pub open spec fn spec_apply_all(r: RepoV, s: Seq<InstrV>) -> RepoV
    decreases s.len(),
{
    if s.len() == 0 {
        r
    } else {
        spec_apply(spec_apply_all(r, s.drop_last()), s.last())
    }
}

/// The invariant of the store: names and ids are unique, the active branch exists, and
/// every head, parent and owning branch that is named exists.
pub open spec fn repo_inv(r: RepoV) -> bool {
    &&& names_distinct(r.branches)
    &&& ids_distinct(r.commits)
    &&& (r.head is Some ==> branch_index(r.branches, r.head.unwrap()) >= 0)
    &&& forall|i: int|
        0 <= i < r.branches.len() && (#[trigger] r.branches[i]).head is Some ==> commit_index(
            r.commits,
            r.branches[i].head.unwrap(),
        ) >= 0
    &&& forall|i: int, k: int|
        0 <= i < r.commits.len() && 0 <= k < r.commits[i].parents.len() ==> commit_index(
            r.commits,
            #[trigger] r.commits[i].parents[k],
        ) >= 0
    &&& forall|i: int|
        0 <= i < r.commits.len() ==> branch_index(r.branches, (#[trigger] r.commits[i]).branch) >= 0
}

/// A set of ids that holds, with each stored commit in it, all of that commit's parents.
pub open spec fn parent_closed(r: RepoV, t: Set<Seq<char>>) -> bool {
    forall|i: int, k: int|
        0 <= i < r.commits.len() && t.contains(r.commits[i].id) && 0 <= k < r.commits[i].parents.len()
            ==> t.contains(#[trigger] r.commits[i].parents[k])
}

/// The ancestry of `h` (itself included) is exactly the ids in `s`: they hold `h`, are closed
/// under parents, and lie in every parent-closed set that holds `h`.
pub open spec fn is_ancestry(r: RepoV, h: Seq<char>, s: Seq<Seq<char>>) -> bool {
    &&& s.contains(h)
    &&& parent_closed(r, s.to_set())
    &&& forall|t: Set<Seq<char>>| t.contains(h) && parent_closed(r, t) ==> s.to_set().subset_of(t)
}

pub open spec fn unvisited(v: Seq<bool>) -> nat
    decreases v.len(),
{
    if v.len() == 0 {
        0
    } else {
        unvisited(v.drop_last()) + if v.last() {
            0nat
        } else {
            1nat
        }
    }
}

pub proof fn lemma_unvisited_mark(v: Seq<bool>, i: int)
    requires
        0 <= i < v.len(),
        !v[i],
    ensures
        unvisited(v.update(i, true)) + 1 == unvisited(v),
    decreases v.len(),
{
    let w = v.update(i, true);
    if i == v.len() - 1 {
        assert(w.drop_last() =~= v.drop_last());
    } else {
        assert(w.drop_last() =~= v.drop_last().update(i, true));
        lemma_unvisited_mark(v.drop_last(), i);
    }
}

/// A store that the lane builder can read: each commit's time is its position, and each
/// parent is stored before its child.
pub open spec fn dense(r: RepoV) -> bool {
    &&& forall|i: int| 0 <= i < r.commits.len() ==> (#[trigger] r.commits[i]).time == i
    &&& forall|i: int, k: int|
        0 <= i < r.commits.len() && 0 <= k < r.commits[i].parents.len() ==> commit_index(
            r.commits,
            #[trigger] r.commits[i].parents[k],
        ) < i
}

pub open spec fn well_formed(r: RepoV) -> bool {
    repo_inv(r) && dense(r)
}

impl Repository {
    /// The store's invariant, on its view.
    pub open spec fn inv(&self) -> bool {
        repo_inv(self@)
    }

    /// An empty store: no branches, no commits, nothing active.
    pub fn default() -> (r: Repository)
        ensures
            r@ == empty_repo(),
            r.inv(),
    {
        let r = Repository { branches: Vec::new(), head: None, commits: Vec::new() };
        assert(r@.branches =~= Seq::empty());
        assert(r@.commits =~= Seq::empty());
        r
    }

    /// The commits, in the order they are stored.
    pub fn commit_iter(&self) -> (r: std::slice::Iter<'_, Commit>)
        ensures
            vstd::std_specs::slice::into_iter_elts(r) == self.commits@,
    {
        self.commits.iter()
    }

    /// The branches, in the order they are stored.
    pub fn branch_iter(&self) -> (r: std::slice::Iter<'_, Branch>)
        ensures
            vstd::std_specs::slice::into_iter_elts(r) == self.branches@,
    {
        self.branches.iter()
    }

    pub(crate) fn find_branch(&self, name: &String) -> (r: Option<usize>)
        requires
            names_distinct(self@.branches),
        ensures
            match r {
                Some(i) => i < self.branches.len() && branch_index(self@.branches, name@) == i,
                None => branch_index(self@.branches, name@) == -1,
            },
    {
        let mut i: usize = 0;
        while i < self.branches.len()
            invariant
                i <= self.branches.len(),
                names_distinct(self@.branches),
                forall|j: int| 0 <= j < i ==> self@.branches[j].name != name@,
            decreases self.branches.len() - i,
        {
            if self.branches[i].name == *name {
                proof {
                    lemma_branch_index_at(self@.branches, name@, i as int);
                }
                return Some(i);
            }
            i += 1;
        }
        proof {
            lemma_branch_index(self@.branches, name@);
        }
        None
    }

    pub(crate) fn find_commit(&self, id: &String) -> (r: Option<usize>)
        requires
            ids_distinct(self@.commits),
        ensures
            match r {
                Some(i) => i < self.commits.len() && commit_index(self@.commits, id@) == i,
                None => commit_index(self@.commits, id@) == -1,
            },
    {
        let mut i: usize = 0;
        while i < self.commits.len()
            invariant
                i <= self.commits.len(),
                ids_distinct(self@.commits),
                forall|j: int| 0 <= j < i ==> self@.commits[j].id != id@,
            decreases self.commits.len() - i,
        {
            if self.commits[i].id == *id {
                proof {
                    lemma_commit_index_at(self@.commits, id@, i as int);
                }
                return Some(i);
            }
            i += 1;
        }
        proof {
            lemma_commit_index(self@.commits, id@);
        }
        None
    }

    /// The commit that the branch `branch` points at, if that branch exists and has one.
    pub fn branch_head(&self, branch: &str) -> (r: Option<&String>)
        requires
            self.inv(),
        ensures
            opt_ref(r) == spec_branch_head(self@, branch@),
    {
        let name = String::from_str(branch);
        match self.find_branch(&name) {
            Some(i) => self.branches[i].current_commit.as_ref(),
            None => None,
        }
    }

    /// The commit that the active branch points at.
    pub fn current_commit(&self) -> (r: Option<&String>)
        requires
            self.inv(),
        ensures
            opt_ref(r) == spec_current_commit(self@),
    {
        match &self.head {
            Some(b) => self.branch_head(b.as_str()),
            None => None,
        }
    }

    /// The ids of the commits that the branch `branch` contains: its head and, transitively,
    /// the parents of each, each once, in the order they are stored. Empty where the branch
    /// does not exist or has no head.
    pub fn branch_commits(&self, branch: &str) -> (r: Vec<String>)
        requires
            self.inv(),
        ensures
            spec_branch_head(self@, branch@) is None ==> r@.len() == 0,
            spec_branch_head(self@, branch@) is Some ==> is_ancestry(
                self@,
                spec_branch_head(self@, branch@).unwrap(),
                strs(r@),
            ),
            strs(r@).no_duplicates(),
    {
        let ghost cs = self@.commits;
        let n = self.commits.len();
        let hid = match self.branch_head(branch) {
            Some(h) => h,
            None => {
                assert(strs(Seq::<String>::empty()) =~= Seq::empty());
                return Vec::new();
            },
        };
        let ghost h = hid@;
        proof {
            lemma_branch_index(self@.branches, branch@);
            lemma_commit_index(cs, h);
        }
        let hi = match self.find_commit(hid) {
            Some(i) => i,
            None => {
                return Vec::new();
            },
        };
        let mut visited: Vec<bool> = vec![false; n];
        let mut stack: Vec<usize> = Vec::new();
        proof {
            lemma_unvisited_mark(visited@, hi as int);
        }
        visited.set(hi, true);
        stack.push(hi);
        assert(stack@[0] == hi);
        assert forall|j: int| 0 <= j < n && visited[j] implies j == hi as int by {}
        while stack.len() > 0
            invariant
                self.inv(),
                self@.commits == cs,
                n == cs.len(),
                visited.len() == n,
                hi < n,
                cs[hi as int].id == h,
                visited[hi as int],
                forall|q: int| 0 <= q < stack.len() ==> stack[q] < n && visited[stack[q] as int],
                forall|j: int|
                    0 <= j < n && visited[j] && !stack@.contains(j as usize) ==> forall|k: int|
                        0 <= k < cs[j].parents.len() ==> visited[commit_index(cs, #[trigger] cs[j].parents[k])],
                forall|t: Set<Seq<char>>|
                    t.contains(h) && parent_closed(self@, t) ==> forall|j: int|
                        0 <= j < n && #[trigger] visited[j] ==> t.contains(cs[j].id),
            decreases 2 * unvisited(visited@) + stack.len(),
        {
            let ghost m = 2 * unvisited(visited@) + stack.len() - 1;
            let ghost full = stack@;
            let i = stack.pop().unwrap();
            assert(full =~= stack@.push(i));
            assert forall|j: int| 0 <= j < n && j != i && !stack@.contains(j as usize) implies !full.contains(#[trigger] (j as usize)) by {
                if full.contains(j as usize) {
                    let q = choose|q: int| 0 <= q < full.len() && full[q] == j as usize;
                    if q < stack.len() {
                        assert(stack@[q] == j as usize);
                    }
                }
            }
            let ps = &self.commits[i].parents;
            let mut k: usize = 0;
            while k < ps.len()
                invariant
                    self.inv(),
                    self@.commits == cs,
                    n == cs.len(),
                    visited.len() == n,
                    hi < n,
                    cs[hi as int].id == h,
                    visited[hi as int],
                    i < n,
                    visited[i as int],
                    strs(ps@) == cs[i as int].parents,
                    k <= ps.len(),
                    2 * unvisited(visited@) + stack.len() <= m,
                    forall|q: int| 0 <= q < stack.len() ==> stack[q] < n && visited[stack[q] as int],
                    forall|kk: int| 0 <= kk < k ==> visited[commit_index(cs, #[trigger] cs[i as int].parents[kk])],
                    forall|j: int|
                        0 <= j < n && j != i && visited[j] && !stack@.contains(j as usize) ==> forall|k: int|
                            0 <= k < cs[j].parents.len() ==> visited[commit_index(cs, #[trigger] cs[j].parents[k])],
                    forall|t: Set<Seq<char>>|
                        t.contains(h) && parent_closed(self@, t) ==> forall|j: int|
                            0 <= j < n && #[trigger] visited[j] ==> t.contains(cs[j].id),
                decreases ps.len() - k,
            {
                let ghost pk = cs[i as int].parents[k as int];
                proof {
                    assert(ps@[k as int]@ == pk);
                    assert(commit_index(cs, pk) >= 0);
                    lemma_commit_index(cs, pk);
                }
                match self.find_commit(&ps[k]) {
                    Some(j) => {
                        if !visited[j] {
                            let ghost old_stack = stack@;
                            proof {
                                lemma_unvisited_mark(visited@, j as int);
                                assert forall|t: Set<Seq<char>>| t.contains(h) && parent_closed(self@, t) implies t.contains(cs[j as int].id) by {
                                    assert(t.contains(cs[i as int].id));
                                    assert(t.contains(cs[i as int].parents[k as int]));
                                }
                            }
                            visited.set(j, true);
                            stack.push(j);
                            assert forall|jj: int| 0 <= jj < n && jj != i && visited[jj] && !stack@.contains(jj as usize) implies !old_stack.contains(jj as usize) && jj != j by {
                                if old_stack.contains(jj as usize) {
                                    let q = choose|q: int| 0 <= q < old_stack.len() && old_stack[q] == jj as usize;
                                    assert(stack@[q] == jj as usize);
                                }
                                assert(stack@[stack.len() - 1] == j);
                            }
                        }
                    },
                    None => {},
                }
                k += 1;
            }
            assert forall|j: int|
                0 <= j < n && visited[j] && !stack@.contains(j as usize) implies forall|k: int|
                    0 <= k < cs[j].parents.len() ==> visited[commit_index(cs, #[trigger] cs[j].parents[k])] by {
            }
        }
        let mut r: Vec<String> = Vec::new();
        let mut j: usize = 0;
        let ghost src: Seq<int> = Seq::empty();
        while j < n
            invariant
                self@.commits == cs,
                ids_distinct(cs),
                n == cs.len(),
                visited.len() == n,
                j <= n,
                src.len() == r.len(),
                forall|q: int| 0 <= q < src.len() ==> 0 <= src[q] < j && visited[src[q]] && r[q]@ == cs[src[q]].id,
                forall|q1: int, q2: int| 0 <= q1 < q2 < src.len() ==> src[q1] < src[q2],
                forall|jj: int| 0 <= jj < j && visited[jj] ==> strs(r@).contains(cs[jj].id),
            decreases n - j,
        {
            if visited[j] {
                let ghost before = r@;
                r.push(self.commits[j].id.clone());
                proof {
                    src = src.push(j as int);
                    assert forall|jj: int| 0 <= jj < j + 1 && visited[jj] implies strs(r@).contains(cs[jj].id) by {
                        if jj == j {
                            assert(strs(r@)[r.len() - 1] == cs[jj].id);
                        } else {
                            let q = choose|q: int| 0 <= q < strs(before).len() && strs(before)[q] == cs[jj].id;
                            assert(strs(r@)[q] == cs[jj].id);
                        }
                    }
                }
            }
            j += 1;
        }
        proof {
            let sr = strs(r@);
            assert forall|x: Seq<char>| sr.contains(x) implies exists|jj: int| 0 <= jj < n && visited[jj] && cs[jj].id == x by {
                let q = choose|q: int| 0 <= q < sr.len() && sr[q] == x;
                assert(visited[src[q]] && cs[src[q]].id == x);
            }
            assert(sr.contains(h)) by {
                assert(visited[hi as int]);
            }
            assert forall|t: Set<Seq<char>>| t.contains(h) && parent_closed(self@, t) implies sr.to_set().subset_of(t) by {
                assert forall|x: Seq<char>| sr.to_set().contains(x) implies t.contains(x) by {
                    let jj = choose|jj: int| 0 <= jj < n && visited[jj] && cs[jj].id == x;
                }
            }
            assert forall|i: int, k: int|
                0 <= i < cs.len() && sr.to_set().contains(cs[i].id) && 0 <= k < cs[i].parents.len() implies sr.to_set().contains(#[trigger] cs[i].parents[k]) by {
                let jj = choose|jj: int| 0 <= jj < n && visited[jj] && cs[jj].id == cs[i].id;
                assert(jj == i);
                assert(!stack@.contains(i as usize));
                let p = cs[i].parents[k];
                lemma_commit_index(cs, p);
                assert(visited[commit_index(cs, p)]);
            }
            assert forall|q1: int, q2: int| 0 <= q1 < sr.len() && 0 <= q2 < sr.len() && q1 != q2 implies sr[q1] != sr[q2] by {
                if q1 < q2 {
                    assert(src[q1] < src[q2]);
                } else {
                    assert(src[q2] < src[q1]);
                }
            }
        }
        r
    }

    /// Whether each commit's time is its position and each parent is stored before its
    /// child: what laying out the history needs. It holds whenever no commit id was reused.
    pub fn is_well_formed(&self) -> (r: bool)
        requires
            self.inv(),
        ensures
            r == well_formed(self@),
    {
        let ghost cs = self@.commits;
        let mut i: usize = 0;
        while i < self.commits.len()
            invariant
                self.inv(),
                cs == self@.commits,
                i <= self.commits.len(),
                forall|j: int| 0 <= j < i ==> (#[trigger] cs[j]).time == j,
                forall|j: int, k: int|
                    0 <= j < i && 0 <= k < cs[j].parents.len() ==> commit_index(cs, #[trigger] cs[j].parents[k]) < j,
            decreases self.commits.len() - i,
        {
            if self.commits[i].time != i {
                assert(cs[i as int].time != i as int);
                return false;
            }
            let ps = &self.commits[i].parents;
            let mut k: usize = 0;
            while k < ps.len()
                invariant
                    self.inv(),
                    cs == self@.commits,
                    i < self.commits.len(),
                    strs(ps@) == cs[i as int].parents,
                    k <= ps.len(),
                    forall|kk: int| 0 <= kk < k ==> commit_index(cs, #[trigger] cs[i as int].parents[kk]) < i,
                decreases ps.len() - k,
            {
                assert(ps@[k as int]@ == cs[i as int].parents[k as int]);
                match self.find_commit(&ps[k]) {
                    Some(j) => {
                        if j >= i {
                            return false;
                        }
                    },
                    None => {
                        return false;
                    },
                }
                k += 1;
            }
            i += 1;
        }
        true
    }

    /// Creates the branch `name` (replacing one of that name) at `reference` when it is
    /// given: that commit, or else the head of that branch; without it, at the active commit.
    /// The first branch becomes active.
    pub fn add_branch(&mut self, name: String, reference: Option<&String>)
        requires
            old(self).inv(),
        ensures
            final(self).inv(),
            final(self)@ == spec_add_branch(old(self)@, name@, opt_ref(reference)),
    {
        let ghost r0 = self@;
        let commit: Option<String> = match reference {
            Some(x) => match self.find_commit(x) {
                Some(_) => Some(x.clone()),
                None => match self.branch_head(x.as_str()) {
                    Some(h) => Some(h.clone()),
                    None => None,
                },
            },
            None => match self.current_commit() {
                Some(h) => Some(h.clone()),
                None => None,
            },
        };
        assert(opt_str(commit) == branch_start(r0, opt_ref(reference)));
        proof {
            lemma_branch_index(r0.branches, name@);
            if commit is Some {
                if reference is Some && commit_index(r0.commits, reference.unwrap()@) >= 0 {
                } else {
                    let bn = if reference is Some { reference.unwrap()@ } else { r0.head.unwrap() };
                    lemma_branch_index(r0.branches, bn);
                }
            }
        }
        let b = Branch { name: name.clone(), style: String::new(), priority: self.branches.len(), current_commit: commit };
        match self.find_branch(&name) {
            Some(i) => {
                self.branches.set(i, b);
            },
            None => {
                self.branches.push(b);
            },
        }
        if self.head.is_none() {
            self.head = Some(name);
        }
        let ghost r1 = spec_add_branch(r0, name@, opt_ref(reference));
        assert(self@.branches =~= r1.branches);
        assert(self@.commits =~= r1.commits);
        proof {
            lemma_add_branch_inv(r0, name@, opt_ref(reference));
        }
    }

    /// Makes the branch `name` active, creating it at the active commit where it does not exist.
    pub fn checkout_branch(&mut self, name: &str)
        requires
            old(self).inv(),
        ensures
            final(self).inv(),
            final(self)@ == spec_checkout(old(self)@, name@, None),
    {
        let n = String::from_str(name);
        if self.find_branch(&n).is_none() {
            self.add_branch(n.clone(), None);
        }
        self.head = Some(n);
        proof {
            lemma_checkout_inv(old(self)@, name@, None);
        }
    }

    /// Makes the branch `name` active, creating it at `commit` where it does not exist.
    pub fn checkout_branch_at_commit(&mut self, name: &str, commit: &str)
        requires
            old(self).inv(),
        ensures
            final(self).inv(),
            final(self)@ == spec_checkout(old(self)@, name@, Some(commit@)),
    {
        let n = String::from_str(name);
        if self.find_branch(&n).is_none() {
            let c = String::from_str(commit);
            self.add_branch(n.clone(), Some(&c));
        }
        self.head = Some(n);
        proof {
            lemma_checkout_inv(old(self)@, name@, Some(commit@));
        }
    }

    /// Adds a commit to the active branch.
    pub fn commit(&mut self, id: String)
        requires
            old(self).inv(),
        ensures
            final(self).inv(),
            final(self)@ == spec_merge(old(self)@, id@, Seq::empty()),
    {
        let v: Vec<String> = Vec::new();
        assert(strs(v@) =~= Seq::empty());
        self.merge(id, v);
    }

    /// Adds a commit to the active branch (to "main" where none is active) whose parents are
    /// the branch's head, then for each source the head of the branch of that name and the
    /// commit of that id, where they exist. The branch then points at the new commit.
    pub fn merge(&mut self, id: String, add_branches: Vec<String>)
        requires
            old(self).inv(),
        ensures
            final(self).inv(),
            final(self)@ == spec_merge(old(self)@, id@, strs(add_branches@)),
    {
        if self.head.is_none() {
            self.checkout_branch("main");
        }
        let ghost r1 = self@;
        assert(r1 == with_active(old(self)@));
        let branch: String = match &self.head {
            Some(b) => b.clone(),
            None => {
                return ;
            },
        };
        let mut parents: Vec<String> = Vec::new();
        match self.current_commit() {
            Some(h) => {
                parents.push(h.clone());
            },
            None => {},
        }
        let ghost start = strs(parents@);
        assert(start =~= match spec_current_commit(r1) {
            Some(h) => seq![h],
            None => Seq::<Seq<char>>::empty(),
        });
        assert(strs(add_branches@).take(0) =~= Seq::<Seq<char>>::empty());
        let mut k: usize = 0;
        while k < add_branches.len()
            invariant
                self@ == r1,
                repo_inv(r1),
                k <= add_branches.len(),
                strs(parents@) == start + resolve_sources(r1, strs(add_branches@).take(k as int)),
            decreases add_branches.len() - k,
        {
            let ghost before = strs(parents@);
            let s = &add_branches[k];
            match self.branch_head(s.as_str()) {
                Some(h) => {
                    parents.push(h.clone());
                },
                None => {},
            }
            if self.find_commit(s).is_some() {
                parents.push(s.clone());
            }
            proof {
                let ss = strs(add_branches@);
                assert(ss.take(k + 1).drop_last() =~= ss.take(k as int));
                assert(ss.take(k + 1).last() == s@);
                assert(strs(parents@) =~= before + resolve_source(r1, s@));
            }
            k += 1;
        }
        proof {
            assert(strs(add_branches@).take(add_branches.len() as int) =~= strs(add_branches@));
        }
        assert(strs(parents@) == merge_parents(r1, strs(add_branches@)));
        let c = Commit { id: id.clone(), time: self.commits.len(), branch: branch.clone(), parents };
        assert(c@ == CommitV { id: id@, time: r1.commits.len() as nat, branch: r1.head.unwrap(), parents: merge_parents(r1, strs(add_branches@)) });
        match self.find_commit(&id) {
            Some(ci) => {
                self.commits.set(ci, c);
            },
            None => {
                self.commits.push(c);
            },
        }
        proof {
            lemma_branch_index(r1.branches, branch@);
        }
        match self.find_branch(&branch) {
            Some(bi) => {
                let nb = Branch {
                    name: self.branches[bi].name.clone(),
                    style: self.branches[bi].style.clone(),
                    priority: self.branches[bi].priority,
                    current_commit: Some(id),
                };
                self.branches.set(bi, nb);
            },
            None => {},
        }
        let ghost r2 = spec_merge(old(self)@, id@, strs(add_branches@));
        assert(self@.branches =~= r2.branches);
        assert(self@.commits =~= r2.commits);
        proof {
            lemma_merge_inv(old(self)@, id@, strs(add_branches@));
        }
    }

    /// Applies one instruction to the store.
    pub fn apply_instruction(&mut self, i: &Instruction)
        requires
            old(self).inv(),
        ensures
            final(self).inv(),
            final(self)@ == spec_apply(old(self)@, i@),
    {
        match i {
            Instruction::BRANCH(name, _) => {
                self.add_branch(name.clone(), None);
            },
            Instruction::COMMIT(id) => {
                self.commit(id.clone());
            },
            Instruction::CHECKOUT(branch) => {
                self.checkout_branch(branch.as_str());
            },
            Instruction::MERGE(commit_id, addition_parents) => {
                self.merge(commit_id.clone(), addition_parents.clone());
            },
        }
    }
}

/// Creating a branch keeps the store's invariant.
pub proof fn lemma_add_branch_inv(r: RepoV, name: Seq<char>, reference: Option<Seq<char>>)
    requires
        repo_inv(r),
    ensures
        repo_inv(spec_add_branch(r, name, reference)),
{
    let r1 = spec_add_branch(r, name, reference);
    lemma_branch_index(r.branches, name);
    let st = branch_start(r, reference);
    if st is Some {
        match reference {
            Some(x) => {
                if commit_index(r.commits, x) < 0 {
                    lemma_branch_index(r.branches, x);
                }
            },
            None => {
                lemma_branch_index(r.branches, r.head.unwrap());
            },
        }
    }
    assert forall|i: int| 0 <= i < r.commits.len() implies branch_index(r1.branches, (#[trigger] r1.commits[i]).branch) >= 0 by {
        lemma_branch_index(r.branches, r.commits[i].branch);
        let j = branch_index(r.branches, r.commits[i].branch);
        assert(r1.branches[j].name == r.commits[i].branch);
        lemma_branch_index(r1.branches, r.commits[i].branch);
    }
    if r.head is Some {
        lemma_branch_index(r.branches, r.head.unwrap());
        let j = branch_index(r.branches, r.head.unwrap());
        assert(r1.branches[j].name == r.head.unwrap());
        lemma_branch_index(r1.branches, r.head.unwrap());
    } else {
        lemma_branch_index(r1.branches, name);
        if branch_index(r.branches, name) < 0 {
            assert(r1.branches[r.branches.len() as int].name == name);
        } else {
            assert(r1.branches[branch_index(r.branches, name)].name == name);
        }
    }
}

/// Checking a branch out keeps the store's invariant.
pub proof fn lemma_checkout_inv(r: RepoV, name: Seq<char>, reference: Option<Seq<char>>)
    requires
        repo_inv(r),
    ensures
        repo_inv(spec_checkout(r, name, reference)),
        spec_checkout(r, name, reference).commits == r.commits,
{
    lemma_branch_index(r.branches, name);
    if branch_index(r.branches, name) < 0 {
        lemma_add_branch_inv(r, name, reference);
        let r1 = spec_add_branch(r, name, reference);
        assert(r1.branches[r.branches.len() as int].name == name);
        lemma_branch_index(r1.branches, name);
    }
}

/// Every parent that merge sources contribute is a stored commit.
pub proof fn lemma_resolve_sources_known(r: RepoV, ss: Seq<Seq<char>>)
    requires
        repo_inv(r),
    ensures
        forall|k: int|
            0 <= k < resolve_sources(r, ss).len() ==> commit_index(
                r.commits,
                #[trigger] resolve_sources(r, ss)[k],
            ) >= 0,
    decreases ss.len(),
{
    if ss.len() > 0 {
        lemma_resolve_sources_known(r, ss.drop_last());
        lemma_branch_index(r.branches, ss.last());
        let a = resolve_sources(r, ss.drop_last());
        let b = resolve_source(r, ss.last());
        assert forall|k: int| 0 <= k < resolve_sources(r, ss).len() implies commit_index(
            r.commits,
            #[trigger] resolve_sources(r, ss)[k],
        ) >= 0 by {
            if k >= a.len() {
                assert(resolve_sources(r, ss)[k] == b[k - a.len()]);
            } else {
                assert(resolve_sources(r, ss)[k] == a[k]);
            }
        }
    }
}

/// Commits that keep their ids at the old positions keep every id known.
pub proof fn lemma_commits_grow(cs: Seq<CommitV>, ns: Seq<CommitV>, x: Seq<char>)
    requires
        cs.len() <= ns.len(),
        forall|j: int| 0 <= j < cs.len() ==> ns[j].id == cs[j].id,
        commit_index(cs, x) >= 0,
    ensures
        commit_index(ns, x) >= 0,
{
    lemma_commit_index(cs, x);
    let j = commit_index(cs, x);
    assert(ns[j].id == x);
    lemma_commit_index(ns, x);
}

/// The store that a merge works on keeps the invariant and has an active branch.
pub proof fn lemma_with_active(r: RepoV)
    requires
        repo_inv(r),
    ensures
        repo_inv(with_active(r)),
        with_active(r).head is Some,
        with_active(r).commits == r.commits,
{
    if r.head is None {
        lemma_checkout_inv(r, "main"@, None);
    }
}

/// A merge keeps the store's invariant.
pub proof fn lemma_merge_inv(r: RepoV, id: Seq<char>, ss: Seq<Seq<char>>)
    requires
        repo_inv(r),
    ensures
        repo_inv(spec_merge(r, id, ss)),
{
    let r1 = with_active(r);
    lemma_with_active(r);
    let b = r1.head.unwrap();
    let bi = branch_index(r1.branches, b);
    lemma_branch_index(r1.branches, b);
    let ps = merge_parents(r1, ss);
    let n = spec_merge(r, id, ss);
    let ci = commit_index(r1.commits, id);
    lemma_commit_index(r1.commits, id);
    lemma_resolve_sources_known(r1, ss);
    if spec_current_commit(r1) is Some {
        lemma_branch_index(r1.branches, b);
    }
    assert forall|k: int| 0 <= k < ps.len() implies commit_index(r1.commits, #[trigger] ps[k]) >= 0 by {
        let h = if spec_current_commit(r1) is Some { 1int } else { 0int };
        if k >= h {
            assert(ps[k] == resolve_sources(r1, ss)[k - h]);
        }
    }
    assert forall|j: int| 0 <= j < r1.commits.len() implies n.commits[j].id == r1.commits[j].id by {}
    assert(n.commits[if ci >= 0 { ci } else { r1.commits.len() as int }].id == id);
    lemma_commit_index(n.commits, id);
    assert forall|x: Seq<char>| commit_index(r1.commits, x) >= 0 implies #[trigger] commit_index(n.commits, x) >= 0 by {
        lemma_commits_grow(r1.commits, n.commits, x);
    }
    assert forall|i: int| 0 <= i < n.branches.len() && (#[trigger] n.branches[i]).head is Some implies commit_index(
        n.commits,
        n.branches[i].head.unwrap(),
    ) >= 0 by {
        if i != bi {
            assert(commit_index(r1.commits, r1.branches[i].head.unwrap()) >= 0);
        }
    }
    assert forall|i: int, k: int| 0 <= i < n.commits.len() && 0 <= k < n.commits[i].parents.len() implies commit_index(
        n.commits,
        #[trigger] n.commits[i].parents[k],
    ) >= 0 by {
        if i == ci || i == r1.commits.len() {
            assert(n.commits[i].parents == ps);
            assert(commit_index(r1.commits, ps[k]) >= 0);
        } else {
            assert(commit_index(r1.commits, r1.commits[i].parents[k]) >= 0);
        }
    }
    assert forall|i: int| 0 <= i < n.commits.len() implies branch_index(n.branches, (#[trigger] n.commits[i]).branch) >= 0 by {
        let o = n.commits[i].branch;
        if i == ci || i == r1.commits.len() {
            assert(o == b);
        } else {
            assert(branch_index(r1.branches, o) >= 0);
        }
        lemma_branch_index(r1.branches, o);
        let j = branch_index(r1.branches, o);
        assert(n.branches[j].name == o);
        lemma_branch_index(n.branches, o);
    }
    if r1.head is Some {
        let j = bi;
        assert(n.branches[j].name == b);
        lemma_branch_index(n.branches, b);
    }
    assert(ids_distinct(n.commits));
}

} // verus!
