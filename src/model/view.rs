use crate::model::repo::{
    branch_index, commit_index, lemma_branch_index, lemma_commit_index, names_distinct, well_formed,
    CommitV, RepoV, Repository,
};
use vstd::prelude::*;
use vstd::view::View as _;

verus! {

/// A parent link of a laid-out commit, with its place among the lanes.
pub struct Parent {
    /// Position of the parent in `View::commits`.
    pub commit: usize,
    pub style: String,
    /// The parent is the first commit of its lane.
    pub ends_lane: bool,
    /// The child is the last commit of its lane.
    pub begins_lane: bool,
    /// Parent and child lie in the same lane.
    pub in_lane: bool,
}

/// A laid-out commit.
pub struct Commit {
    pub id: String,
    pub message: String,
    pub hash: String,
    pub parents: Vec<Parent>,
    pub style: String,
    pub time: usize,
}

/// A laid-out branch.
pub struct Branch {
    pub name: String,
    /// Position of the branch's head in `View::commits`.
    pub head: Option<usize>,
    pub style: String,
}

/// The commits that one branch owns along its first-parent line, oldest first.
pub struct Lane {
    pub branch_names: Vec<String>,
    /// Positions in `View::commits`.
    pub commits: Vec<usize>,
    pub col: usize,
}

/// A history laid out in lanes: commits in time order, one lane per branch (in the store's
/// branch order), and for each commit the branches whose head it is.
pub struct View {
    pub commits: Vec<Commit>,
    pub lanes: Vec<Lane>,
    pub branches: Vec<Branch>,
    pub commits_branch_heads: Vec<Vec<usize>>,
}

/// Position of the first parent of commit `i`, or -1.
pub open spec fn first_parent(cs: Seq<CommitV>, i: int) -> int {
    if cs[i].parents.len() > 0 {
        commit_index(cs, cs[i].parents[0])
    } else {
        -1
    }
}

/// The run of commits owned by `name` that ends at position `i` and follows first parents
/// back, oldest first; it stops before the first commit owned by another branch.
pub open spec fn run(cs: Seq<CommitV>, i: int, name: Seq<char>) -> Seq<int>
    decreases i + 1,
{
    if 0 <= i < cs.len() && cs[i].branch == name {
        let p = first_parent(cs, i);
        if -1 <= p < i {
            run(cs, p, name).push(i)
        } else {
            seq![i]
        }
    } else {
        Seq::empty()
    }
}

/// Position of the head of branch `b`, or -1.
pub open spec fn head_index(r: RepoV, b: int) -> int {
    match r.branches[b].head {
        Some(h) => commit_index(r.commits, h),
        None => -1,
    }
}

/// The lane of branch `b`.
pub open spec fn lane(r: RepoV, b: int) -> Seq<int> {
    run(r.commits, head_index(r, b), r.branches[b].name)
}

/// The lane that commit `i` lies in, or -1.
pub open spec fn lane_of(r: RepoV, i: int) -> int {
    let b = branch_index(r.branches, r.commits[i].branch);
    if b >= 0 && lane(r, b).contains(i) {
        b
    } else {
        -1
    }
}

/// Commit `i` is the first commit of some lane.
pub open spec fn starts_a_lane(r: RepoV, i: int) -> bool {
    exists|b: int| 0 <= b < r.branches.len() && lane(r, b).len() > 0 && lane(r, b)[0] == i
}

/// Commit `i` is the last commit of some lane.
pub open spec fn ends_a_lane(r: RepoV, i: int) -> bool {
    exists|b: int| 0 <= b < r.branches.len() && lane(r, b).len() > 0 && lane(r, b).last() == i
}

/// Commits `i` and `j` lie in one lane.
pub open spec fn same_lane(r: RepoV, i: int, j: int) -> bool {
    exists|b: int| 0 <= b < r.branches.len() && lane(r, b).contains(i) && lane(r, b).contains(j)
}

/// The branches, in order, whose head is commit `i`, among the first `m`.
pub open spec fn heads_at(r: RepoV, i: int, m: int) -> Seq<int>
    decreases m,
{
    if m <= 0 {
        Seq::empty()
    } else {
        heads_at(r, i, m - 1) + if head_index(r, m - 1) == i {
            seq![m - 1]
        } else {
            Seq::empty()
        }
    }
}

pub open spec fn usizes(v: Seq<usize>) -> Seq<int> {
    v.map_values(|x: usize| x as int)
}

/// `v` is the layout of the store `r`.
pub open spec fn lays_out(v: View, r: RepoV) -> bool {
    let cs = r.commits;
    &&& v.commits.len() == cs.len()
    &&& forall|i: int|
        #![trigger v.commits[i]]
        0 <= i < cs.len() ==> {
            let c = v.commits[i];
            &&& c.id@ == cs[i].id
            &&& c.time == i
            &&& c.parents.len() == cs[i].parents.len()
            &&& forall|k: int|
                #![trigger c.parents[k]]
                0 <= k < c.parents.len() ==> {
                    let p = c.parents[k];
                    &&& p.commit == commit_index(cs, cs[i].parents[k])
                    &&& p.ends_lane == starts_a_lane(r, p.commit as int)
                    &&& p.begins_lane == ends_a_lane(r, i)
                    &&& p.in_lane == same_lane(r, i, p.commit as int)
                }
        }
    &&& v.lanes.len() == r.branches.len()
    &&& forall|b: int|
        #![trigger v.lanes[b]]
        0 <= b < r.branches.len() ==> {
            &&& usizes(v.lanes[b].commits@) == lane(r, b)
            &&& v.lanes[b].col == r.branches[b].priority
            &&& v.lanes[b].branch_names@.len() == 1
            &&& v.lanes[b].branch_names@[0]@ == r.branches[b].name
        }
    &&& v.branches.len() == r.branches.len()
    &&& forall|b: int|
        #![trigger v.branches[b]]
        0 <= b < r.branches.len() ==> {
            &&& v.branches[b].name@ == r.branches[b].name
            &&& v.branches[b].head == if head_index(r, b) >= 0 {
                Some(head_index(r, b) as usize)
            } else {
                None
            }
        }
    &&& v.commits_branch_heads.len() == cs.len()
    &&& forall|i: int|
        0 <= i < cs.len() ==> usizes((#[trigger] v.commits_branch_heads[i])@) == heads_at(
            r,
            i,
            r.branches.len() as int,
        )
}

/// Every commit of a run is owned by the run's branch, and lies at or before its end.
pub proof fn lemma_run_owned(cs: Seq<CommitV>, i: int, name: Seq<char>)
    ensures
        forall|k: int|
            0 <= k < run(cs, i, name).len() ==> 0 <= #[trigger] run(cs, i, name)[k] <= i
                && cs[run(cs, i, name)[k]].branch == name,
        run(cs, i, name).len() > 0 ==> run(cs, i, name).last() == i,
    decreases i + 1,
{
    if 0 <= i < cs.len() && cs[i].branch == name {
        let p = first_parent(cs, i);
        if -1 <= p < i {
            lemma_run_owned(cs, p, name);
        }
    }
}

/// A commit lies in the lane of at most one branch: the one that owns it.
pub proof fn lemma_lane_owner(r: RepoV, b: int, i: int)
    requires
        names_distinct(r.branches),
        0 <= b < r.branches.len(),
        lane(r, b).contains(i),
    ensures
        lane_of(r, i) == b,
        0 <= i < r.commits.len(),
{
    lemma_run_owned(r.commits, head_index(r, b), r.branches[b].name);
    let k = choose|k: int| 0 <= k < lane(r, b).len() && lane(r, b)[k] == i;
    assert(r.commits[i].branch == r.branches[b].name);
    crate::model::repo::lemma_branch_index_at(r.branches, r.commits[i].branch, b);
}

/// Every position that `v` holds points into its commits or branches.
pub open spec fn view_wf(v: View) -> bool {
    &&& forall|b: int, k: int|
        0 <= b < v.lanes.len() && 0 <= k < v.lanes[b].commits.len() ==> #[trigger] v.lanes[b].commits[k]
            < v.commits.len()
    &&& forall|i: int, k: int|
        0 <= i < v.commits.len() && 0 <= k < v.commits[i].parents.len() ==> #[trigger] v.commits[i].parents[k].commit
            < v.commits.len()
    &&& v.commits_branch_heads.len() == v.commits.len()
    &&& forall|i: int, g: int|
        0 <= i < v.commits_branch_heads.len() && 0 <= g < v.commits_branch_heads[i].len()
            ==> #[trigger] v.commits_branch_heads[i][g] < v.branches.len()
}

/// A layout of a well-formed store holds only positions in range.
pub proof fn lemma_layout_wf(v: View, r: RepoV)
    requires
        well_formed(r),
        lays_out(v, r),
    ensures
        view_wf(v),
{
    assert forall|b: int, k: int| 0 <= b < v.lanes.len() && 0 <= k < v.lanes[b].commits.len() implies #[trigger] v.lanes[b].commits[k] < v.commits.len() by {
        lemma_run_owned(r.commits, head_index(r, b), r.branches[b].name);
        assert(usizes(v.lanes[b].commits@)[k] == lane(r, b)[k]);
    }
    assert forall|i: int, k: int| 0 <= i < v.commits.len() && 0 <= k < v.commits[i].parents.len() implies #[trigger] v.commits[i].parents[k].commit < v.commits.len() by {
        lemma_commit_index(r.commits, r.commits[i].parents[k]);
    }
    assert forall|i: int, g: int| 0 <= i < v.commits_branch_heads.len() && 0 <= g < v.commits_branch_heads[i].len() implies #[trigger] v.commits_branch_heads[i][g] < v.branches.len() by {
        lemma_heads_at_bound(r, i, r.branches.len() as int);
        assert(usizes(v.commits_branch_heads[i]@)[g] == heads_at(r, i, r.branches.len() as int)[g]);
    }
}

pub proof fn lemma_heads_at_bound(r: RepoV, i: int, m: int)
    ensures
        forall|g: int| 0 <= g < heads_at(r, i, m).len() ==> 0 <= #[trigger] heads_at(r, i, m)[g] < m,
    decreases m,
{
    if m > 0 {
        lemma_heads_at_bound(r, i, m - 1);
        let a = heads_at(r, i, m - 1);
        assert forall|g: int| 0 <= g < heads_at(r, i, m).len() implies 0 <= #[trigger] heads_at(r, i, m)[g] < m by {
            if g < a.len() {
                assert(heads_at(r, i, m)[g] == a[g]);
            }
        }
    }
}

/// Lanes `a` and `b` both hold commits and their time ranges meet.
pub open spec fn lanes_overlap(v: View, a: int, b: int) -> bool {
    let la = v.lanes[a].commits;
    let lb = v.lanes[b].commits;
    &&& la.len() > 0
    &&& lb.len() > 0
    &&& v.commits[la[0] as int].time <= v.commits[lb[lb.len() - 1] as int].time
    &&& v.commits[lb[0] as int].time <= v.commits[la[la.len() - 1] as int].time
}

/// Column `c` is free for lane `a`: no earlier lane placed in it overlaps `a`.
pub open spec fn column_free(v: View, cols: Seq<usize>, a: int, c: int) -> bool {
    forall|b: int| 0 <= b < a && cols[b] == c ==> !lanes_overlap(v, a, b)
}

/// `cols` places each lane, in lane order, in the first column free for it.
pub open spec fn first_fit(v: View, cols: Seq<usize>) -> bool {
    &&& cols.len() == v.lanes.len()
    &&& forall|a: int|
        0 <= a < cols.len() ==> column_free(v, cols, a, #[trigger] cols[a] as int) && forall|c: int|
            0 <= c < cols[a] ==> !column_free(v, cols, a, c)
}

impl View {
    /// Lanes `a` and `b` both hold commits and their time ranges meet.
    pub fn branches_overlap(&self, a: usize, b: usize) -> (r: bool)
        requires
            view_wf(*self),
            a < self.lanes.len(),
            b < self.lanes.len(),
        ensures
            r == lanes_overlap(*self, a as int, b as int),
    {
        let la = &self.lanes[a].commits;
        let lb = &self.lanes[b].commits;
        if la.len() == 0 || lb.len() == 0 {
            return false;
        }
        let a0 = self.commits[la[0]].time;
        let a1 = self.commits[la[la.len() - 1]].time;
        let b0 = self.commits[lb[0]].time;
        let b1 = self.commits[lb[lb.len() - 1]].time;
        a0 <= b1 && b0 <= a1
    }

    /// Columns for the lanes, first fit in lane order: each lane takes the smallest column
    /// that no earlier, time-overlapping lane holds. Lanes that share a column never overlap.
    pub fn calc_branch_columns(&self) -> (cols: Vec<usize>)
        requires
            view_wf(*self),
        ensures
            first_fit(*self, cols@),
            forall|a: int, b: int|
                0 <= a < cols.len() && 0 <= b < cols.len() && a != b && cols[a] == cols[b]
                    ==> !lanes_overlap(*self, a, b),
    {
        let mut cols: Vec<usize> = Vec::new();
        let mut a: usize = 0;
        while a < self.lanes.len()
            invariant
                view_wf(*self),
                a <= self.lanes.len(),
                cols.len() == a,
                forall|x: int| 0 <= x < a ==> #[trigger] cols[x] <= x,
                forall|x: int|
                    0 <= x < a ==> column_free(*self, cols@, x, #[trigger] cols[x] as int) && forall|c: int|
                        0 <= c < cols[x] ==> !column_free(*self, cols@, x, c),
            decreases self.lanes.len() - a,
        {
            let mut c: usize = 0;
            loop
                invariant
                    view_wf(*self),
                    a < self.lanes.len(),
                    cols.len() == a,
                    forall|x: int| 0 <= x < a ==> #[trigger] cols[x] <= x,
                    c <= a,
                    forall|cc: int| 0 <= cc < c ==> !column_free(*self, cols@, a as int, cc),
                ensures
                    c <= a,
                    column_free(*self, cols@, a as int, c as int),
                    forall|cc: int| 0 <= cc < c ==> !column_free(*self, cols@, a as int, cc),
                decreases a - c,
            {
                let mut blocked = false;
                let mut q: usize = 0;
                while q < a
                    invariant
                        view_wf(*self),
                        a < self.lanes.len(),
                        cols.len() == a,
                        q <= a,
                        blocked ==> !column_free(*self, cols@, a as int, c as int),
                        !blocked ==> forall|b: int| 0 <= b < q && cols[b] == c ==> !lanes_overlap(*self, a as int, b),
                    decreases a - q,
                {
                    if cols[q] == c && self.branches_overlap(a, q) {
                        blocked = true;
                    }
                    q += 1;
                }
                if !blocked {
                    break;
                }
                if c == a {
                    assert(cols[0] <= 0);
                    assert(column_free(*self, cols@, a as int, c as int));
                }
                c += 1;
            }
            let ghost old_cols = cols@;
            cols.push(c);
            assert forall|x: int|
                0 <= x < a + 1 implies column_free(*self, cols@, x, #[trigger] cols[x] as int) && forall|cc: int|
                    0 <= cc < cols[x] ==> !column_free(*self, cols@, x, cc) by {
                assert forall|b: int| 0 <= b < x implies cols@[b] == old_cols[b] by {}
                assert forall|cc: int| #[trigger] column_free(*self, cols@, x, cc) == column_free(*self, old_cols, x, cc) by {
                    assert forall|b: int| 0 <= b < x implies cols@[b] == old_cols[b] by {}
                }
                if x < a {
                    assert(cols[x] == old_cols[x]);
                }
            }
            a += 1;
        }
        assert forall|a: int, b: int|
            0 <= a < cols.len() && 0 <= b < cols.len() && a != b && cols[a] == cols[b] implies !lanes_overlap(*self, a, b) by {
            if b < a {
                assert(column_free(*self, cols@, a, cols[a] as int));
            } else {
                assert(column_free(*self, cols@, b, cols[b] as int));
                assert(lanes_overlap(*self, a, b) == lanes_overlap(*self, b, a));
            }
        }
        cols
    }

    /// Moves every lane to its first-fit column, so that lanes that do not overlap in time
    /// may share one.
    pub fn pack_columns(&mut self)
        requires
            view_wf(*old(self)),
        ensures
            view_wf(*final(self)),
            final(self).commits == old(self).commits,
            final(self).branches == old(self).branches,
            final(self).commits_branch_heads == old(self).commits_branch_heads,
            final(self).lanes.len() == old(self).lanes.len(),
            forall|b: int|
                #![trigger final(self).lanes[b]]
                0 <= b < final(self).lanes.len() ==> final(self).lanes[b].commits == old(self).lanes[b].commits
                    && final(self).lanes[b].branch_names == old(self).lanes[b].branch_names,
            first_fit(*old(self), final(self).lanes@.map_values(|l: Lane| l.col)),
            forall|a: int, b: int|
                0 <= a < final(self).lanes.len() && 0 <= b < final(self).lanes.len() && a != b
                    && final(self).lanes[a].col == final(self).lanes[b].col ==> !lanes_overlap(*final(self), a, b),
    {
        let cols = self.calc_branch_columns();
        let ghost before = *self;
        let mut b: usize = 0;
        while b < self.lanes.len()
            invariant
                self.commits == before.commits,
                self.branches == before.branches,
                self.commits_branch_heads == before.commits_branch_heads,
                self.lanes.len() == before.lanes.len(),
                cols.len() == self.lanes.len(),
                b <= self.lanes.len(),
                forall|x: int|
                    #![trigger self.lanes[x]]
                    0 <= x < self.lanes.len() ==> self.lanes[x].commits == before.lanes[x].commits
                        && self.lanes[x].branch_names == before.lanes[x].branch_names,
                forall|x: int| 0 <= x < b ==> #[trigger] self.lanes[x].col == cols[x],
            decreases self.lanes.len() - b,
        {
            self.lanes[b].col = cols[b];
            b += 1;
        }
        assert(self.lanes@.map_values(|l: Lane| l.col) =~= cols@);
        assert forall|a: int, b: int|
            0 <= a < self.lanes.len() && 0 <= b < self.lanes.len() && a != b && self.lanes[a].col == self.lanes[b].col
                implies !lanes_overlap(*self, a, b) by {
            assert(!lanes_overlap(before, a, b));
        }
    }

    /// Lays out a store: lanes, the place of every parent link among them, and branch heads.
    pub fn from_state(state: &Repository) -> (v: View)
        requires
            well_formed(state@),
        ensures
            lays_out(v, state@),
            view_wf(v),
    {
        let ghost r = state@;
        let ghost cs = r.commits;
        let n = state.commits.len();
        let nb = state.branches.len();
        // Heads, as positions (`n` where a branch live none).
        let mut heads: Vec<usize> = Vec::new();
        let mut b: usize = 0;
        while b < nb
            invariant
                well_formed(r),
                r == state@,
                cs == r.commits,
                n == state.commits.len(),
                nb == state.branches.len(),
                n == cs.len(),
                nb == r.branches.len(),
                b <= nb,
                heads.len() == b,
                forall|q: int| 0 <= q < b ==> #[trigger] heads[q] == if head_index(r, q) >= 0 {
                    head_index(r, q) as usize
                } else {
                    n
                },
            decreases nb - b,
        {
            let h: usize = match &state.branches[b].current_commit {
                Some(id) => match state.find_commit(id) {
                    Some(i) => i,
                    None => n,
                },
                None => n,
            };
            heads.push(h);
            b += 1;
        }
        // Lanes.
        let mut lanes: Vec<Lane> = Vec::new();
        let mut b: usize = 0;
        while b < nb
            invariant
                well_formed(r),
                r == state@,
                cs == r.commits,
                n == state.commits.len(),
                nb == state.branches.len(),
                n == cs.len(),
                nb == r.branches.len(),
                heads.len() == nb,
                forall|q: int| 0 <= q < nb ==> #[trigger] heads[q] == if head_index(r, q) >= 0 {
                    head_index(r, q) as usize
                } else {
                    n
                },
                b <= nb,
                lanes.len() == b,
                forall|q: int|
                    #![trigger lanes[q]]
                    0 <= q < b ==> {
                        &&& usizes(lanes[q].commits@) == lane(r, q)
                        &&& lanes[q].col == r.branches[q].priority
                        &&& lanes[q].branch_names@.len() == 1
                        &&& lanes[q].branch_names@[0]@ == r.branches[q].name
                    },
            decreases nb - b,
        {
            let name = &state.branches[b].name;
            let mut cur: usize = heads[b];
            let mut live: bool = cur < n;
            let mut acc: Vec<usize> = Vec::new();
            let ghost target = lane(r, b as int);
            proof {
                lemma_commit_index(cs, r.branches[b as int].head.unwrap_or(Seq::empty()));
                assert(usizes(acc@) =~= Seq::empty());
                assert(target =~= run(cs, if live { cur as int } else { -1 }, name@) + usizes(acc@));
            }
            loop
                invariant
                    well_formed(r),
                    r == state@,
                    cs == r.commits,
                    n == state.commits.len(),
                    nb == state.branches.len(),
                    n == cs.len(),
                    b < nb,
                    nb == r.branches.len(),
                    name@ == r.branches[b as int].name,
                    live ==> cur < n,
                    target == run(cs, if live { cur as int } else { -1 }, name@) + usizes(acc@),
                ensures
                    live ==> cur < n && cs[cur as int].branch != name@,
                    target == run(cs, if live { cur as int } else { -1 }, name@) + usizes(acc@),
                decreases if live {
                    cur as int + 1
                } else {
                    0
                },
            {
                if !live {
                    break;
                }
                if !(state.commits[cur].branch == *name) {
                    break;
                }
                let ghost p = first_parent(cs, cur as int);
                proof {
                    if cs[cur as int].parents.len() > 0 {
                        lemma_commit_index(cs, cs[cur as int].parents[0]);
                        assert(commit_index(cs, cs[cur as int].parents[0]) < cur);
                    }
                    assert(run(cs, cur as int, name@) == run(cs, p, name@).push(cur as int));
                }
                let ghost before = usizes(acc@);
                acc.insert(0, cur);
                assert(usizes(acc@) =~= seq![cur as int] + before);
                let ps = &state.commits[cur].parents;
                if ps.len() > 0 {
                    match state.find_commit(&ps[0]) {
                        Some(pi) => {
                            cur = pi;
                        },
                        None => {
                            live = false;
                        },
                    }
                } else {
                    live = false;
                }
                proof {
                    assert(target =~= run(cs, if live { cur as int } else { -1 }, name@) + usizes(acc@));
                }
            }
            proof {
                assert(run(cs, if live { cur as int } else { -1 }, name@) =~= Seq::empty());
                assert(usizes(acc@) =~= target);
            }
            let mut names: Vec<String> = Vec::new();
            names.push(name.clone());
            lanes.push(Lane { branch_names: names, commits: acc, col: state.branches[b].priority });
            b += 1;
        }
        // The lane of each commit (`nb` where it lies in none).
        let mut lane_idx: Vec<usize> = Vec::new();
        let mut i: usize = 0;
        while i < n
            invariant
                well_formed(r),
                r == state@,
                cs == r.commits,
                n == state.commits.len(),
                nb == state.branches.len(),
                n == cs.len(),
                nb == r.branches.len(),
                lanes.len() == nb,
                forall|q: int| 0 <= q < nb ==> usizes((#[trigger] lanes[q]).commits@) == lane(r, q),
                i <= n,
                lane_idx.len() == i,
                forall|q: int| 0 <= q < i ==> #[trigger] lane_idx[q] == if lane_of(r, q) >= 0 {
                    lane_of(r, q) as usize
                } else {
                    nb
                },
            decreases n - i,
        {
            proof {
                lemma_branch_index(r.branches, cs[i as int].branch);
            }
            let mut l: usize = nb;
            match state.find_branch(&state.commits[i].branch) {
                Some(bi) => {
                    let lc = &lanes[bi].commits;
                    let mut k: usize = 0;
                    while k < lc.len()
                        invariant
                            k <= lc.len(),
                            bi < nb,
                            l == nb || l == bi,
                            l == bi ==> usizes(lc@).contains(i as int),
                            l == nb ==> forall|kk: int| 0 <= kk < k ==> lc[kk] != i,
                        decreases lc.len() - k,
                    {
                        if lc[k] == i {
                            l = bi;
                            assert(usizes(lc@)[k as int] == i);
                        }
                        k += 1;
                    }
                    proof {
                        if l == nb {
                            assert(!usizes(lc@).contains(i as int));
                        }
                    }
                },
                None => {},
            }
            lane_idx.push(l);
            i += 1;
        }
        proof {
            assert forall|q: int, b: int| 0 <= b < nb && lane(r, b).contains(q) implies lane_of(r, q) == b && 0 <= q < n by {
                lemma_lane_owner(r, b, q);
            }
        }
        // Commits, with their parent links.
        let mut commits: Vec<Commit> = Vec::new();
        let mut i: usize = 0;
        while i < n
            invariant
                well_formed(r),
                r == state@,
                cs == r.commits,
                n == state.commits.len(),
                nb == state.branches.len(),
                n == cs.len(),
                nb == r.branches.len(),
                lanes.len() == nb,
                forall|q: int| 0 <= q < nb ==> usizes((#[trigger] lanes[q]).commits@) == lane(r, q),
                lane_idx.len() == n,
                forall|q: int| 0 <= q < n ==> #[trigger] lane_idx[q] == if lane_of(r, q) >= 0 {
                    lane_of(r, q) as usize
                } else {
                    nb
                },
                forall|q: int, b: int| 0 <= b < nb && lane(r, b).contains(q) ==> lane_of(r, q) == b,
                i <= n,
                commits.len() == i,
                forall|q: int|
                    #![trigger commits[q]]
                    0 <= q < i ==> {
                        let c = commits[q];
                        &&& c.id@ == cs[q].id
                        &&& c.time == q
                        &&& c.parents.len() == cs[q].parents.len()
                        &&& forall|k: int|
                            #![trigger c.parents[k]]
                            0 <= k < c.parents.len() ==> {
                                let p = c.parents[k];
                                &&& p.commit == commit_index(cs, cs[q].parents[k])
                                &&& p.ends_lane == starts_a_lane(r, p.commit as int)
                                &&& p.begins_lane == ends_a_lane(r, q)
                                &&& p.in_lane == same_lane(r, q, p.commit as int)
                            }
                    },
            decreases n - i,
        {
            let li = lane_idx[i];
            let begins = li < nb && lanes[li].commits.len() > 0 && lanes[li].commits[lanes[li].commits.len() - 1] == i;
            proof {
                if begins {
                    assert(lane(r, li as int).last() == i);
                } else {
                    assert forall|b: int| 0 <= b < nb && lane(r, b).len() > 0 implies lane(r, b).last() != i by {
                        lemma_run_owned(cs, head_index(r, b), r.branches[b].name);
                        if lane(r, b).last() == i {
                            assert(lane(r, b).contains(i as int));
                            assert(lane_of(r, i as int) == b);
                            assert(usizes(lanes[b].commits@).last() == i);
                        }
                    }
                }
            }
            let ps = &state.commits[i].parents;
            let mut parents: Vec<Parent> = Vec::new();
            let mut k: usize = 0;
            while k < ps.len()
                invariant
                    well_formed(r),
                    r == state@,
                    cs == r.commits,
                    n == state.commits.len(),
                    nb == state.branches.len(),
                    n == cs.len(),
                    i < n,
                    nb == r.branches.len(),
                    lanes.len() == nb,
                    forall|q: int| 0 <= q < nb ==> usizes((#[trigger] lanes[q]).commits@) == lane(r, q),
                    lane_idx.len() == n,
                    forall|q: int| 0 <= q < n ==> #[trigger] lane_idx[q] == if lane_of(r, q) >= 0 {
                        lane_of(r, q) as usize
                    } else {
                        nb
                    },
                    forall|q: int, b: int| 0 <= b < nb && lane(r, b).contains(q) ==> lane_of(r, q) == b,
                    li == lane_idx[i as int],
                    begins == ends_a_lane(r, i as int),
                    ps@ == state.commits@[i as int].parents@,
                    k <= ps.len(),
                    parents.len() == k,
                    forall|kk: int|
                        #![trigger parents[kk]]
                        0 <= kk < k ==> {
                            let p = parents[kk];
                            &&& p.commit == commit_index(cs, cs[i as int].parents[kk])
                            &&& p.ends_lane == starts_a_lane(r, p.commit as int)
                            &&& p.begins_lane == ends_a_lane(r, i as int)
                            &&& p.in_lane == same_lane(r, i as int, p.commit as int)
                        },
                decreases ps.len() - k,
            {
                let ghost pid = cs[i as int].parents[k as int];
                proof {
                    assert(ps@[k as int]@ == pid);
                    lemma_commit_index(cs, pid);
                }
                let pi: usize = match state.find_commit(&ps[k]) {
                    Some(x) => x,
                    None => 0,
                };
                let pl = lane_idx[pi];
                let ends = pl < nb && lanes[pl].commits.len() > 0 && lanes[pl].commits[0] == pi;
                let inl = li < nb && li == pl;
                proof {
                    if ends {
                        assert(lane(r, pl as int)[0] == pi);
                    } else {
                        assert forall|b: int| 0 <= b < nb && lane(r, b).len() > 0 implies lane(r, b)[0] != pi by {
                            if lane(r, b)[0] == pi {
                                assert(lane(r, b).contains(pi as int));
                            }
                        }
                    }
                    if inl {
                        assert(lane(r, li as int).contains(i as int));
                    } else {
                        assert forall|b: int| 0 <= b < nb && lane(r, b).contains(i as int) implies !lane(r, b).contains(pi as int) by {}
                    }
                }
                parents.push(Parent { commit: pi, style: String::new(), ends_lane: ends, begins_lane: begins, in_lane: inl });
                k += 1;
            }
            commits.push(Commit {
                id: state.commits[i].id.clone(),
                message: String::new(),
                hash: state.commits[i].id.clone(),
                parents,
                style: String::new(),
                time: i,
            });
            i += 1;
        }
        // Branches.
        let mut branches: Vec<Branch> = Vec::new();
        let mut b: usize = 0;
        while b < nb
            invariant
                r == state@,
                cs == r.commits,
                n == state.commits.len(),
                nb == state.branches.len(),
                nb == r.branches.len(),
                heads.len() == nb,
                forall|q: int| 0 <= q < nb ==> #[trigger] heads[q] == if head_index(r, q) >= 0 {
                    head_index(r, q) as usize
                } else {
                    n
                },
                n == cs.len(),
                well_formed(r),
                b <= nb,
                branches.len() == b,
                forall|q: int|
                    #![trigger branches[q]]
                    0 <= q < b ==> {
                        &&& branches[q].name@ == r.branches[q].name
                        &&& branches[q].head == if head_index(r, q) >= 0 {
                            Some(head_index(r, q) as usize)
                        } else {
                            None
                        }
                    },
            decreases nb - b,
        {
            let h = if heads[b] < n {
                Some(heads[b])
            } else {
                None
            };
            proof {
                if let Some(hid) = r.branches[b as int].head {
                    lemma_commit_index(cs, hid);
                }
            }
            branches.push(Branch { name: state.branches[b].name.clone(), head: h, style: String::new() });
            b += 1;
        }
        // Branch heads, per commit.
        let mut groups: Vec<Vec<usize>> = Vec::new();
        let mut i: usize = 0;
        while i < n
            invariant
                r == state@,
                cs == r.commits,
                n == state.commits.len(),
                nb == state.branches.len(),
                nb == r.branches.len(),
                heads.len() == nb,
                forall|q: int| 0 <= q < nb ==> #[trigger] heads[q] == if head_index(r, q) >= 0 {
                    head_index(r, q) as usize
                } else {
                    n
                },
                n == cs.len(),
                i <= n,
                groups.len() == i,
                forall|q: int| 0 <= q < i ==> usizes((#[trigger] groups[q])@) == heads_at(r, q, nb as int),
            decreases n - i,
        {
            let mut g: Vec<usize> = Vec::new();
            let mut b: usize = 0;
            proof {
                assert(usizes(g@) =~= heads_at(r, i as int, 0));
            }
            while b < nb
                invariant
                    nb == r.branches.len(),
                    heads.len() == nb,
                    forall|q: int| 0 <= q < nb ==> #[trigger] heads[q] == if head_index(r, q) >= 0 {
                        head_index(r, q) as usize
                    } else {
                        n
                    },
                    i < n,
                    n == cs.len(),
                    cs == r.commits,
                    b <= nb,
                    usizes(g@) == heads_at(r, i as int, b as int),
                decreases nb - b,
            {
                let ghost before = usizes(g@);
                proof {
                    if let Some(hid) = r.branches[b as int].head {
                        lemma_commit_index(cs, hid);
                    }
                }
                if heads[b] == i {
                    g.push(b);
                }
                assert(heads_at(r, i as int, b as int + 1) == heads_at(r, i as int, b as int) + if head_index(r, b as int) == i {
                    seq![b as int]
                } else {
                    Seq::<int>::empty()
                });
                assert(usizes(g@) =~= heads_at(r, i as int, b as int + 1));
                b += 1;
            }
            groups.push(g);
            i += 1;
        }
        let v = View { commits, lanes, branches, commits_branch_heads: groups };
        proof {
            lemma_layout_wf(v, r);
        }
        v
    }
}

} // verus!
