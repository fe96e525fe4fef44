use crate::model::branch::{Branch, TrackV};
use crate::model::repo::{commit_index, ids_distinct, lemma_commit_index, lemma_commit_index_at, strs, Commit, CommitV};
use vstd::prelude::*;
use vstd::string::*;

verus! {

/// The store of the compact notation: commits, branches, and both kept in order (commits
/// by time, branches by priority).
pub struct Model {
    pub commits: Vec<Commit>,
    pub branches: Vec<Branch>,
    pub commit_order: Vec<String>,
    pub branch_order: Vec<String>,
}

/// Mathematical view of a `Model`.
pub struct ModelV {
    pub commits: Seq<CommitV>,
    pub branches: Seq<TrackV>,
    pub commit_order: Seq<Seq<char>>,
    pub branch_order: Seq<Seq<char>>,
}

impl View for Model {
    type V = ModelV;

    open spec fn view(&self) -> ModelV {
        ModelV {
            commits: self.commits@.map_values(|c: Commit| c@),
            branches: self.branches@.map_values(|b: Branch| b@),
            commit_order: strs(self.commit_order@),
            branch_order: strs(self.branch_order@),
        }
    }
}

/// Position of the branch called `name`, or -1.
pub open spec fn track_index(bs: Seq<TrackV>, name: Seq<char>) -> int {
    if exists|i: int| 0 <= i < bs.len() && bs[i].name == name {
        choose|i: int| 0 <= i < bs.len() && bs[i].name == name
    } else {
        -1
    }
}

pub open spec fn tracks_distinct(bs: Seq<TrackV>) -> bool {
    forall|i: int, j: int| 0 <= i < bs.len() && 0 <= j < bs.len() && i != j ==> bs[i].name != bs[j].name
}

pub proof fn lemma_track_index(bs: Seq<TrackV>, name: Seq<char>)
    ensures
        -1 <= track_index(bs, name) < bs.len(),
        track_index(bs, name) >= 0 ==> bs[track_index(bs, name)].name == name,
        track_index(bs, name) == -1 <==> forall|j: int| 0 <= j < bs.len() ==> bs[j].name != name,
{
}

pub proof fn lemma_track_index_at(bs: Seq<TrackV>, name: Seq<char>, i: int)
    requires
        tracks_distinct(bs),
        0 <= i < bs.len(),
        bs[i].name == name,
    ensures
        track_index(bs, name) == i,
{
}

/// The highest priority, or -1 without branches.
pub open spec fn max_priority(bs: Seq<TrackV>) -> int
    decreases bs.len(),
{
    if bs.len() == 0 {
        -1
    } else {
        let m = max_priority(bs.drop_last());
        if bs.last().priority > m {
            bs.last().priority
        } else {
            m
        }
    }
}

/// The latest commit time, or -1 without commits.
pub open spec fn max_time(cs: Seq<CommitV>) -> int
    decreases cs.len(),
{
    if cs.len() == 0 {
        -1
    } else {
        let m = max_time(cs.drop_last());
        if cs.last().time > m {
            cs.last().time as int
        } else {
            m
        }
    }
}

/// `p` is where a key `k` goes in a list of keys: before the first key that is not smaller.
pub open spec fn is_insert_pos(keys: Seq<int>, k: int, p: int) -> bool {
    &&& 0 <= p <= keys.len()
    &&& p < keys.len() ==> keys[p] >= k
    &&& forall|j: int| 0 <= j < p ==> keys[j] < k
}

pub open spec fn insert_pos(keys: Seq<int>, k: int) -> int {
    choose|p: int| is_insert_pos(keys, k, p)
}

pub proof fn lemma_insert_pos(keys: Seq<int>, k: int, p: int)
    requires
        is_insert_pos(keys, k, p),
    ensures
        insert_pos(keys, k) == p,
{
    let q = insert_pos(keys, k);
    assert(is_insert_pos(keys, k, q));
    if q < p {
        assert(keys[q] < k);
    }
    if p < q {
        assert(keys[p] < k);
    }
}

/// A key always has a place in a list of keys.
pub proof fn lemma_insert_pos_exists(keys: Seq<int>, k: int)
    ensures
        is_insert_pos(keys, k, insert_pos(keys, k)),
    decreases keys.len(),
{
    if keys.len() == 0 {
        assert(is_insert_pos(keys, k, 0));
    } else {
        let d = keys.drop_last();
        lemma_insert_pos_exists(d, k);
        let q = insert_pos(d, k);
        assert forall|j: int| 0 <= j < d.len() implies d[j] == keys[j] by {}
        let x = if q < d.len() {
            q
        } else if keys.last() >= k {
            d.len() as int
        } else {
            keys.len() as int
        };
        assert(is_insert_pos(keys, k, x));
        lemma_insert_pos(keys, k, x);
    }
}

/// The priorities of the branches that `order` names.
pub open spec fn priority_keys(bs: Seq<TrackV>, order: Seq<Seq<char>>) -> Seq<int> {
    Seq::new(order.len(), |i: int| bs[track_index(bs, order[i])].priority)
}

/// The times of the commits that `order` names.
pub open spec fn time_keys(cs: Seq<CommitV>, order: Seq<Seq<char>>) -> Seq<int> {
    Seq::new(order.len(), |i: int| cs[commit_index(cs, order[i])].time as int)
}

/// Names and ids are unique, and every name or id that an order or a branch lists exists.
pub open spec fn model_inv(m: ModelV) -> bool {
    &&& tracks_distinct(m.branches)
    &&& ids_distinct(m.commits)
    &&& forall|i: int| 0 <= i < m.branch_order.len() ==> track_index(m.branches, #[trigger] m.branch_order[i]) >= 0
    &&& forall|i: int| 0 <= i < m.commit_order.len() ==> commit_index(m.commits, #[trigger] m.commit_order[i]) >= 0
    &&& forall|b: int, i: int|
        0 <= b < m.branches.len() && 0 <= i < m.branches[b].commits.len() ==> commit_index(
            m.commits,
            #[trigger] m.branches[b].commits[i],
        ) >= 0
}

/// Adding a branch: it replaces one of the same name, gets the next priority, and is
/// inserted into the branch order by priority.
pub open spec fn spec_model_add_branch(m: ModelV, name: Seq<char>) -> ModelV {
    let nb = TrackV { name, priority: max_priority(m.branches) + 1, commits: Seq::empty(), current: None };
    let i = track_index(m.branches, name);
    let bs = if i >= 0 {
        m.branches.update(i, nb)
    } else {
        m.branches.push(nb)
    };
    ModelV {
        commits: m.commits,
        branches: bs,
        commit_order: m.commit_order,
        branch_order: m.branch_order.insert(insert_pos(priority_keys(bs, m.branch_order), nb.priority), name),
    }
}

/// Adding a commit: it replaces one of the same id, gets the next time, and is inserted by
/// time into the commit order and into its branch's commits; without that branch only the
/// first two happen and the result says so.
pub open spec fn spec_model_add_commit(m: ModelV, id: Seq<char>, branch: Seq<char>, parents: Seq<Seq<char>>) -> (ModelV, bool) {
    let c = CommitV { id, time: (max_time(m.commits) + 1) as nat, branch, parents };
    let ci = commit_index(m.commits, id);
    let cs = if ci >= 0 {
        m.commits.update(ci, c)
    } else {
        m.commits.push(c)
    };
    let co = m.commit_order.insert(insert_pos(time_keys(cs, m.commit_order), c.time as int), id);
    let bi = track_index(m.branches, branch);
    if bi < 0 {
        (ModelV { commits: cs, branches: m.branches, commit_order: co, branch_order: m.branch_order }, false)
    } else {
        let b = m.branches[bi];
        let nb = TrackV {
            name: b.name,
            priority: b.priority,
            commits: b.commits.insert(insert_pos(time_keys(cs, b.commits), c.time as int), id),
            current: b.current,
        };
        (ModelV { commits: cs, branches: m.branches.update(bi, nb), commit_order: co, branch_order: m.branch_order }, true)
    }
}

pub proof fn lemma_max_time_bound(cs: Seq<CommitV>)
    ensures
        -1 <= max_time(cs),
    decreases cs.len(),
{
    if cs.len() > 0 {
        lemma_max_time_bound(cs.drop_last());
    }
}

pub open spec fn ints(v: Seq<i128>) -> Seq<int> {
    v.map_values(|x: i128| x as int)
}

/// Inserts `id` before the first entry whose key is not smaller than `key`.
fn insert_object_into_sorted_list(list: &mut Vec<String>, id: String, keys: &Vec<i128>, key: i128)
    requires
        keys.len() == old(list).len(),
    ensures
        strs(final(list)@) == strs(old(list)@).insert(insert_pos(ints(keys@), key as int), id@),
{
    let mut i: usize = 0;
    while i < list.len()
        invariant
            keys.len() == list.len(),
            list@ == old(list)@,
            i <= list.len(),
            forall|j: int| 0 <= j < i ==> keys[j] < key,
        decreases list.len() - i,
    {
        if keys[i] >= key {
            proof {
                lemma_insert_pos(ints(keys@), key as int, i as int);
            }
            list.insert(i, id);
            assert(strs(list@) =~= strs(old(list)@).insert(i as int, id@));
            return;
        }
        i += 1;
    }
    proof {
        lemma_insert_pos(ints(keys@), key as int, i as int);
    }
    list.push(id);
    assert(strs(list@) =~= strs(old(list)@).insert(i as int, id@));
}

/// The time of the commit with id `id`.
pub open spec fn time_of(cs: Seq<CommitV>, id: Seq<char>) -> int {
    cs[commit_index(cs, id)].time as int
}

/// Branches `a` and `b` both exist, both have commits, and their time ranges meet.
pub open spec fn tracks_overlap(m: ModelV, a: Seq<char>, b: Seq<char>) -> bool {
    let i = track_index(m.branches, a);
    let j = track_index(m.branches, b);
    &&& i >= 0
    &&& j >= 0
    &&& m.branches[i].commits.len() > 0
    &&& m.branches[j].commits.len() > 0
    &&& time_of(m.commits, m.branches[i].commits[0]) <= time_of(m.commits, m.branches[j].commits.last())
    &&& time_of(m.commits, m.branches[j].commits[0]) <= time_of(m.commits, m.branches[i].commits.last())
}

/// Column `j` of `cols` holds no branch that overlaps `name`.
pub open spec fn col_free(m: ModelV, cols: Seq<Seq<Seq<char>>>, name: Seq<char>, j: int) -> bool {
    0 <= j < cols.len() && forall|x: int| 0 <= x < cols[j].len() ==> !tracks_overlap(m, name, #[trigger] cols[j][x])
}

pub open spec fn first_free(m: ModelV, cols: Seq<Seq<Seq<char>>>, name: Seq<char>, j: int) -> bool {
    col_free(m, cols, name, j) && forall|q: int| 0 <= q < j ==> !col_free(m, cols, name, q)
}

/// `name` joins the first column it overlaps nothing in, or opens a new one.
pub open spec fn place(m: ModelV, cols: Seq<Seq<Seq<char>>>, name: Seq<char>) -> Seq<Seq<Seq<char>>> {
    if exists|j: int| first_free(m, cols, name, j) {
        let j = choose|j: int| first_free(m, cols, name, j);
        cols.update(j, cols[j].push(name))
    } else {
        cols.push(seq![name])
    }
}

/// The columns after placing the first `k` branches of the branch order.
pub open spec fn columns(m: ModelV, k: int) -> Seq<Seq<Seq<char>>>
    decreases k,
{
    if k <= 0 {
        Seq::empty()
    } else {
        place(m, columns(m, k - 1), m.branch_order[k - 1])
    }
}

pub open spec fn cols_view(v: Seq<Vec<String>>) -> Seq<Seq<Seq<char>>> {
    v.map_values(|c: Vec<String>| strs(c@))
}

impl Model {
    pub open spec fn inv(&self) -> bool {
        model_inv(self@)
    }

    /// An empty model.
    pub fn new() -> (r: Model)
        ensures
            r.inv(),
            r@.commits.len() == 0,
            r@.branches.len() == 0,
            r@.commit_order.len() == 0,
            r@.branch_order.len() == 0,
    {
        Model { commits: Vec::new(), branches: Vec::new(), commit_order: Vec::new(), branch_order: Vec::new() }
    }

    fn find_track(&self, name: &String) -> (r: Option<usize>)
        requires
            tracks_distinct(self@.branches),
        ensures
            match r {
                Some(i) => i < self.branches.len() && track_index(self@.branches, name@) == i,
                None => track_index(self@.branches, name@) == -1,
            },
    {
        let mut i: usize = 0;
        while i < self.branches.len()
            invariant
                i <= self.branches.len(),
                tracks_distinct(self@.branches),
                forall|j: int| 0 <= j < i ==> self@.branches[j].name != name@,
            decreases self.branches.len() - i,
        {
            if self.branches[i].name == *name {
                proof {
                    lemma_track_index_at(self@.branches, name@, i as int);
                }
                return Some(i);
            }
            i += 1;
        }
        proof {
            lemma_track_index(self@.branches, name@);
        }
        None
    }

    fn find_commit(&self, id: &String) -> (r: Option<usize>)
        requires
            ids_distinct(self@.commits),
        ensures
            match r {
                Some(i) => i < self.commits.len() && commit_index(self@.commits, id@) == i,
                None => commit_index(self@.commits, id@) == -1,
            },
    {
        let mut i: usize = 0;
        while i < self.commits.len()
            invariant
                i <= self.commits.len(),
                ids_distinct(self@.commits),
                forall|j: int| 0 <= j < i ==> self@.commits[j].id != id@,
            decreases self.commits.len() - i,
        {
            if self.commits[i].id == *id {
                proof {
                    lemma_commit_index_at(self@.commits, id@, i as int);
                }
                return Some(i);
            }
            i += 1;
        }
        proof {
            lemma_commit_index(self@.commits, id@);
        }
        None
    }

    /// The highest branch priority, or -1 without branches.
    fn max_branch_priority(&self) -> (r: i32)
        ensures
            r == max_priority(self@.branches),
    {
        let mut m: i32 = -1;
        let mut i: usize = 0;
        while i < self.branches.len()
            invariant
                i <= self.branches.len(),
                m == max_priority(self@.branches.take(i as int)),
            decreases self.branches.len() - i,
        {
            assert(self@.branches.take(i + 1).drop_last() =~= self@.branches.take(i as int));
            if self.branches[i].priority > m {
                m = self.branches[i].priority;
            }
            i += 1;
        }
        assert(self@.branches.take(i as int) =~= self@.branches);
        m
    }

    /// The latest commit time, or -1 without commits.
    fn max_commit_time(&self) -> (r: i128)
        ensures
            r == max_time(self@.commits),
    {
        let mut m: i128 = -1;
        let mut i: usize = 0;
        while i < self.commits.len()
            invariant
                i <= self.commits.len(),
                m == max_time(self@.commits.take(i as int)),
                m <= usize::MAX,
            decreases self.commits.len() - i,
        {
            assert(self@.commits.take(i + 1).drop_last() =~= self@.commits.take(i as int));
            if self.commits[i].time as i128 > m {
                m = self.commits[i].time as i128;
            }
            i += 1;
        }
        assert(self@.commits.take(i as int) =~= self@.commits);
        m
    }

    /// Adds the branch `name`, replacing one of that name, with the next priority, and files
    /// it into the branch order by priority.
    pub fn add_branch(&mut self, name: String, style: String)
        requires
            old(self).inv(),
            max_priority(old(self)@.branches) < i32::MAX,
        ensures
            final(self).inv(),
            final(self)@ == spec_model_add_branch(old(self)@, name@),
    {
        let ghost m0 = self@;
        let p = self.max_branch_priority() + 1;
        let nb = Branch::new(name.clone(), style, p);
        proof {
            lemma_track_index(m0.branches, name@);
        }
        match self.find_track(&name) {
            Some(i) => {
                self.branches.set(i, nb);
            },
            None => {
                self.branches.push(nb);
            },
        }
        let ghost bs = self@.branches;
        let ghost nbv = TrackV { name: name@, priority: p as int, commits: Seq::empty(), current: None };
        assert(bs =~= if track_index(m0.branches, name@) >= 0 {
            m0.branches.update(track_index(m0.branches, name@), nbv)
        } else {
            m0.branches.push(nbv)
        });
        let ghost pos = if track_index(m0.branches, name@) >= 0 { track_index(m0.branches, name@) } else { m0.branches.len() as int };
        assert(bs[pos].name == name@);
        assert forall|x: Seq<char>| track_index(m0.branches, x) >= 0 implies #[trigger] track_index(bs, x) >= 0 by {
            lemma_track_index(m0.branches, x);
            let i = track_index(m0.branches, x);
            assert(bs[i].name == x);
            lemma_track_index(bs, x);
        }
        proof {
            lemma_track_index(bs, name@);
        }
        let mut keys: Vec<i128> = Vec::new();
        let mut k: usize = 0;
        while k < self.branch_order.len()
            invariant
                bs == self@.branches,
                tracks_distinct(bs),
                self@.branch_order == m0.branch_order,
                forall|i: int| 0 <= i < m0.branch_order.len() ==> track_index(bs, #[trigger] m0.branch_order[i]) >= 0,
                k <= self.branch_order.len(),
                ints(keys@) == priority_keys(bs, m0.branch_order).take(k as int),
            decreases self.branch_order.len() - k,
        {
            let ghost n = m0.branch_order[k as int];
            let ghost before = ints(keys@);
            assert(self.branch_order@[k as int]@ == n);
            assert(track_index(bs, m0.branch_order[k as int]) >= 0);
            match self.find_track(&self.branch_order[k]) {
                Some(j) => {
                    keys.push(self.branches[j].priority as i128);
                },
                None => {
                    keys.push(0);
                },
            }
            assert(ints(keys@) =~= before.push(bs[track_index(bs, n)].priority));
            assert(ints(keys@) =~= priority_keys(bs, m0.branch_order).take(k + 1));
            k += 1;
        }
        assert(priority_keys(bs, m0.branch_order).take(keys.len() as int) =~= priority_keys(bs, m0.branch_order));
        proof {
            lemma_insert_pos_exists(priority_keys(bs, m0.branch_order), p as int);
        }
        insert_object_into_sorted_list(&mut self.branch_order, name, &keys, p as i128);
        assert(self@.branch_order == m0.branch_order.insert(insert_pos(priority_keys(bs, m0.branch_order), p as int), name@));
        assert(self@ == spec_model_add_branch(m0, name@));
        proof {
            let bo = self@.branch_order;
            let ip = insert_pos(priority_keys(bs, m0.branch_order), p as int);
            assert forall|i: int| 0 <= i < bo.len() implies track_index(bs, #[trigger] bo[i]) >= 0 by {
                if i < ip {
                    assert(bo[i] == m0.branch_order[i]);
                } else if i > ip {
                    assert(bo[i] == m0.branch_order[i - 1]);
                }
            }
            assert forall|b: int, i: int| 0 <= b < bs.len() && 0 <= i < bs[b].commits.len() implies commit_index(
                m0.commits,
                #[trigger] bs[b].commits[i],
            ) >= 0 by {
                if b != pos {
                    assert(bs[b] == m0.branches[b]);
                }
            }
        }
    }

    /// The times of the commits that `order` lists.
    fn time_keys_of(&self, order: &Vec<String>) -> (r: Vec<i128>)
        requires
            ids_distinct(self@.commits),
            forall|i: int| 0 <= i < order.len() ==> commit_index(self@.commits, #[trigger] strs(order@)[i]) >= 0,
        ensures
            ints(r@) == time_keys(self@.commits, strs(order@)),
    {
        let ghost cs = self@.commits;
        let mut keys: Vec<i128> = Vec::new();
        let mut k: usize = 0;
        while k < order.len()
            invariant
                cs == self@.commits,
                ids_distinct(cs),
                forall|i: int| 0 <= i < order.len() ==> commit_index(cs, #[trigger] strs(order@)[i]) >= 0,
                k <= order.len(),
                ints(keys@) == time_keys(cs, strs(order@)).take(k as int),
            decreases order.len() - k,
        {
            let ghost before = ints(keys@);
            let ghost n = strs(order@)[k as int];
            assert(commit_index(cs, n) >= 0);
            match self.find_commit(&order[k]) {
                Some(j) => {
                    keys.push(self.commits[j].time as i128);
                },
                None => {
                    keys.push(0);
                },
            }
            assert(ints(keys@) =~= before.push(cs[commit_index(cs, n)].time as int));
            assert(ints(keys@) =~= time_keys(cs, strs(order@)).take(k + 1));
            k += 1;
        }
        assert(time_keys(cs, strs(order@)).take(keys.len() as int) =~= time_keys(cs, strs(order@)));
        keys
    }

    /// Adds the commit `id` (replacing one of that id) with the next time and files it by time
    /// into the commit order and into the commits of `branch`; an unknown branch is an error,
    /// after the first two steps.
    pub fn add_commit(&mut self, id: String, branch: String, message: String, parents: Vec<String>) -> (r: Result<(), String>)
        requires
            old(self).inv(),
            max_time(old(self)@.commits) < usize::MAX,
        ensures
            final(self).inv(),
            final(self)@ == spec_model_add_commit(old(self)@, id@, branch@, strs(parents@)).0,
            r is Ok <==> spec_model_add_commit(old(self)@, id@, branch@, strs(parents@)).1,
            r matches Err(e) ==> e@ == "Branch not found"@,
    {
        let ghost m0 = self@;
        let t = self.max_commit_time() + 1;
        proof {
            lemma_max_time_bound(m0.commits);
        }
        let c = Commit { id: id.clone(), time: t as usize, branch: branch.clone(), parents };
        proof {
            lemma_commit_index(m0.commits, id@);
        }
        match self.find_commit(&id) {
            Some(ci) => {
                self.commits.set(ci, c);
            },
            None => {
                self.commits.push(c);
            },
        }
        let ghost cs = self@.commits;
        let ghost full = spec_model_add_commit(m0, id@, branch@, strs(parents@));
        assert(cs =~= full.0.commits);
        let ghost pos = if commit_index(m0.commits, id@) >= 0 { commit_index(m0.commits, id@) } else { m0.commits.len() as int };
        assert(cs[pos].id == id@);
        assert forall|x: Seq<char>| commit_index(m0.commits, x) >= 0 implies #[trigger] commit_index(cs, x) >= 0 by {
            lemma_commit_index(m0.commits, x);
            let i = commit_index(m0.commits, x);
            assert(cs[i].id == x);
            lemma_commit_index(cs, x);
        }
        proof {
            lemma_commit_index(cs, id@);
            assert(ids_distinct(cs));
        }
        let keys = self.time_keys_of(&self.commit_order);
        proof {
            lemma_insert_pos_exists(time_keys(cs, m0.commit_order), t as int);
        }
        insert_object_into_sorted_list(&mut self.commit_order, id.clone(), &keys, t);
        assert(self@.commit_order == full.0.commit_order);
        proof {
            let co = self@.commit_order;
            let ip = insert_pos(time_keys(cs, m0.commit_order), t as int);
            assert forall|i: int| 0 <= i < co.len() implies commit_index(cs, #[trigger] co[i]) >= 0 by {
                if i < ip {
                    assert(co[i] == m0.commit_order[i]);
                } else if i > ip {
                    assert(co[i] == m0.commit_order[i - 1]);
                }
            }
            lemma_track_index(m0.branches, branch@);
        }
        match self.find_track(&branch) {
            None => {
                assert(self@ == full.0);
                assert forall|b: int, i: int| 0 <= b < self@.branches.len() && 0 <= i < self@.branches[b].commits.len() implies commit_index(
                    cs,
                    #[trigger] self@.branches[b].commits[i],
                ) >= 0 by {
                    assert(commit_index(m0.commits, m0.branches[b].commits[i]) >= 0);
                }
                Err(String::from_str("Branch not found"))
            },
            Some(bi) => {
                let ghost b0 = m0.branches[bi as int];
                assert(forall|i: int| 0 <= i < b0.commits.len() ==> commit_index(cs, #[trigger] b0.commits[i]) >= 0);
                let keys2 = self.time_keys_of(&self.branches[bi].commits);
                proof {
                    lemma_insert_pos_exists(time_keys(cs, b0.commits), t as int);
                }
                insert_object_into_sorted_list(&mut self.branches[bi].commits, id, &keys2, t);
                assert(self@.branches =~= full.0.branches);
                proof {
                    let nbc = self@.branches[bi as int].commits;
                    let ip = insert_pos(time_keys(cs, b0.commits), t as int);
                    assert forall|b: int, i: int| 0 <= b < self@.branches.len() && 0 <= i < self@.branches[b].commits.len() implies commit_index(
                        cs,
                        #[trigger] self@.branches[b].commits[i],
                    ) >= 0 by {
                        if b != bi {
                            assert(self@.branches[b] == m0.branches[b]);
                            assert(commit_index(m0.commits, m0.branches[b].commits[i]) >= 0);
                        } else if i < ip {
                            assert(nbc[i] == b0.commits[i]);
                        } else if i > ip {
                            assert(nbc[i] == b0.commits[i - 1]);
                        }
                    }
                    let nbs = self@.branches;
                    assert forall|i: int| 0 <= i < self@.branch_order.len() implies track_index(nbs, #[trigger] self@.branch_order[i]) >= 0 by {
                        let x = self@.branch_order[i];
                        assert(track_index(m0.branches, x) >= 0);
                        lemma_track_index(m0.branches, x);
                        let j = track_index(m0.branches, x);
                        assert(nbs[j].name == x);
                        lemma_track_index(nbs, x);
                    }
                    assert(tracks_distinct(nbs)) by {
                        assert forall|i: int, j: int| 0 <= i < nbs.len() && 0 <= j < nbs.len() && i != j implies nbs[i].name != nbs[j].name by {
                            assert(nbs[i].name == m0.branches[i].name);
                            assert(nbs[j].name == m0.branches[j].name);
                        }
                    }
                }
                Ok(())
            },
        }
    }

    fn commit_time(&self, id: &String) -> (r: usize)
        requires
            ids_distinct(self@.commits),
            commit_index(self@.commits, id@) >= 0,
        ensures
            r == time_of(self@.commits, id@),
    {
        match self.find_commit(id) {
            Some(j) => self.commits[j].time,
            None => 0,
        }
    }

    /// Whether branches `first` and `second` both exist, both have commits, and their time
    /// ranges meet.
    pub fn branches_overlap(&self, first: &String, second: &String) -> (r: bool)
        requires
            self.inv(),
        ensures
            r == tracks_overlap(self@, first@, second@),
    {
        let i = match self.find_track(first) {
            None => return false,
            Some(i) => i,
        };
        let j = match self.find_track(second) {
            None => return false,
            Some(j) => j,
        };
        let c1 = &self.branches[i].commits;
        let c2 = &self.branches[j].commits;
        if c1.len() == 0 || c2.len() == 0 {
            return false;
        }
        let ghost bs = self@.branches;
        assert(strs(c1@)[0] == c1@[0]@ && strs(c1@).last() == c1@[c1.len() - 1]@);
        assert(strs(c2@)[0] == c2@[0]@ && strs(c2@).last() == c2@[c2.len() - 1]@);
        assert(commit_index(self@.commits, bs[i as int].commits[0]) >= 0);
        assert(commit_index(self@.commits, bs[i as int].commits[c1.len() - 1]) >= 0);
        assert(commit_index(self@.commits, bs[j as int].commits[0]) >= 0);
        assert(commit_index(self@.commits, bs[j as int].commits[c2.len() - 1]) >= 0);
        let a0 = self.commit_time(&c1[0]);
        let a1 = self.commit_time(&c1[c1.len() - 1]);
        let b0 = self.commit_time(&c2[0]);
        let b1 = self.commit_time(&c2[c2.len() - 1]);
        if a0 > b1 {
            return false;
        }
        if b0 > a1 {
            return false;
        }
        true
    }

    /// The branches in columns: in branch order, each joins the first column whose branches
    /// it does not overlap in time, or opens a new column.
    pub fn calc_branch_columns(&self) -> (r: Vec<Vec<String>>)
        requires
            self.inv(),
        ensures
            cols_view(r@) == columns(self@, self@.branch_order.len() as int),
    {
        let mut result: Vec<Vec<String>> = Vec::new();
        let mut k: usize = 0;
        assert(cols_view(result@) =~= Seq::empty());
        while k < self.branch_order.len()
            invariant
                self.inv(),
                k <= self.branch_order.len(),
                cols_view(result@) == columns(self@, k as int),
            decreases self.branch_order.len() - k,
        {
            let name = &self.branch_order[k];
            let ghost cols = cols_view(result@);
            assert(self@.branch_order[k as int] == name@);
            let mut found: Option<usize> = None;
            let mut j: usize = 0;
            while j < result.len()
                invariant
                    self.inv(),
                    cols == cols_view(result@),
                    j <= result.len(),
                    found is None ==> forall|q: int| 0 <= q < j ==> !col_free(self@, cols, name@, q),
                    found matches Some(f) ==> first_free(self@, cols, name@, f as int),
                decreases result.len() - j,
            {
                if found.is_none() {
                    let col = &result[j];
                    let mut clash = false;
                    let mut x: usize = 0;
                    while x < col.len()
                        invariant
                            self.inv(),
                            cols == cols_view(result@),
                            j < result.len(),
                            col == &result[j as int],
                            x <= col.len(),
                            clash ==> !col_free(self@, cols, name@, j as int),
                            !clash ==> forall|y: int| 0 <= y < x ==> !tracks_overlap(self@, name@, #[trigger] cols[j as int][y]),
                        decreases col.len() - x,
                    {
                        assert(cols[j as int][x as int] == col@[x as int]@);
                        if self.branches_overlap(name, &col[x]) {
                            clash = true;
                        }
                        x += 1;
                    }
                    if !clash {
                        found = Some(j);
                    }
                }
                j += 1;
            }
            proof {
                if found is None {
                    assert forall|q: int| !first_free(self@, cols, name@, q) by {}
                } else {
                    let f = found.unwrap() as int;
                    let c = choose|q: int| first_free(self@, cols, name@, q);
                    if c < f {
                        assert(!col_free(self@, cols, name@, c));
                    } else if f < c {
                        assert(!col_free(self@, cols, name@, f));
                    }
                }
            }
            let ghost before = result@;
            match found {
                Some(f) => {
                    assert(place(self@, cols, name@) == cols.update(f as int, cols[f as int].push(name@)));
                    result[f].push(name.clone());
                    assert(strs(result@[f as int]@) =~= cols[f as int].push(name@));
                    assert forall|q: int| 0 <= q < result.len() && q != f implies result@[q] == before[q] by {}
                    assert(cols_view(result@) =~= cols.update(f as int, cols[f as int].push(name@)));
                },
                None => {
                    let mut v: Vec<String> = Vec::new();
                    v.push(name.clone());
                    assert(strs(v@) =~= seq![name@]);
                    assert(place(self@, cols, name@) == cols.push(seq![name@]));
                    result.push(v);
                    assert(cols_view(result@) =~= cols.push(seq![name@]));
                },
            }
            assert(cols_view(result@) =~= place(self@, cols, name@));
            k += 1;
        }
        result
    }

    /// The last commit of the branch `branch_name`.
    pub fn get_branch_last_commit(&self, branch_name: &String) -> (r: Option<&String>)
        requires
            self.inv(),
        ensures
            ({
                let i = track_index(self@.branches, branch_name@);
                crate::model::repo::opt_ref(r) == if i >= 0 && self@.branches[i].commits.len() > 0 {
                    Some(self@.branches[i].commits.last())
                } else {
                    None
                }
            }),
    {
        match self.find_track(branch_name) {
            Some(i) => self.branches[i].commits.last(),
            None => None,
        }
    }
}

} // verus!
