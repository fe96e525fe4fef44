use crate::model::repo::{
    branch_index, commit_index, dense, empty_repo, ids_distinct, lemma_add_branch_inv, lemma_branch_index,
    lemma_branch_index_at, lemma_checkout_inv, lemma_commit_index, lemma_commit_index_at, lemma_merge_inv,
    lemma_with_active, merge_parents, repo_inv, resolve_source, resolve_sources, spec_add_branch,
    spec_apply_all, spec_branch_head, spec_checkout, spec_current_commit, spec_merge, with_active, CommitV,
    RepoV,
};
use crate::model::view::{
    first_parent, head_index, heads_at, lane, lane_of, lays_out, lemma_lane_owner, lemma_run_owned, run, same_lane,
    usizes, View,
};
use crate::options::layout::{LayoutDirection, LayoutOptions};
use crate::printer::pikchr::{
    all_edges_text, boxes_text, edge_text, edges_text, first_circle_text, group_text, heads_text, join, lane_text,
    lanes_text, pikchr_text, prologue_text, steps_text,
};
use crate::printer::text::nat_text;
use crate::parser::instructions::instruction::InstrV;
use vstd::prelude::*;
use vstd::view::View as _;

verus! {

/// Each commit instruction of `s`, applied after `r`, names an id that is not stored yet.
pub open spec fn ids_new(r: RepoV, s: Seq<InstrV>) -> bool
    decreases s.len(),
{
    s.len() == 0 || (ids_new(r, s.drop_last()) && match s.last() {
        InstrV::Commit(id) => commit_index(spec_apply_all(r, s.drop_last()).commits, id) == -1,
        InstrV::Merge(id, _) => commit_index(spec_apply_all(r, s.drop_last()).commits, id) == -1,
        _ => true,
    })
}

/// Each branch instruction of `s`, applied after `r`, names a branch that does not exist yet.
pub open spec fn names_new(r: RepoV, s: Seq<InstrV>) -> bool
    decreases s.len(),
{
    s.len() == 0 || (names_new(r, s.drop_last()) && match s.last() {
        InstrV::Branch(name, _) => branch_index(spec_apply_all(r, s.drop_last()).branches, name) == -1,
        _ => true,
    })
}

/// The ids that the commit instructions of `s` name, in order.
pub open spec fn made_ids(s: Seq<InstrV>) -> Seq<Seq<char>>
    decreases s.len(),
{
    if s.len() == 0 {
        Seq::empty()
    } else {
        made_ids(s.drop_last()) + match s.last() {
            InstrV::Commit(id) => seq![id],
            InstrV::Merge(id, _) => seq![id],
            _ => Seq::empty(),
        }
    }
}

/// Every commit lies in some lane.
pub open spec fn covered(r: RepoV) -> bool {
    forall|i: int| 0 <= i < r.commits.len() ==> lane_of(r, i) >= 0
}

/// A merge with a new id appends one commit, whose time is its position.
pub proof fn lemma_merge_fresh(r: RepoV, id: Seq<char>, ss: Seq<Seq<char>>)
    requires
        repo_inv(r),
        dense(r),
        commit_index(r.commits, id) == -1,
    ensures
        spec_merge(r, id, ss).commits == r.commits.push(
            CommitV {
                id,
                time: r.commits.len() as nat,
                branch: with_active(r).head.unwrap(),
                parents: merge_parents(with_active(r), ss),
            },
        ),
        repo_inv(spec_merge(r, id, ss)),
        dense(spec_merge(r, id, ss)),
{
    lemma_with_active(r);
    lemma_merge_inv(r, id, ss);
    let r1 = with_active(r);
    let n = spec_merge(r, id, ss);
    let cs = r.commits;
    let ns = n.commits;
    assert forall|i: int, k: int| 0 <= i < ns.len() && 0 <= k < ns[i].parents.len() implies commit_index(
        ns,
        #[trigger] ns[i].parents[k],
    ) < i by {
        let p = ns[i].parents[k];
        if i < cs.len() {
            assert(commit_index(cs, p) < i);
            lemma_commit_index(cs, p);
            lemma_commit_index_at(ns, p, commit_index(cs, p));
        } else {
            assert(commit_index(ns, p) >= 0);
            lemma_commit_index(ns, p);
            if commit_index(ns, p) == i {
                assert(p == id);
                crate::model::repo::lemma_resolve_sources_known(r1, ss);
                let h = if spec_current_commit(r1) is Some { 1int } else { 0int };
                if k >= h {
                    assert(p == resolve_sources(r1, ss)[k - h]);
                    assert(commit_index(cs, p) >= 0);
                } else {
                    lemma_branch_index(r1.branches, r1.head.unwrap());
                    assert(commit_index(cs, p) >= 0);
                }
            }
        }
    }
}

/// An id known before a commit is appended keeps its position.
pub proof fn lemma_index_after_push(cs: Seq<CommitV>, c: CommitV, x: Seq<char>)
    requires
        ids_distinct(cs.push(c)),
        commit_index(cs, x) >= 0,
    ensures
        commit_index(cs.push(c), x) == commit_index(cs, x),
{
    lemma_commit_index(cs, x);
    lemma_commit_index_at(cs.push(c), x, commit_index(cs, x));
}

/// Appending a commit leaves the runs that end before it unchanged.
pub proof fn lemma_run_after_push(cs: Seq<CommitV>, c: CommitV, j: int, name: Seq<char>)
    requires
        ids_distinct(cs.push(c)),
        forall|i: int, k: int|
            0 <= i < cs.len() && 0 <= k < cs[i].parents.len() ==> commit_index(cs, #[trigger] cs[i].parents[k]) >= 0,
        j < cs.len(),
    ensures
        run(cs.push(c), j, name) == run(cs, j, name),
    decreases j + 1,
{
    let ns = cs.push(c);
    if 0 <= j && cs[j].branch == name {
        assert(ns[j] == cs[j]);
        if cs[j].parents.len() > 0 {
            assert(commit_index(cs, cs[j].parents[0]) >= 0);
            lemma_index_after_push(cs, c, cs[j].parents[0]);
        }
        assert(first_parent(ns, j) == first_parent(cs, j));
        let p = first_parent(cs, j);
        if -1 <= p < j {
            lemma_run_after_push(cs, c, p, name);
        }
    }
}

/// Creating a branch of a new name keeps every commit in its lane.
pub proof fn lemma_add_branch_covered(r: RepoV, name: Seq<char>, reference: Option<Seq<char>>)
    requires
        repo_inv(r),
        covered(r),
        branch_index(r.branches, name) == -1,
    ensures
        covered(spec_add_branch(r, name, reference)),
{
    let n = spec_add_branch(r, name, reference);
    lemma_add_branch_inv(r, name, reference);
    lemma_branch_index(r.branches, name);
    assert forall|i: int| 0 <= i < n.commits.len() implies lane_of(n, i) >= 0 by {
        let o = r.commits[i].branch;
        assert(lane_of(r, i) >= 0);
        let b = branch_index(r.branches, o);
        lemma_branch_index(r.branches, o);
        assert(n.branches[b] == r.branches[b]);
        lemma_branch_index_at(n.branches, o, b);
        assert(head_index(n, b) == head_index(r, b));
        assert(lane(n, b) == lane(r, b));
    }
}

/// Checking out keeps every commit in its lane.
pub proof fn lemma_checkout_covered(r: RepoV, name: Seq<char>)
    requires
        repo_inv(r),
        covered(r),
    ensures
        covered(spec_checkout(r, name, None)),
{
    lemma_branch_index(r.branches, name);
    if branch_index(r.branches, name) < 0 {
        lemma_add_branch_covered(r, name, None);
    }
    let n = spec_checkout(r, name, None);
    let m = if branch_index(r.branches, name) >= 0 { r } else { spec_add_branch(r, name, None) };
    assert forall|i: int| 0 <= i < n.commits.len() implies lane_of(n, i) >= 0 by {
        assert(lane_of(m, i) >= 0);
        let b = branch_index(m.branches, m.commits[i].branch);
        assert(lane(n, b) == lane(m, b));
    }
}

/// A merge with a new id keeps every commit in its lane and puts the new one in the lane of
/// the active branch.
pub proof fn lemma_merge_covered(r: RepoV, id: Seq<char>, ss: Seq<Seq<char>>)
    requires
        repo_inv(r),
        dense(r),
        covered(r),
        commit_index(r.commits, id) == -1,
    ensures
        covered(spec_merge(r, id, ss)),
{
    let r1 = with_active(r);
    lemma_with_active(r);
    if r.head is None {
        lemma_checkout_covered(r, "main"@);
    }
    lemma_merge_fresh(r, id, ss);
    let n = spec_merge(r, id, ss);
    let cs = r1.commits;
    let c = n.commits.last();
    assert(n.commits == cs.push(c));
    let x = r1.head.unwrap();
    let bx = branch_index(r1.branches, x);
    lemma_branch_index(r1.branches, x);
    lemma_branch_index_at(n.branches, x, bx);
    assert(n.branches[bx].head == Some(id));
    lemma_commit_index_at(n.commits, id, cs.len() as int);
    assert(head_index(n, bx) == cs.len());
    // The new lane of the active branch extends the old one.
    let nl = lane(n, bx);
    let ol = lane(r1, bx);
    assert(n.commits[cs.len() as int].branch == x);
    let fp = first_parent(n.commits, cs.len() as int);
    assert(-1 <= fp < cs.len()) by {
        if c.parents.len() > 0 {
            assert(commit_index(n.commits, c.parents[0]) < cs.len());
            lemma_commit_index(n.commits, c.parents[0]);
        }
    }
    assert(nl == run(n.commits, fp, x).push(cs.len() as int));
    lemma_run_after_push(cs, c, fp, x);
    if r1.branches[bx].head is Some {
        let h = r1.branches[bx].head.unwrap();
        assert(spec_current_commit(r1) == Some(h));
        assert(c.parents[0] == h);
        assert(commit_index(cs, h) >= 0);
        lemma_index_after_push(cs, c, h);
        assert(fp == head_index(r1, bx));
        assert(nl == ol.push(cs.len() as int));
    }
    assert forall|i: int| 0 <= i < n.commits.len() implies lane_of(n, i) >= 0 by {
        if i == cs.len() {
            assert(nl.last() == i);
            assert(nl.contains(i));
            lemma_branch_index_at(n.branches, n.commits[i].branch, bx);
        } else {
            assert(lane_of(r1, i) >= 0);
            let o = cs[i].branch;
            let b = branch_index(r1.branches, o);
            lemma_branch_index(r1.branches, o);
            lemma_branch_index_at(n.branches, o, b);
            assert(n.commits[i] == cs[i]);
            if b == bx {
                if r1.branches[bx].head is None {
                    assert(ol =~= Seq::<int>::empty());
                    assert(!ol.contains(i));
                }
                let k = choose|k: int| 0 <= k < ol.len() && ol[k] == i;
                assert(nl[k] == i);
            } else {
                assert(n.branches[b] == r1.branches[b]);
                if let Some(h) = r1.branches[b].head {
                    lemma_index_after_push(cs, c, h);
                }
                assert(head_index(n, b) == head_index(r1, b));
                lemma_run_owned(cs, head_index(r1, b), o);
                lemma_run_after_push(cs, c, head_index(r1, b), o);
                assert(lane(n, b) == lane(r1, b));
            }
        }
    }
}

/// Commit times follow creation: the k-th commit made sits at position k with time k, so
/// times are unique and run from 0 without gaps, as long as no commit id is used twice.
pub proof fn law_commit_times(s: Seq<InstrV>)
    requires
        ids_new(empty_repo(), s),
    ensures
        ({
            let r = spec_apply_all(empty_repo(), s);
            &&& repo_inv(r)
            &&& dense(r)
            &&& r.commits.len() == made_ids(s).len()
            &&& forall|k: int| 0 <= k < r.commits.len() ==> #[trigger] r.commits[k].time == k && r.commits[k].id == made_ids(s)[k]
        }),
    decreases s.len(),
{
    if s.len() == 0 {
        let r = empty_repo();
        assert(r.branches =~= Seq::empty());
    } else {
        law_commit_times(s.drop_last());
        let r0 = spec_apply_all(empty_repo(), s.drop_last());
        match s.last() {
            InstrV::Branch(name, _) => {
                lemma_add_branch_inv(r0, name, None);
            },
            InstrV::Checkout(name) => {
                lemma_checkout_inv(r0, name, None);
            },
            InstrV::Commit(id) => {
                lemma_merge_fresh(r0, id, Seq::empty());
            },
            InstrV::Merge(id, ss) => {
                lemma_merge_fresh(r0, id, ss);
            },
        }
    }
}

/// In a history that never reuses a commit id and never re-creates a branch, every commit
/// lies in exactly one lane, and the lanes hold nothing but commits.
pub proof fn law_lanes_partition(s: Seq<InstrV>)
    requires
        ids_new(empty_repo(), s),
        names_new(empty_repo(), s),
    ensures
        ({
            let r = spec_apply_all(empty_repo(), s);
            &&& forall|i: int|
                0 <= i < r.commits.len() ==> lane_of(r, i) >= 0 && lane(r, lane_of(r, i)).contains(i)
                    && forall|b: int| 0 <= b < r.branches.len() && #[trigger] lane(r, b).contains(i) ==> b == lane_of(r, i)
            &&& forall|b: int, k: int|
                0 <= b < r.branches.len() && 0 <= k < lane(r, b).len() ==> 0 <= #[trigger] lane(r, b)[k] < r.commits.len()
        }),
{
    lemma_covered_run(s);
    law_commit_times(s);
    let r = spec_apply_all(empty_repo(), s);
    assert forall|i: int| 0 <= i < r.commits.len() implies lane_of(r, i) >= 0 && lane(r, lane_of(r, i)).contains(i)
        && forall|b: int| 0 <= b < r.branches.len() && #[trigger] lane(r, b).contains(i) ==> b == lane_of(r, i) by {
        assert forall|b: int| 0 <= b < r.branches.len() && #[trigger] lane(r, b).contains(i) implies b == lane_of(r, i) by {
            lemma_lane_owner(r, b, i);
        }
    }
    assert forall|b: int, k: int| 0 <= b < r.branches.len() && 0 <= k < lane(r, b).len() implies 0 <= #[trigger] lane(r, b)[k] < r.commits.len() by {
        lemma_run_owned(r.commits, head_index(r, b), r.branches[b].name);
        lemma_commit_index(r.commits, r.branches[b].head.unwrap_or(Seq::empty()));
    }
}

proof fn lemma_covered_run(s: Seq<InstrV>)
    requires
        ids_new(empty_repo(), s),
        names_new(empty_repo(), s),
    ensures
        covered(spec_apply_all(empty_repo(), s)),
    decreases s.len(),
{
    if s.len() > 0 {
        lemma_covered_run(s.drop_last());
        law_commit_times(s.drop_last());
        let r0 = spec_apply_all(empty_repo(), s.drop_last());
        match s.last() {
            InstrV::Branch(name, _) => {
                lemma_add_branch_covered(r0, name, None);
            },
            InstrV::Checkout(name) => {
                lemma_checkout_covered(r0, name);
            },
            InstrV::Commit(id) => {
                lemma_merge_covered(r0, id, Seq::empty());
            },
            InstrV::Merge(id, ss) => {
                lemma_merge_covered(r0, id, ss);
            },
        }
    }
}

/// A merge puts the active commit first among the new commit's parents, then what each
/// source contributes, in the order the sources are given.
pub proof fn law_merge_parents(r: RepoV, id: Seq<char>, ss: Seq<Seq<char>>)
    requires
        repo_inv(r),
    ensures
        ({
            let r1 = with_active(r);
            let n = spec_merge(r, id, ss);
            let c = n.commits[commit_index(n.commits, id)];
            &&& commit_index(n.commits, id) >= 0
            &&& c.id == id
            &&& c.branch == r1.head.unwrap()
            &&& c.parents == merge_parents(r1, ss)
            &&& spec_current_commit(r1) matches Some(h) ==> c.parents[0] == h
            &&& forall|j: int|
                0 <= j < ss.len() ==> resolve_sources(r1, #[trigger] ss.take(j + 1)) == resolve_sources(r1, ss.take(j))
                    + resolve_source(r1, ss[j])
        }),
{
    lemma_merge_inv(r, id, ss);
    lemma_with_active(r);
    let r1 = with_active(r);
    let n = spec_merge(r, id, ss);
    let ci = commit_index(r1.commits, id);
    lemma_commit_index(r1.commits, id);
    let pos = if ci >= 0 { ci } else { r1.commits.len() as int };
    assert(n.commits[pos].id == id);
    lemma_commit_index_at(n.commits, id, pos);
    assert forall|j: int| 0 <= j < ss.len() implies resolve_sources(r1, #[trigger] ss.take(j + 1)) == resolve_sources(r1, ss.take(j))
        + resolve_source(r1, ss[j]) by {
        assert(ss.take(j + 1).drop_last() =~= ss.take(j));
    }
}

/// A branch created without a reference points at the active commit, and the first branch
/// created becomes the active one.
pub proof fn law_new_branch(r: RepoV, name: Seq<char>)
    requires
        repo_inv(r),
    ensures
        spec_branch_head(spec_add_branch(r, name, None), name) == spec_current_commit(r),
        r.branches.len() == 0 ==> spec_add_branch(r, name, None).head == Some(name),
{
    let n = spec_add_branch(r, name, None);
    lemma_add_branch_inv(r, name, None);
    lemma_branch_index(r.branches, name);
    let i = if branch_index(r.branches, name) >= 0 { branch_index(r.branches, name) } else { r.branches.len() as int };
    assert(n.branches[i].name == name);
    lemma_branch_index_at(n.branches, name, i);
    if r.branches.len() == 0 {
        assert(r.head is None);
    }
}

/// A parent link inside a lane joins two commits of one lane, and the diagram draws no
/// separate arrow for it.
pub proof fn law_in_lane_edge(v: View, r: RepoV, o: LayoutOptions, i: int, k: int)
    requires
        crate::model::repo::well_formed(r),
        lays_out(v, r),
        0 <= i < v.commits.len(),
        0 <= k < v.commits[i].parents.len(),
        v.commits[i].parents[k].in_lane,
    ensures
        same_lane(r, i, v.commits[i].parents[k].commit as int),
        lane_of(r, i) >= 0,
        lane_of(r, i) == lane_of(r, v.commits[i].parents[k].commit as int),
        edge_text(v, o, i, k) == Seq::<char>::empty(),
{
    let p = v.commits[i].parents[k].commit as int;
    let b = choose|b: int| 0 <= b < r.branches.len() && lane(r, b).contains(i) && lane(r, b).contains(p);
    lemma_lane_owner(r, b, i);
    lemma_lane_owner(r, b, p);
}

/// With the default options, a store of one branch pointing at its one commit is drawn as
/// exactly one circle placed absolutely, no arrow, and the branch's label.
#[verifier::rlimit(80)]
pub proof fn law_single_commit_diagram(r: RepoV, v: View, o: LayoutOptions)
    requires
        crate::model::repo::well_formed(r),
        lays_out(v, r),
        r.branches.len() == 1,
        r.commits.len() == 1,
        r.branches[0].head == Some(r.commits[0].id),
        r.commits[0].branch == r.branches[0].name,
        r.branches[0].priority == 0,
        o.graph_direction == LayoutDirection::UP,
        o.commit_hist_dist == 3,
        o.branch_dist == 2,
        o.commit_radius == 1,
    ensures
        ({
            let id = r.commits[0].id;
            let name = r.branches[0].name;
            pikchr_text(v, o) == "down\n"@ + "circlerad = "@ + "1"@ + "cm\n"@ + "// branch: "@ + name + "\n"@
                + "circle \""@ + id + "\" at ("@ + "0"@ + "cm, "@ + "0"@ + "cm)\n"@ + "// out of branch parents\n"@
                + "// branch heads\n"@ + "boxht = 0;\n"@ + "right\n"@ + "line from "@ + id + " to ("@ + "2"@
                + "cm, "@ + id + ".y) chop\n"@ + "box \""@ + name + "\"\n"@
        }),
{
    let cs = r.commits;
    let id = cs[0].id;
    let name = r.branches[0].name;
    lemma_commit_index(cs, id);
    crate::model::repo::lemma_commit_index_at(cs, id, 0);
    assert(head_index(r, 0) == 0);
    if cs[0].parents.len() > 0 {
        assert(commit_index(cs, cs[0].parents[0]) < 0);
        assert(commit_index(cs, cs[0].parents[0]) >= 0);
    }
    assert(first_parent(cs, 0) == -1);
    assert(run(cs, -1, name) =~= Seq::<int>::empty());
    assert(lane(r, 0) =~= seq![0int]);
    assert(usizes(v.lanes[0].commits@) == lane(r, 0));
    assert(v.lanes[0].commits.len() == 1);
    assert(usizes(v.lanes[0].commits@)[0] == v.lanes[0].commits@[0] as int);
    assert(v.lanes[0].commits[0] == 0);
    assert(v.lanes[0].col == 0);
    assert(v.commits[0].time == 0);
    assert(v.commits[0].id@ == id);
    assert(v.commits[0].parents.len() == 0);
    assert(join(v.lanes[0].branch_names@) == name);
    assert(nat_text(1) == "1"@);
    assert(nat_text(0) == "0"@);
    assert(nat_text(2) == "2"@);
    assert(prologue_text(o) == "down\n"@ + "circlerad = "@ + "1"@ + "cm\n"@);
    assert(first_circle_text(v, o, 0) == "circle \""@ + id + "\" at ("@ + "0"@ + "cm, "@ + "0"@ + "cm)\n"@);
    assert(steps_text(v, o, 0, 1) == Seq::<char>::empty());
    assert(lanes_text(v, o, 0) == Seq::<char>::empty());
    assert(lanes_text(v, o, 1) == lane_text(v, o, 0));
    assert(edges_text(v, o, 0, 0) == Seq::<char>::empty());
    assert(all_edges_text(v, o, 0) == Seq::<char>::empty());
    assert(all_edges_text(v, o, 1) == Seq::<char>::empty());
    assert(heads_at(r, 0, 0) == Seq::<int>::empty());
    assert(heads_at(r, 0, 1) =~= seq![0int]);
    assert(usizes(v.commits_branch_heads[0]@) == heads_at(r, 0, 1));
    assert(v.commits_branch_heads[0].len() == 1);
    assert(usizes(v.commits_branch_heads[0]@)[0] == v.commits_branch_heads[0]@[0] as int);
    assert(v.commits_branch_heads[0][0] == 0);
    assert(v.branches[0].name@ == name);
    assert(boxes_text(v, 0, 0) == Seq::<char>::empty());
    assert(boxes_text(v, 0, 1) == "box \""@ + name + "\"\n"@);
    assert(heads_text(v, o, 0) == Seq::<char>::empty());
    assert(heads_text(v, o, 1) == group_text(v, o, 0));
    assert(v.lanes.len() == 1);
    assert(v.commits.len() == 1);
    assert(pikchr_text(v, o) =~= "down\n"@ + "circlerad = "@ + "1"@ + "cm\n"@ + "// branch: "@ + name + "\n"@
        + "circle \""@ + id + "\" at ("@ + "0"@ + "cm, "@ + "0"@ + "cm)\n"@ + "// out of branch parents\n"@
        + "// branch heads\n"@ + "boxht = 0;\n"@ + "right\n"@ + "line from "@ + id + " to ("@ + "2"@ + "cm, "@
        + id + ".y) chop\n"@ + "box \""@ + name + "\"\n"@);
}

} // verus!
