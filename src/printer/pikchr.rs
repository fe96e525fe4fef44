use crate::model::view::{view_wf, View};
use crate::options::layout::{LayoutDirection, LayoutOptions};
use crate::printer::errors::Error;
use crate::printer::text::{int_text, nat_text, put, put_diff, put_nat};
use vstd::prelude::*;
use vstd::view::View as _;

verus! {

/// Names joined by ", ".
pub open spec fn join(names: Seq<String>) -> Seq<char>
    decreases names.len(),
{
    if names.len() == 0 {
        Seq::empty()
    } else if names.len() == 1 {
        names[0]@
    } else {
        join(names.drop_last()) + ", "@ + names.last()@
    }
}

pub open spec fn prologue_text(o: LayoutOptions) -> Seq<char> {
    (if o.graph_direction == LayoutDirection::UP {
        "down\n"@
    } else {
        Seq::empty()
    }) + "circlerad = "@ + nat_text(o.commit_radius as nat) + "cm\n"@
}

pub open spec fn cid(v: View, i: int) -> Seq<char> {
    v.commits[i].id@
}

pub open spec fn ctime(v: View, i: int) -> int {
    v.commits[i].time as int
}

/// The first commit of lane `b`, placed absolutely.
pub open spec fn first_circle_text(v: View, o: LayoutOptions, b: int) -> Seq<char> {
    let c = v.lanes[b].commits[0] as int;
    "circle \""@ + cid(v, c) + "\" at ("@ + nat_text((v.lanes[b].col * o.branch_dist) as nat) + "cm, "@
        + nat_text((ctime(v, c) * o.commit_hist_dist) as nat) + "cm)\n"@
}

/// The `k`-th commit of lane `b`, after an arrow from the one before whose length leaves
/// out both radii.
pub open spec fn step_text(v: View, o: LayoutOptions, b: int, k: int) -> Seq<char> {
    let c = v.lanes[b].commits[k] as int;
    let p = v.lanes[b].commits[k - 1] as int;
    "arrow "@ + int_text((ctime(v, c) - ctime(v, p)) * o.commit_hist_dist - 2 * o.commit_radius)
        + "cm chop\n"@ + "circle \""@ + cid(v, c) + "\"\n"@
}

pub open spec fn steps_text(v: View, o: LayoutOptions, b: int, m: int) -> Seq<char>
    decreases m,
{
    if m <= 1 {
        Seq::empty()
    } else {
        steps_text(v, o, b, m - 1) + step_text(v, o, b, m - 1)
    }
}

pub open spec fn lane_text(v: View, o: LayoutOptions, b: int) -> Seq<char> {
    "// branch: "@ + join(v.lanes[b].branch_names@) + "\n"@ + if v.lanes[b].commits.len() == 0 {
        Seq::empty()
    } else {
        first_circle_text(v, o, b) + steps_text(v, o, b, v.lanes[b].commits.len() as int)
    }
}

pub open spec fn lanes_text(v: View, o: LayoutOptions, m: int) -> Seq<char>
    decreases m,
{
    if m <= 0 {
        Seq::empty()
    } else {
        lanes_text(v, o, m - 1) + lane_text(v, o, m - 1)
    }
}

/// The arrow for parent link `k` of commit `i`: none inside a lane; across lanes an elbow
/// beside the child where only the child ends its lane, beside the parent where only the
/// parent starts its lane, and a straight arrow otherwise.
pub open spec fn edge_text(v: View, o: LayoutOptions, i: int, k: int) -> Seq<char> {
    let p = v.commits[i].parents[k];
    let pc = p.commit as int;
    let d = (ctime(v, i) - ctime(v, pc)) * o.commit_hist_dist - o.branch_dist;
    if p.in_lane {
        Seq::empty()
    } else if p.begins_lane && !p.ends_lane {
        "arrow from "@ + cid(v, i) + " chop then to "@ + int_text(d) + "cm below "@ + cid(v, i) + " then to "@
            + cid(v, pc) + " chop\n"@
    } else if !p.begins_lane && p.ends_lane {
        "arrow from "@ + cid(v, i) + " chop then to "@ + int_text(d) + "cm above "@ + cid(v, pc) + " then to "@
            + cid(v, pc) + " chop\n"@
    } else {
        "arrow from "@ + cid(v, i) + " to "@ + cid(v, pc) + " chop\n"@
    }
}

pub open spec fn edges_text(v: View, o: LayoutOptions, i: int, m: int) -> Seq<char>
    decreases m,
{
    if m <= 0 {
        Seq::empty()
    } else {
        edges_text(v, o, i, m - 1) + edge_text(v, o, i, m - 1)
    }
}

pub open spec fn all_edges_text(v: View, o: LayoutOptions, m: int) -> Seq<char>
    decreases m,
{
    if m <= 0 {
        Seq::empty()
    } else {
        all_edges_text(v, o, m - 1) + edges_text(v, o, m - 1, v.commits[m - 1].parents.len() as int)
    }
}

pub open spec fn boxes_text(v: View, i: int, m: int) -> Seq<char>
    decreases m,
{
    if m <= 0 {
        Seq::empty()
    } else {
        boxes_text(v, i, m - 1) + "box \""@ + v.branches[v.commits_branch_heads[i][m - 1] as int].name@ + "\"\n"@
    }
}

/// The labels of the branches whose head is commit `i`, in a row beside the lanes.
pub open spec fn group_text(v: View, o: LayoutOptions, i: int) -> Seq<char> {
    let g = v.commits_branch_heads[i];
    if g.len() == 0 {
        Seq::empty()
    } else {
        "right\n"@ + "line from "@ + cid(v, i) + " to ("@ + nat_text((v.lanes.len() * o.branch_dist) as nat)
            + "cm, "@ + cid(v, i) + ".y) chop\n"@ + boxes_text(v, i, g.len() as int)
    }
}

pub open spec fn heads_text(v: View, o: LayoutOptions, m: int) -> Seq<char>
    decreases m,
{
    if m <= 0 {
        Seq::empty()
    } else {
        heads_text(v, o, m - 1) + group_text(v, o, m - 1)
    }
}

/// The whole diagram.
pub open spec fn pikchr_text(v: View, o: LayoutOptions) -> Seq<char> {
    prologue_text(o) + lanes_text(v, o, v.lanes.len() as int) + "// out of branch parents\n"@
        + all_edges_text(v, o, v.commits.len() as int) + "// branch heads\n"@ + "boxht = 0;\n"@
        + heads_text(v, o, v.commits.len() as int)
}

fn wide_mul(a: usize, b: usize) -> (r: u128)
    ensures
        r == a * b,
        r <= usize::MAX * usize::MAX,
{
    proof {
        assert(a * b <= usize::MAX * usize::MAX) by (nonlinear_arith)
            requires
                a <= usize::MAX,
                b <= usize::MAX,
        ;
        assert(usize::MAX * usize::MAX <= 0xffff_ffff_ffff_ffffu128 * 0xffff_ffff_ffff_ffffu128) by (nonlinear_arith)
            requires
                usize::MAX <= 0xffff_ffff_ffff_ffffu128,
        ;
    }
    (a as u128) * (b as u128)
}

/// Appends `(t1 - t0) * scale - sub` in decimal.
fn put_scaled_diff(out: &mut String, t1: usize, t0: usize, scale: usize, sub: u128)
    requires
        sub <= 2 * usize::MAX,
    ensures
        final(out)@ == old(out)@ + int_text((t1 - t0) * scale - sub),
{
    if t1 >= t0 {
        let a = wide_mul(t1 - t0, scale);
        put_diff(out, a, sub);
    } else {
        let a = wide_mul(t0 - t1, scale);
        assert(a + sub <= u128::MAX) by (nonlinear_arith)
            requires
                a <= usize::MAX * usize::MAX,
                sub <= 2 * usize::MAX,
                usize::MAX <= 0xffff_ffff_ffff_ffffu128,
        ;
        put_diff(out, 0, a + sub);
        assert((t1 - t0) * scale == -((t0 - t1) * scale)) by (nonlinear_arith);
    }
}

/// Writes the diagram of a laid-out history.
pub fn print_pikchr(view: &View, options: &LayoutOptions) -> (r: Result<String, Error>)
    requires
        view_wf(*view),
    ensures
        r matches Ok(s) && s@ == pikchr_text(*view, *options),
{
    let v = view;
    let o = options;
    let mut out = String::new();
    match o.graph_direction {
        LayoutDirection::UP => put(&mut out, "down\n"),
        LayoutDirection::RIGHT => {},
    }
    put(&mut out, "circlerad = ");
    put_nat(&mut out, o.commit_radius as u128);
    put(&mut out, "cm\n");
    assert(out@ =~= prologue_text(*o));
    // Lanes.
    let mut b: usize = 0;
    while b < v.lanes.len()
        invariant
            view_wf(*v),
            b <= v.lanes.len(),
            out@ == prologue_text(*o) + lanes_text(*v, *o, b as int),
        decreases v.lanes.len() - b,
    {
        let ghost base = out@;
        let lane = &v.lanes[b];
        put(&mut out, "// branch: ");
        let mut q: usize = 0;
        while q < lane.branch_names.len()
            invariant
                q <= lane.branch_names.len(),
                out@ == base + "// branch: "@ + join(lane.branch_names@.take(q as int)),
            decreases lane.branch_names.len() - q,
        {
            let ghost names = lane.branch_names@;
            assert(names.take(q + 1).drop_last() =~= names.take(q as int));
            if q > 0 {
                put(&mut out, ", ");
            } else {
                assert(names.take(0) =~= Seq::<String>::empty());
            }
            put(&mut out, lane.branch_names[q].as_str());
            assert(out@ =~= base + "// branch: "@ + join(names.take(q + 1)));
            q += 1;
        }
        assert(lane.branch_names@.take(lane.branch_names.len() as int) =~= lane.branch_names@);
        put(&mut out, "\n");
        let ghost head = base + "// branch: "@ + join(lane.branch_names@) + "\n"@;
        assert(out@ =~= head);
        if lane.commits.len() > 0 {
            let c0 = lane.commits[0];
            put(&mut out, "circle \"");
            put(&mut out, v.commits[c0].id.as_str());
            put(&mut out, "\" at (");
            let x = wide_mul(lane.col, o.branch_dist);
            put_nat(&mut out, x);
            put(&mut out, "cm, ");
            let y = wide_mul(v.commits[c0].time, o.commit_hist_dist);
            put_nat(&mut out, y);
            put(&mut out, "cm)\n");
            assert(out@ =~= head + first_circle_text(*v, *o, b as int));
            let mut k: usize = 1;
            while k < lane.commits.len()
                invariant
                    view_wf(*v),
                    b < v.lanes.len(),
                    lane == &v.lanes[b as int],
                    1 <= k <= lane.commits.len(),
                    out@ == head + first_circle_text(*v, *o, b as int) + steps_text(*v, *o, b as int, k as int),
                decreases lane.commits.len() - k,
            {
                let ghost before = out@;
                let c = lane.commits[k];
                let p = lane.commits[k - 1];
                put(&mut out, "arrow ");
                let two_r = 2 * (o.commit_radius as u128);
                put_scaled_diff(&mut out, v.commits[c].time, v.commits[p].time, o.commit_hist_dist, two_r);
                put(&mut out, "cm chop\n");
                put(&mut out, "circle \"");
                put(&mut out, v.commits[c].id.as_str());
                put(&mut out, "\"\n");
                assert(out@ =~= before + step_text(*v, *o, b as int, k as int));
                k += 1;
            }
        }
        assert(out@ =~= base + lane_text(*v, *o, b as int));
        b += 1;
    }
    put(&mut out, "// out of branch parents\n");
    let ghost part1 = prologue_text(*o) + lanes_text(*v, *o, v.lanes.len() as int) + "// out of branch parents\n"@;
    assert(out@ =~= part1);
    // Arrows between lanes.
    let mut i: usize = 0;
    while i < v.commits.len()
        invariant
            view_wf(*v),
            i <= v.commits.len(),
            out@ == part1 + all_edges_text(*v, *o, i as int),
        decreases v.commits.len() - i,
    {
        let ghost base = out@;
        let c = &v.commits[i];
        let mut k: usize = 0;
        while k < c.parents.len()
            invariant
                view_wf(*v),
                i < v.commits.len(),
                c == &v.commits[i as int],
                k <= c.parents.len(),
                out@ == base + edges_text(*v, *o, i as int, k as int),
            decreases c.parents.len() - k,
        {
            let ghost before = out@;
            let p = &c.parents[k];
            let pc = p.commit;
            if p.in_lane {
            } else if p.begins_lane && !p.ends_lane {
                put(&mut out, "arrow from ");
                put(&mut out, c.id.as_str());
                put(&mut out, " chop then to ");
                put_scaled_diff(&mut out, c.time, v.commits[pc].time, o.commit_hist_dist, o.branch_dist as u128);
                put(&mut out, "cm below ");
                put(&mut out, c.id.as_str());
                put(&mut out, " then to ");
                put(&mut out, v.commits[pc].id.as_str());
                put(&mut out, " chop\n");
            } else if !p.begins_lane && p.ends_lane {
                put(&mut out, "arrow from ");
                put(&mut out, c.id.as_str());
                put(&mut out, " chop then to ");
                put_scaled_diff(&mut out, c.time, v.commits[pc].time, o.commit_hist_dist, o.branch_dist as u128);
                put(&mut out, "cm above ");
                put(&mut out, v.commits[pc].id.as_str());
                put(&mut out, " then to ");
                put(&mut out, v.commits[pc].id.as_str());
                put(&mut out, " chop\n");
            } else {
                put(&mut out, "arrow from ");
                put(&mut out, c.id.as_str());
                put(&mut out, " to ");
                put(&mut out, v.commits[pc].id.as_str());
                put(&mut out, " chop\n");
            }
            assert(out@ =~= before + edge_text(*v, *o, i as int, k as int));
            k += 1;
        }
        i += 1;
    }
    put(&mut out, "// branch heads\n");
    put(&mut out, "boxht = 0;\n");
    let ghost part2 = part1 + all_edges_text(*v, *o, v.commits.len() as int) + "// branch heads\n"@ + "boxht = 0;\n"@;
    assert(out@ =~= part2);
    // Branch labels.
    let mut i: usize = 0;
    while i < v.commits_branch_heads.len()
        invariant
            view_wf(*v),
            i <= v.commits_branch_heads.len(),
            out@ == part2 + heads_text(*v, *o, i as int),
        decreases v.commits_branch_heads.len() - i,
    {
        let ghost base = out@;
        let g = &v.commits_branch_heads[i];
        if g.len() > 0 {
            put(&mut out, "right\n");
            put(&mut out, "line from ");
            put(&mut out, v.commits[i].id.as_str());
            put(&mut out, " to (");
            let x = wide_mul(v.lanes.len(), o.branch_dist);
            put_nat(&mut out, x);
            put(&mut out, "cm, ");
            put(&mut out, v.commits[i].id.as_str());
            put(&mut out, ".y) chop\n");
            let ghost top = out@;
            assert(top =~= base + "right\n"@ + "line from "@ + cid(*v, i as int) + " to ("@ + nat_text(
                (v.lanes.len() * o.branch_dist) as nat,
            ) + "cm, "@ + cid(*v, i as int) + ".y) chop\n"@);
            let mut q: usize = 0;
            while q < g.len()
                invariant
                    view_wf(*v),
                    i < v.commits_branch_heads.len(),
                    g == &v.commits_branch_heads[i as int],
                    q <= g.len(),
                    out@ == top + boxes_text(*v, i as int, q as int),
                decreases g.len() - q,
            {
                let ghost before = out@;
                put(&mut out, "box \"");
                put(&mut out, v.branches[g[q]].name.as_str());
                put(&mut out, "\"\n");
                assert(out@ =~= before + "box \""@ + v.branches[g[q as int] as int].name@ + "\"\n"@);
                q += 1;
            }
        }
        assert(out@ =~= base + group_text(*v, *o, i as int));
        i += 1;
    }
    Ok(out)
}

} // verus!
