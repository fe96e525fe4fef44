use git_graph_to_svg::model::repo::Repository;
use git_graph_to_svg::options::layout::{LayoutDirection, LayoutOptions};
use git_graph_to_svg::print_pikchr;
use git_graph_to_svg::view::View;

fn history() -> Repository {
    let mut repo = Repository::default();
    repo.commit("A".to_string());
    repo.checkout_branch("feature");
    repo.commit("B".to_string());
    repo.commit("C".to_string());
    repo.checkout_branch("main");
    repo.commit("D".to_string());
    repo.merge("M".to_string(), vec!["feature".to_string()]);
    repo
}

#[test]
fn layout_default_options() {
    let o = LayoutOptions::default();
    assert_eq!(o.graph_direction, LayoutDirection::UP);
    assert_eq!(o.commit_hist_dist, 3);
    assert_eq!(o.branch_dist, 2);
    assert_eq!(o.commit_radius, 1);
}

#[test]
fn lanes_partition_commits() {
    let repo = history();
    let v = View::from_state(&repo);
    assert_eq!(v.lanes.len(), 2);
    assert_eq!(v.lanes[0].branch_names, vec!["main".to_string()]);
    // main: A, D, M; feature: B, C
    assert_eq!(v.lanes[0].commits, vec![0, 3, 4]);
    assert_eq!(v.lanes[1].commits, vec![1, 2]);
    let mut seen = vec![0; v.commits.len()];
    for l in v.lanes.iter() {
        for c in l.commits.iter() {
            seen[*c] += 1;
        }
    }
    assert_eq!(seen, vec![1, 1, 1, 1, 1]);
    assert_eq!(v.lanes[0].col, 0);
    assert_eq!(v.lanes[1].col, 1);
}

#[test]
fn parent_links_are_classified() {
    let repo = history();
    let v = View::from_state(&repo);
    // B's parent A: cross-lane, B ... feature starts at B, A starts main.
    let b = &v.commits[1];
    assert_eq!(b.parents.len(), 1);
    assert_eq!(b.parents[0].commit, 0);
    assert!(!b.parents[0].in_lane);
    assert!(b.parents[0].ends_lane);
    assert!(!b.parents[0].begins_lane);
    // C's parent B: in lane; C is the last of feature.
    let c = &v.commits[2];
    assert!(c.parents[0].in_lane);
    assert!(c.parents[0].begins_lane);
    // M's parents: D in lane, C across lanes.
    let m = &v.commits[4];
    assert_eq!(m.parents.len(), 2);
    assert!(m.parents[0].in_lane);
    assert!(!m.parents[1].in_lane);
    assert!(m.parents[1].begins_lane);
    assert!(!m.parents[1].ends_lane);
    assert_eq!(v.commits[4].time, 4);
}

#[test]
fn branch_heads_are_grouped_by_commit() {
    let mut repo = history();
    repo.add_branch("release".to_string(), None);
    let v = View::from_state(&repo);
    assert_eq!(v.commits_branch_heads[4], vec![0, 2]);
    assert_eq!(v.commits_branch_heads[2], vec![1]);
    assert!(v.commits_branch_heads[0].is_empty());
    assert_eq!(v.branches[2].head, Some(4));
}

#[test]
fn in_lane_edges_draw_no_arrow() {
    let repo = history();
    let v = View::from_state(&repo);
    let out = print_pikchr(&v, &LayoutOptions::default()).ok().unwrap();
    assert!(!out.contains("arrow from C to B"));
    assert!(!out.contains("arrow from M to D"));
    assert!(!out.contains("arrow from D to A"));
    assert!(out.contains("arrow from B chop then to 1cm above A then to A chop\n"));
    assert!(out.contains("arrow from M chop then to 4cm below M then to C chop\n"));
}

#[test]
fn packed_columns_never_overlap() {
    let mut repo = Repository::default();
    repo.commit("A".to_string());
    repo.checkout_branch("f1");
    repo.commit("B".to_string());
    repo.checkout_branch("main");
    repo.commit("C".to_string());
    repo.checkout_branch("f2");
    repo.commit("D".to_string());
    repo.checkout_branch("main");
    repo.commit("E".to_string());
    let mut v = View::from_state(&repo);
    assert!(v.branches_overlap(0, 1));
    assert!(!v.branches_overlap(1, 2));
    assert_eq!(v.calc_branch_columns(), vec![0, 1, 1]);
    v.pack_columns();
    let cols: Vec<usize> = v.lanes.iter().map(|l| l.col).collect();
    assert_eq!(cols, vec![0, 1, 1]);
    for a in 0..v.lanes.len() {
        for b in 0..v.lanes.len() {
            if a != b && cols[a] == cols[b] {
                assert!(!v.branches_overlap(a, b));
            }
        }
    }
}

#[test]
fn single_commit_prints_one_absolute_circle_and_no_arrow() {
    let mut repo = Repository::default();
    repo.commit("A".to_string());
    let v = View::from_state(&repo);
    let out = print_pikchr(&v, &LayoutOptions::default()).ok().unwrap();
    assert_eq!(
        out,
        "down\ncircleRAD".replace("RAD", "rad = 1cm\n")
            + "// branch: main\ncircle \"A\" at (0cm, 0cm)\n// out of branch parents\n// branch heads\nboxht = 0;\nright\nline from A to (2cm, A.y) chop\nbox \"main\"\n"
    );
    assert_eq!(out.lines().filter(|l| l.starts_with("circle \"") && l.contains(" at (")).count(), 1);
    assert_eq!(out.lines().filter(|l| l.starts_with("arrow")).count(), 0);
}

#[test]
fn lane_arrows_leave_out_both_radii() {
    let mut repo = Repository::default();
    repo.commit("A".to_string());
    repo.commit("B".to_string());
    let v = View::from_state(&repo);
    let o = LayoutOptions { graph_direction: LayoutDirection::RIGHT, commit_hist_dist: 5, branch_dist: 4, commit_radius: 2 };
    let out = print_pikchr(&v, &o).ok().unwrap();
    assert!(out.starts_with("circlerad = 2cm\n// branch: main\ncircle \"A\" at (0cm, 0cm)\narrow 1cm chop\ncircle \"B\"\n"));
    assert!(out.contains("line from B to (4cm, B.y) chop\n"));
}

#[test]
fn short_spacing_gives_negative_lengths() {
    let mut repo = Repository::default();
    repo.commit("A".to_string());
    repo.commit("B".to_string());
    let v = View::from_state(&repo);
    let o = LayoutOptions { graph_direction: LayoutDirection::UP, commit_hist_dist: 1, branch_dist: 1, commit_radius: 3 };
    let out = print_pikchr(&v, &o).ok().unwrap();
    assert!(out.contains("arrow -5cm chop\n"));
}

#[test]
fn coordinates_scale_with_time_and_column() {
    let mut repo = Repository::default();
    for id in ["A", "B", "C", "D", "E", "F", "G", "H", "I", "J", "K", "L"] {
        repo.commit(id.to_string());
    }
    repo.checkout_branch("x");
    repo.commit("Z".to_string());
    let v = View::from_state(&repo);
    let out = print_pikchr(&v, &LayoutOptions::default()).ok().unwrap();
    assert!(out.contains("circle \"Z\" at (2cm, 36cm)\n"));
    assert!(out.contains("// branch: x\n"));
}
