use git_graph_to_svg::model::repo::Repository;
use git_graph_to_svg::model::state::ParseState;
use git_graph_to_svg::parser::instructions::instruction::{BranchArgs, Instruction};
use std::collections::HashSet;

fn apply(repo: &mut Repository, steps: Vec<Instruction>) {
    for s in steps.iter() {
        repo.apply_instruction(s);
    }
}

fn branch(name: &str) -> Instruction {
    Instruction::BRANCH(name.to_string(), BranchArgs { new_root: false })
}

fn commit(id: &str) -> Instruction {
    Instruction::COMMIT(id.to_string())
}

fn checkout(name: &str) -> Instruction {
    Instruction::CHECKOUT(name.to_string())
}

fn merge(id: &str, srcs: &[&str]) -> Instruction {
    Instruction::MERGE(id.to_string(), srcs.iter().map(|s| s.to_string()).collect())
}

#[test]
fn scenario_two_branches_four_commits() {
    let mut repo = Repository::default();
    apply(
        &mut repo,
        vec![branch("main"), commit("A"), commit("B"), branch("feature"), commit("C"), checkout("main"), commit("D")],
    );
    assert_eq!(repo.branches.len(), 2);
    assert_eq!(repo.commits.len(), 4);
    assert_eq!(repo.branch_head("main"), Some(&"D".to_string()));
    // `feature` was created while main stayed active, so C went to main and feature points at B.
    assert_eq!(repo.branch_head("feature"), Some(&"B".to_string()));
    let got: HashSet<String> = repo.branch_commits("feature").into_iter().collect();
    assert_eq!(got, HashSet::from_iter(vec!["A".to_string(), "B".to_string()]));
}

#[test]
fn scenario_feature_checked_out_gets_its_commit() {
    let mut repo = Repository::default();
    apply(
        &mut repo,
        vec![branch("main"), commit("A"), commit("B"), checkout("feature"), commit("C"), checkout("main"), commit("D")],
    );
    assert_eq!(repo.branches.len(), 2);
    assert_eq!(repo.commits.len(), 4);
    assert_eq!(repo.branch_head("main"), Some(&"D".to_string()));
    assert_eq!(repo.branch_head("feature"), Some(&"C".to_string()));
    let got: HashSet<String> = repo.branch_commits("feature").into_iter().collect();
    assert_eq!(got, HashSet::from_iter(vec!["A".to_string(), "B".to_string(), "C".to_string()]));
}

#[test]
fn scenario_merge_parents_in_order() {
    let mut repo = Repository::default();
    apply(&mut repo, vec![commit("A"), checkout("feature"), commit("B"), checkout("main"), commit("C"), merge("M", &["feature"])]);
    let m = repo.commits.iter().find(|c| c.id == "M").unwrap();
    assert_eq!(m.parents, vec!["C".to_string(), "B".to_string()]);
    let got: HashSet<String> = repo.branch_commits("main").into_iter().collect();
    assert_eq!(got, HashSet::from_iter(vec!["A".to_string(), "B".to_string(), "C".to_string(), "M".to_string()]));
}

#[test]
fn merge_sources_keep_their_order_and_name_and_id_both_count() {
    let mut repo = Repository::default();
    apply(
        &mut repo,
        vec![commit("A"), checkout("x"), commit("x"), checkout("y"), commit("Y"), checkout("main"), merge("M", &["y", "x", "nothing"])],
    );
    let m = repo.commits.iter().find(|c| c.id == "M").unwrap();
    // `y` is a branch (head Y); `x` is both a branch (head x) and a commit id; `nothing` resolves to nothing.
    assert_eq!(m.parents, vec!["A".to_string(), "Y".to_string(), "x".to_string(), "x".to_string()]);
}

#[test]
fn commit_times_follow_creation_order() {
    let mut repo = Repository::default();
    apply(&mut repo, vec![commit("A"), checkout("f"), commit("B"), checkout("main"), commit("C"), merge("M", &["f"])]);
    let times: Vec<usize> = repo.commits.iter().map(|c| c.time).collect();
    assert_eq!(times, vec![0, 1, 2, 3]);
    let ids: Vec<&str> = repo.commits.iter().map(|c| c.id.as_str()).collect();
    assert_eq!(ids, vec!["A", "B", "C", "M"]);
    assert!(repo.is_well_formed());
}

#[test]
fn new_branch_starts_at_active_commit_and_first_branch_is_active() {
    let mut repo = Repository::default();
    repo.add_branch("dev".to_string(), None);
    assert_eq!(repo.head, Some("dev".to_string()));
    assert_eq!(repo.branch_head("dev"), None);
    repo.commit("A".to_string());
    repo.add_branch("topic".to_string(), None);
    assert_eq!(repo.head, Some("dev".to_string()));
    assert_eq!(repo.branch_head("topic"), Some(&"A".to_string()));
    assert_eq!(repo.branches[1].priority, 1);
}

#[test]
fn add_branch_at_reference() {
    let mut repo = Repository::default();
    repo.commit("A".to_string());
    repo.commit("B".to_string());
    let a = "A".to_string();
    repo.add_branch("old".to_string(), Some(&a));
    assert_eq!(repo.branch_head("old"), Some(&"A".to_string()));
    let main = "main".to_string();
    repo.add_branch("copy".to_string(), Some(&main));
    assert_eq!(repo.branch_head("copy"), Some(&"B".to_string()));
}

#[test]
fn commit_without_branch_creates_main() {
    let mut state = ParseState::new();
    state.commit(&"A".to_string());
    assert_eq!(state.repo.head, Some("main".to_string()));
    assert_eq!(state.current_commit(), Some(&"A".to_string()));
    state.switch_branch(&"f".to_string());
    state.merge(&"B".to_string(), vec!["main".to_string()]);
    assert_eq!(state.branch_head(&"f".to_string()), Some(&"B".to_string()));
    state.add_branch(&"g".to_string());
    assert_eq!(state.branch_head(&"g".to_string()), Some(&"B".to_string()));
    state.apply_instruction(&commit("C"));
    assert_eq!(state.repo.commits[2].parents, vec!["B".to_string()]);
}
