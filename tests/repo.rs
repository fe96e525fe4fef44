use git_graph_to_svg::model::repo::{Branch, Repository};
use std::collections::HashSet;

fn set_of(v: Vec<String>) -> HashSet<String> {
    v.into_iter().collect()
}

#[test]
fn empty_default() {
    // Setup
    let repo = Repository::default();

    // Act

    // Test
    assert_eq!(repo.commit_iter().count(), 0);
    assert_eq!(repo.branch_iter().count(), 0);
}

#[test]
fn one_commit_on_main() {
    // Setup
    let mut repo = Repository::default();

    // Act
    repo.commit("A".to_string());

    // Test
    assert_eq!(repo.commit_iter().count(), 1);
    assert_eq!(repo.branch_iter().count(), 1);
    assert_eq!(repo.branch_iter().collect::<Vec<&Branch>>().first().unwrap().name, "main");
}

#[test]
fn multiple_branches() {
    // Setup
    let mut repo = Repository::default();

    // Act
    repo.commit("A".to_string());
    repo.checkout_branch("feature");
    repo.commit("B".to_string());
    repo.checkout_branch("main");
    repo.commit("C".to_string());

    // Test
    assert_eq!(repo.commit_iter().count(), 3);
    assert_eq!(repo.branch_iter().count(), 2);
    assert_eq!(repo.branch_head("main"), Some(&"C".to_string()));
    assert_eq!(set_of(repo.branch_commits("feature")), HashSet::from_iter(vec!["A".to_string(), "B".to_string()]));
}

#[test]
fn separate_branches() {
    // Setup
    let mut repo = Repository::default();

    // Act
    repo.commit("A".to_string());
    repo.checkout_branch("feature1");
    repo.commit("B".to_string());
    repo.checkout_branch_at_commit("feature2", "A");
    repo.commit("C".to_string());
    repo.checkout_branch("main");
    repo.commit("D".to_string());

    // Test
    assert_eq!(set_of(repo.branch_commits("main")), HashSet::from_iter(vec!["A".to_string(), "D".to_string()]));
    assert_eq!(set_of(repo.branch_commits("feature1")), HashSet::from_iter(vec!["A".to_string(), "B".to_string()]));
    assert_eq!(set_of(repo.branch_commits("feature2")), HashSet::from_iter(vec!["A".to_string(), "C".to_string()]));
}

#[test]
fn merge() {
    // Setup
    let mut repo = Repository::default();

    // Act
    repo.commit("A".to_string());
    repo.checkout_branch("feature1");
    repo.commit("B".to_string());
    repo.checkout_branch_at_commit("feature2", "A");
    repo.commit("C".to_string());
    repo.checkout_branch("main");
    repo.commit("D".to_string());
    repo.merge("M".to_string(), vec!["feature1".to_string()]);

    // Test
    assert_eq!(
        set_of(repo.branch_commits("main")),
        HashSet::from_iter(vec!["A".to_string(), "B".to_string(), "D".to_string(), "M".to_string()])
    );
    assert_eq!(set_of(repo.branch_commits("feature1")), HashSet::from_iter(vec!["A".to_string(), "B".to_string()]));
    assert_eq!(set_of(repo.branch_commits("feature2")), HashSet::from_iter(vec!["A".to_string(), "C".to_string()]));
}

#[test]
fn merge_multiple_branches() {
    // Setup
    let mut repo = Repository::default();

    // Act
    repo.commit("A".to_string());
    repo.checkout_branch("feature1");
    repo.commit("B".to_string());
    repo.checkout_branch_at_commit("feature2", "A");
    repo.commit("C".to_string());
    repo.checkout_branch("main");
    repo.commit("D".to_string());
    repo.merge("M".to_string(), vec!["feature1".to_string(), "feature2".to_string()]);

    // Test
    assert_eq!(
        set_of(repo.branch_commits("main")),
        HashSet::from_iter(vec!["A".to_string(), "B".to_string(), "C".to_string(), "D".to_string(), "M".to_string()])
    );
    assert_eq!(set_of(repo.branch_commits("feature1")), HashSet::from_iter(vec!["A".to_string(), "B".to_string()]));
    assert_eq!(set_of(repo.branch_commits("feature2")), HashSet::from_iter(vec!["A".to_string(), "C".to_string()]));
}

#[test]
fn branch_commits_of_unknown_branch_is_empty() {
    let mut repo = Repository::default();
    repo.commit("A".to_string());
    assert!(repo.branch_commits("nope").is_empty());
    assert_eq!(repo.branch_head("nope"), None);
}

#[test]
fn branch_commits_lists_each_once_in_store_order() {
    let mut repo = Repository::default();
    repo.commit("A".to_string());
    repo.checkout_branch("f");
    repo.commit("B".to_string());
    repo.checkout_branch("main");
    repo.merge("M".to_string(), vec!["f".to_string(), "B".to_string()]);
    assert_eq!(repo.branch_commits("main"), vec!["A".to_string(), "B".to_string(), "M".to_string()]);
}

#[test]
fn reused_commit_id_replaces_the_commit() {
    let mut repo = Repository::default();
    repo.commit("A".to_string());
    repo.commit("A".to_string());
    assert_eq!(repo.commits.len(), 1);
    assert_eq!(repo.commits[0].time, 1);
    assert_eq!(repo.commits[0].parents, vec!["A".to_string()]);
    assert!(!repo.is_well_formed());
}
