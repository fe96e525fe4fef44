use git_graph_to_svg::parser::branch_data::{build_branch_data, BranchData};
use git_graph_to_svg::parser::commit_data::build_commit_data;
use git_graph_to_svg::parser::yaml::file::{BranchCommand, Command, CommitCommand, MergeCommand};
use git_graph_to_svg::parser::yaml::repo_builder::build_repo;

#[test]
fn branch_lines_are_split_at_the_colon() {
    let v = match build_branch_data("main1:A B\n  main2 :<E>".to_string()) {
        Ok(v) => v,
        Err(_) => panic!("expected branch lines"),
    };
    assert_eq!(v.len(), 2);
    assert_eq!(v[0].name, "main1");
    assert_eq!(v[0].commit_line, vec!['A', ' ', 'B']);
    assert_eq!(v[1].name, "main2");
    assert_eq!(v[1].commit_line, vec!['<', 'E', '>']);
    assert!(v[1].merge_into_commits.is_empty());
}

#[test]
fn branch_line_without_one_colon_is_refused() {
    match build_branch_data("main:A\nbad line".to_string()) {
        Err(e) => assert_eq!(e, "Incorrect number of : in line bad line"),
        Ok(_) => panic!("expected a refusal"),
    }
    match build_branch_data("a:b:c".to_string()) {
        Err(e) => assert_eq!(e, "Incorrect number of : in line a:b:c"),
        Ok(_) => panic!("expected a refusal"),
    }
}

fn line(name: &str, symbols: &str) -> BranchData {
    BranchData { name: name.to_string(), commit_line: symbols.chars().collect(), merge_into_commits: Vec::new() }
}

#[test]
fn commit_data_reads_one_step() {
    let bs = vec![line("main", "A<C"), line("dev", " B>"), line("x", " Z")];
    let d = build_commit_data(&bs, 0).unwrap();
    assert_eq!(d.commit_id, "A");
    assert_eq!(d.branch, "main");
    let d = build_commit_data(&bs, 1).unwrap();
    // The last branch with a commit at this step wins.
    assert_eq!(d.commit_id, "Z");
    assert_eq!(d.branch, "x");
    assert_eq!(d.merge_into_branches, vec!["main".to_string()]);
    assert!(d.merge_from_branches.is_empty());
    let d = build_commit_data(&bs, 2).unwrap();
    assert_eq!(d.commit_id, "C");
    assert_eq!(d.merge_from_branches, vec!["dev".to_string()]);
    assert!(build_commit_data(&bs, 7).is_none());
}

#[test]
fn history_file_commands_build_a_store() {
    let commands = vec![
        Command::SimpleCommit("A".to_string()),
        Command::Commit(CommitCommand { name: "B".to_string() }),
        Command::Branch(BranchCommand { name: "old".to_string(), at_commit: Some("A".to_string()) }),
        Command::Commit(CommitCommand { name: "C".to_string() }),
        Command::Branch(BranchCommand { name: "main".to_string(), at_commit: None }),
        Command::Merge(MergeCommand { commit_name: "M".to_string(), branches: vec!["old".to_string()] }),
    ];
    let repo = build_repo(&commands);
    assert_eq!(repo.branches.len(), 2);
    assert_eq!(repo.commits[2].parents, vec!["A".to_string()]);
    assert_eq!(repo.commits[3].parents, vec!["B".to_string(), "C".to_string()]);
    assert_eq!(repo.branch_commits("main").len(), 4);
}

#[test]
fn three_simple_commits_stay_on_main() {
    let commands = vec![
        Command::SimpleCommit("A".to_string()),
        Command::SimpleCommit("B".to_string()),
        Command::SimpleCommit("C".to_string()),
    ];
    let repo = build_repo(&commands);
    assert_eq!(repo.branch_iter().count(), 1);
    assert_eq!(repo.branch_commits("main").len(), 3);
}
