use git_graph_to_svg::model::branch::Branch;
use git_graph_to_svg::model::model::Model;

fn s(x: &str) -> String {
    x.to_string()
}

fn sample() -> Model {
    let mut m = Model::new();
    m.add_branch(s("main"), s("default"));
    m.add_branch(s("dev"), s("default"));
    m.add_branch(s("late"), s("default"));
    assert!(m.add_commit(s("A"), s("main"), s(""), vec![]).is_ok());
    assert!(m.add_commit(s("B"), s("dev"), s(""), vec![s("A")]).is_ok());
    assert!(m.add_commit(s("C"), s("main"), s(""), vec![s("A")]).is_ok());
    assert!(m.add_commit(s("D"), s("late"), s(""), vec![s("C")]).is_ok());
    m
}

#[test]
fn model_keeps_orders() {
    let m = sample();
    assert_eq!(m.branch_order, vec![s("main"), s("dev"), s("late")]);
    assert_eq!(m.commit_order, vec![s("A"), s("B"), s("C"), s("D")]);
    let prios: Vec<i32> = m.branches.iter().map(|b| b.priority).collect();
    assert_eq!(prios, vec![0, 1, 2]);
    let times: Vec<usize> = m.commits.iter().map(|c| c.time).collect();
    assert_eq!(times, vec![0, 1, 2, 3]);
    assert_eq!(m.get_branch_last_commit(&s("main")), Some(&s("C")));
    assert_eq!(m.get_branch_last_commit(&s("nope")), None);
}

#[test]
fn model_commit_on_unknown_branch_is_refused() {
    let mut m = sample();
    match m.add_commit(s("E"), s("ghost"), s(""), vec![]) {
        Err(e) => assert_eq!(e, "Branch not found"),
        Ok(_) => panic!("expected a refusal"),
    }
    assert_eq!(m.commit_order.len(), 5);
}

#[test]
fn model_columns_share_when_disjoint() {
    let m = sample();
    assert!(m.branches_overlap(&s("main"), &s("dev")));
    assert!(!m.branches_overlap(&s("dev"), &s("late")));
    assert!(!m.branches_overlap(&s("main"), &s("nope")));
    assert!(!m.branches_overlap(&s("main"), &s("late")));
    // main spans times 0..2 and late sits at 3, so late joins main's column.
    assert_eq!(m.calc_branch_columns(), vec![vec![s("main"), s("late")], vec![s("dev")]]);
}

#[test]
fn branch_points_at_its_last_commit() {
    let mut b = Branch::new(s("x"), s(""), 4);
    assert_eq!(b.current_commit(), None);
    b.commits.push(s("A"));
    b.commits.push(s("B"));
    assert_eq!(b.current_commit(), Some(&s("B")));
    b.current_commit = Some(s("A"));
    assert_eq!(b.current_commit(), Some(&s("A")));
}
