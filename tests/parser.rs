use git_graph_to_svg::model::repo::Repository;
use git_graph_to_svg::parse_git_instructions;
use git_graph_to_svg::parser::instructions::arguments::{ArgList, NamedArg};
use git_graph_to_svg::parser::instructions::errors::ErrorKind;
use git_graph_to_svg::parser::instructions::instruction::Instruction;
use git_graph_to_svg::parser::instructions::reader::lines_of;

fn parsed(input: &str) -> Repository {
    match parse_git_instructions(input) {
        Ok(r) => r,
        Err(_) => panic!("input should parse"),
    }
}

#[test]
fn parses_a_history() {
    let repo = parsed("\n  branch(main)\n  commit(A)\n  commit(B)\n  checkout(feature/x)\n  commit(D)\n  checkout(main)\n  commit(E)\n  merge(F,feature/x)\n");
    assert_eq!(repo.commits.len(), 5);
    assert_eq!(repo.branches.len(), 2);
    assert_eq!(repo.branch_head("main"), Some(&"F".to_string()));
    assert_eq!(repo.commits[4].parents, vec!["E".to_string(), "D".to_string()]);
}

#[test]
fn splits_lines_at_line_feeds() {
    assert_eq!(lines_of(""), vec!["".to_string()]);
    assert_eq!(lines_of("a\n\nbc"), vec!["a".to_string(), "".to_string(), "bc".to_string()]);
    assert_eq!(lines_of("x\n"), vec!["x".to_string(), "".to_string()]);
}

#[test]
fn unknown_command_is_invalid_instruction() {
    match parse_git_instructions("commit(A)\npush(A)") {
        Err(ErrorKind::InvalidInstruction(c, n)) => {
            assert_eq!(c, "push");
            assert_eq!(n, 1);
        }
        _ => panic!("expected an invalid instruction"),
    }
}

#[test]
fn malformed_line_is_invalid_instruction() {
    match parse_git_instructions("commit A") {
        Err(ErrorKind::InvalidInstruction(l, n)) => {
            assert_eq!(l, "commit A");
            assert_eq!(n, 0);
        }
        _ => panic!("expected an invalid instruction"),
    }
}

#[test]
fn wrong_argument_count() {
    match Instruction::from_line("merge(M)", 3) {
        Err(ErrorKind::WrongNumberOfArguments(c, n)) => {
            assert_eq!(c, "merge");
            assert_eq!(n, 3);
        }
        _ => panic!("expected a wrong number of arguments"),
    }
}

#[test]
fn unknown_branch_option() {
    let args = ArgList {
        plain_args: vec!["b".to_string()],
        named_args: vec![
            NamedArg { name: "a".to_string(), value: "1".to_string() },
            NamedArg { name: "colour".to_string(), value: "red".to_string() },
        ],
    };
    match Instruction::from_command("branch".to_string(), args, 7) {
        Err(ErrorKind::InvalidArgument(c, a, n)) => {
            assert_eq!(c, "branch");
            assert_eq!(a, "colour");
            assert_eq!(n, 7);
        }
        _ => panic!("expected an invalid argument"),
    }
}

#[test]
fn branch_new_root_option() {
    let args = ArgList {
        plain_args: vec!["b".to_string()],
        named_args: vec![
            NamedArg { name: "x".to_string(), value: "1".to_string() },
            NamedArg { name: "new_root".to_string(), value: "yes".to_string() },
        ],
    };
    match Instruction::from_command("branch".to_string(), args, 0) {
        Ok(Instruction::BRANCH(name, opts)) => {
            assert_eq!(name, "b");
            assert!(opts.new_root);
        }
        _ => panic!("expected a branch"),
    }
}

#[test]
fn plain_after_named_is_refused() {
    match ArgList::parse(vec!["k = v".to_string(), "plain".to_string()], 4) {
        Err(ErrorKind::NamedArgAfterPlainArg(n)) => assert_eq!(n, 4),
        _ => panic!("expected a plain argument after a named one"),
    }
}

#[test]
fn named_argument_is_trimmed() {
    let a = NamedArg::parse("  colour =  red ").unwrap();
    assert_eq!(a.name, "colour");
    assert_eq!(a.value, "red");
    assert!(NamedArg::parse("plain").is_none());
    let l = ArgList::parse(vec!["x".to_string(), "y".to_string(), "k=v".to_string()], 0).ok().unwrap();
    assert_eq!(l.plain_args, vec!["x".to_string(), "y".to_string()]);
    assert_eq!(l.named_args.len(), 1);
}

#[test]
fn named_argument_from_groups() {
    let g = Some(vec![Some("a = b".to_string()), Some(" a ".to_string()), Some(" b".to_string())]);
    let a = NamedArg::from_captures(&g).unwrap();
    assert_eq!(a.name, "a");
    assert_eq!(a.value, "b");
    assert!(NamedArg::from_captures(&Some(vec![Some("x".to_string()), None, None])).is_none());
    assert!(NamedArg::from_captures(&None).is_none());
}

#[test]
fn instruction_from_groups() {
    let g = Some(vec![Some("merge(M,a,b)".to_string()), Some("merge".to_string()), Some("M".to_string()), None, Some("b".to_string())]);
    match Instruction::from_captures(g, "merge(M,a,b)", 2) {
        Ok(Instruction::MERGE(id, srcs)) => {
            assert_eq!(id, "M");
            assert_eq!(srcs, vec!["b".to_string()]);
        }
        _ => panic!("expected a merge"),
    }
    match Instruction::from_captures(None, "??", 5) {
        Err(ErrorKind::InvalidInstruction(l, n)) => {
            assert_eq!(l, "??");
            assert_eq!(n, 5);
        }
        _ => panic!("expected an invalid instruction"),
    }
}

#[test]
fn commands_read_from_lines() {
    match Instruction::from_line("checkout(dev)", 0) {
        Ok(Instruction::CHECKOUT(n)) => assert_eq!(n, "dev"),
        _ => panic!("expected a checkout"),
    }
    match Instruction::from_line("commit(A)  ", 0) {
        Ok(Instruction::COMMIT(n)) => assert_eq!(n, "A"),
        _ => panic!("expected a commit"),
    }
}

#[test]
fn empty_input_builds_an_empty_store() {
    let repo = parsed("");
    assert!(repo.commits.is_empty());
    assert!(repo.branches.is_empty());
    let repo = parsed("   \n\n  ");
    assert!(repo.commits.is_empty());
}
