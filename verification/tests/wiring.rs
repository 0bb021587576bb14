use aurashell::descriptors::{
    apply_redirections, child_after_fork, child_over, complain, dup_failed, exec_failed,
    first_redirection, next_redirection, open_failed, ChildOutcome, FdOp, OpenMode, Program,
    RedirectStep, Redirection,
};
use aurashell::environment::Environment;
use aurashell::parser::{parse, Script};
use aurashell::tokenizer::{tokenize, Scope};

fn script(line: &str) -> Script {
    parse(tokenize(line, &Scope { vars: Environment::new(), status: 0, pid: 1 })).unwrap().unwrap()
}

fn shown(list: &[Redirection]) -> Vec<String> {
    list.iter().map(|r| format!("{:?}", r)).collect()
}

#[test]
fn redirections_come_in_a_fixed_order() {
    let s = script("cmd 2> err >> out < in");
    assert_eq!(
        shown(&apply_redirections(&s.pipelines[0].commands[0])),
        shown(&[
            Redirection::File { path: "in".to_string(), mode: OpenMode::Read, fd: 0 },
            Redirection::File { path: "out".to_string(), mode: OpenMode::Append, fd: 1 },
            Redirection::File { path: "err".to_string(), mode: OpenMode::Truncate, fd: 2 },
        ])
    );
    let s = script("cmd 2>&1 > out");
    assert_eq!(
        shown(&apply_redirections(&s.pipelines[0].commands[0])),
        shown(&[
            Redirection::File { path: "out".to_string(), mode: OpenMode::Truncate, fd: 1 },
            Redirection::Merge,
        ])
    );
    assert!(apply_redirections(&script("cmd").pipelines[0].commands[0]).is_empty());
}

#[test]
fn complaints_name_what_failed() {
    assert_eq!(open_failed("nowhere", "ENOENT: No such file"), "nowhere: ENOENT: No such file");
    let file = |fd| Redirection::File { path: "x".to_string(), mode: OpenMode::Read, fd };
    assert_eq!(dup_failed(&file(0), "E"), "dup2 stdin: E");
    assert_eq!(dup_failed(&file(1), "E"), "dup2 stdout: E");
    assert_eq!(dup_failed(&file(2), "E"), "dup2 stderr: E");
    assert_eq!(dup_failed(&Redirection::Merge, "E"), "dup2 2>&1: E");
    assert_eq!(complain("pipe: E"), "msh: pipe: E\n");
    assert_eq!(exec_failed("nosuch", "ENOENT"), "msh: nosuch: ENOENT\n");
}

#[test]
fn the_middle_of_a_pipeline_is_wired_on_both_sides() {
    let s = script("a | b x | c");
    let pipes = [(3, 4), (5, 6)];
    let plan = child_after_fork(&s.pipelines[0], 1, &pipes, Some(77), 78, None);
    assert_eq!(plan.group, 77);
    assert_eq!(
        plan.wiring,
        [
            FdOp::Dup2 { from: 3, to: 0 },
            FdOp::Dup2 { from: 6, to: 1 },
            FdOp::Close { fd: 3 },
            FdOp::Close { fd: 4 },
            FdOp::Close { fd: 5 },
            FdOp::Close { fd: 6 },
        ]
    );
    match plan.program {
        Program::Exec { args } => assert_eq!(args, ["b", "x"]),
        other => panic!("{:?}", other),
    }
}

#[test]
fn a_single_child_leads_its_group_and_is_captured() {
    let s = script("ls > out");
    let plan = child_after_fork(&s.pipelines[0], 0, &[], None, 78, Some(9));
    assert_eq!(plan.group, 78);
    assert_eq!(plan.wiring, [FdOp::Dup2 { from: 9, to: 2 }, FdOp::Close { fd: 9 }]);
    assert_eq!(plan.redirections.len(), 1);
}

#[test]
fn builtins_and_bad_names_are_told_apart() {
    let s = script("cd | a");
    let pipes = [(3, 4)];
    let plan = child_after_fork(&s.pipelines[0], 0, &pipes, None, 5, None);
    assert!(matches!(plan.program, Program::Builtin));
    let mut s = script("a b c");
    s.pipelines[0].commands[0].argv[1] = "b\0".to_string();
    match child_after_fork(&s.pipelines[0], 0, &[], None, 5, None).program {
        Program::Exec { args } => assert_eq!(args, ["a", "", "c"]),
        other => panic!("{:?}", other),
    }
    s.pipelines[0].commands[0].argv[0] = "\0".to_string();
    assert!(matches!(
        child_after_fork(&s.pipelines[0], 0, &[], None, 5, None).program,
        Program::Invalid
    ));
}

/// Tries the redirections of `line`, of which the one at `fails` fails.
fn tried(line: &str, fails: usize) -> (Vec<usize>, Option<String>) {
    let list = apply_redirections(&script(line).pipelines[0].commands[0]);
    let mut step = first_redirection(&list);
    let mut positions = Vec::new();
    loop {
        match step {
            RedirectStep::Next(i) => {
                positions.push(i);
                let outcome = if i == fails { Err(open_failed("f", "E")) } else { Ok(()) };
                step = next_redirection(&list, i, outcome);
            }
            RedirectStep::Done => return (positions, None),
            RedirectStep::Failed(text) => return (positions, Some(text)),
        }
    }
}

#[test]
fn a_redirection_that_fails_ends_the_rest() {
    let line = "cmd < a > b 2> c";
    assert_eq!(tried(line, 9), (vec![0, 1, 2], None));
    assert_eq!(tried(line, 0), (vec![0], Some("f: E".to_string())));
    assert_eq!(tried(line, 1), (vec![0, 1], Some("f: E".to_string())));
    assert_eq!(tried(line, 2), (vec![0, 1, 2], Some("f: E".to_string())));
    assert_eq!(tried("cmd", 0), (vec![], None));
}

#[test]
fn children_end_with_a_complaint_and_a_status() {
    let over = |outcome| child_over(outcome);
    assert_eq!(
        over(ChildOutcome::NotRedirected("f: E".to_string())),
        ("msh: f: E\n".to_string(), 1)
    );
    assert_eq!(over(ChildOutcome::BuiltinRun(7)), (String::new(), 7));
    assert_eq!(over(ChildOutcome::Invalid), ("msh: invalid program name\n".to_string(), 127));
    assert_eq!(
        over(ChildOutcome::NotExecuted { name: "x".to_string(), error: "ENOENT".to_string() }),
        ("msh: x: ENOENT\n".to_string(), 127)
    );
}
