use aurashell::builtins::{
    builtin_cd, finish_cd, finish_pwd, finish_source, is_builtin, run_builtin, variables_named,
    variables_sourced, Action, BuiltinRun,
};
use aurashell::environment::Environment;
use aurashell::executor::{pending_exit, set_last_exit_status, Shell};
use aurashell::jobs::JobTable;
use aurashell::output::Output;
use aurashell::tokenizer::{tokenize, Scope, Token};

fn out(s: &str) -> Output {
    Output::Stdout(s.to_string())
}

fn err(s: &str) -> Output {
    Output::Stderr(s.to_string())
}

fn args(list: &[&str]) -> Vec<String> {
    list.iter().map(|s| s.to_string()).collect()
}

fn env(list: &[(&str, &str)]) -> Environment {
    let mut e = Environment::new();
    for (k, v) in list {
        e.set(k, v);
    }
    e
}

fn listed(e: &Environment) -> Vec<(String, String)> {
    (0..e.count()).map(|i| (e.name_at(i).to_string(), e.value_at(i).to_string())).collect()
}

fn action(r: &BuiltinRun) -> String {
    match &r.action {
        Action::Done(status) => format!("done {}", status),
        Action::ChangeDir(d) => format!("cd {}", d),
        Action::FindDir => "pwd".to_string(),
        Action::ReadFile(p) => format!("read {}", p),
    }
}

fn run(list: &[&str], shell: &mut Shell, e: &mut Environment) -> (Vec<Output>, String) {
    let a = args(list);
    assert!(variables_named(&a));
    let r = run_builtin(&a, shell, e);
    let what = action(&r);
    (r.outputs, what)
}

#[test]
fn builtins_are_known_by_name() {
    for name in ["cd", "pwd", "exit", "export", "unset", "jobs", "echo", "help", "source", "."] {
        assert!(is_builtin(name));
    }
    for name in ["", "ls", "CD", "..", "echo ", "fg"] {
        assert!(!is_builtin(name));
    }
}

#[test]
fn unknown_commands_fail_in_silence() {
    let (mut shell, mut e) = (Shell::new(), env(&[]));
    assert_eq!(run(&[], &mut shell, &mut e), (vec![], "done 1".to_string()));
    assert_eq!(run(&["ls"], &mut shell, &mut e), (vec![], "done 1".to_string()));
}

#[test]
fn echo_joins_its_arguments() {
    let (mut shell, mut e) = (Shell::new(), env(&[]));
    let mut echo = |a: &[&str]| run(a, &mut shell, &mut e).0;
    assert_eq!(echo(&["echo", "a", "b  c"]), [out("a b  c\n")]);
    assert_eq!(echo(&["echo", "-n", "a", "b"]), [out("a b")]);
    assert_eq!(echo(&["echo", "a", "-n"]), [out("a -n\n")]);
    assert_eq!(echo(&["echo"]), [out("\n")]);
    assert_eq!(echo(&["echo", "-n"]), [out("")]);
}

#[test]
fn cd_finds_its_target() {
    let mut shell = Shell::new();
    let mut bare = env(&[]);
    let mut full = env(&[("HOME", "/home/ada"), ("OLDPWD", "/tmp")]);
    assert_eq!(
        run(&["cd"], &mut shell, &mut bare),
        (vec![err("cd: HOME not set\n")], "done 1".to_string())
    );
    assert_eq!(
        run(&["cd", "-"], &mut shell, &mut bare),
        (vec![err("cd: OLDPWD not set\n")], "done 1".to_string())
    );
    assert_eq!(run(&["cd"], &mut shell, &mut full), (vec![], "cd /home/ada".to_string()));
    assert_eq!(
        run(&["cd", "-"], &mut shell, &mut full),
        (vec![out("/tmp\n")], "cd /tmp".to_string())
    );
    assert_eq!(run(&["cd", "src", "x"], &mut shell, &mut full), (vec![], "cd src".to_string()));
}

#[test]
fn cd_remembers_where_it_was() {
    let mut shell = Shell::new();
    let mut e = env(&[]);
    let r = finish_cd("/tmp", Some("/home".to_string()), Ok(Some("/tmp".to_string())), &mut e);
    assert!(r.outputs.is_empty());
    assert_eq!(action(&r), "done 0");
    assert_eq!(e.get("OLDPWD"), Some("/home"));
    assert_eq!(e.get("PWD"), Some("/tmp"));
    assert_eq!(
        run(&["cd", "-"], &mut shell, &mut e),
        (vec![out("/home\n")], "cd /home".to_string())
    );
    finish_cd("/home", Some("/tmp".to_string()), Ok(Some("/home".to_string())), &mut e);
    assert_eq!((e.get("PWD"), e.get("OLDPWD")), (Some("/home"), Some("/tmp")));
    let r = builtin_cd(&args(&["cd", "-"]), &e);
    assert_eq!((action(&r), r.outputs), ("cd /tmp".to_string(), vec![out("/tmp\n")]));
    finish_cd("/tmp", Some("/home".to_string()), Ok(Some("/tmp".to_string())), &mut e);
    let r = finish_cd("x", Some("/tmp".to_string()), Err("No such file".to_string()), &mut e);
    assert_eq!(r.outputs, [err("cd: x: No such file\n")]);
    assert_eq!(action(&r), "done 1");
    assert_eq!(e.get("OLDPWD"), Some("/home"));
    finish_cd("y", None, Ok(None), &mut e);
    assert_eq!(e.get("PWD"), Some("/tmp"));
}

#[test]
fn pwd_shows_the_directory() {
    let (mut shell, mut e) = (Shell::new(), env(&[]));
    assert_eq!(run(&["pwd"], &mut shell, &mut e), (vec![], "pwd".to_string()));
    let r = finish_pwd(Ok("/tmp".to_string()));
    assert_eq!(r.outputs, [out("/tmp\n")]);
    assert_eq!(action(&r), "done 0");
    let r = finish_pwd(Err("gone".to_string()));
    assert_eq!(r.outputs, [err("pwd: gone\n")]);
    assert_eq!(action(&r), "done 1");
}

#[test]
fn exit_asks_the_shell_to_end() {
    for (a, last, code) in [
        (vec!["exit"], 7, 7),
        (vec!["exit", "3"], 7, 3),
        (vec!["exit", "-1"], 7, -1),
        (vec!["exit", "+4"], 7, 4),
        (vec!["exit", "abc"], 7, 0),
        (vec!["exit", ""], 7, 0),
        (vec!["exit", "2147483648"], 7, 0),
        (vec!["exit", "-2147483648"], 7, -2147483648),
    ] {
        let (mut shell, mut e) = (Shell::new(), env(&[]));
        set_last_exit_status(&mut shell, last);
        assert_eq!(run(&a, &mut shell, &mut e), (vec![], format!("done {}", code)));
        assert_eq!(pending_exit(&shell), Some(code));
    }
}

#[test]
fn export_sets_and_lists() {
    let (mut shell, mut e) = (Shell::new(), env(&[("A", "1"), ("B", "2")]));
    assert_eq!(
        run(&["export"], &mut shell, &mut e),
        (vec![out("A=1\n"), out("B=2\n")], "done 0".to_string())
    );
    let (outputs, what) = run(&["export", "A=x=y", "C", "B", "D=", "D"], &mut shell, &mut e);
    assert!(outputs.is_empty());
    assert_eq!(what, "done 0");
    let pair = |k: &str, v: &str| (k.to_string(), v.to_string());
    assert_eq!(listed(&e), [pair("A", "x=y"), pair("B", "2"), pair("C", ""), pair("D", "")]);
}

#[test]
fn unset_removes() {
    let (mut shell, mut e) = (Shell::new(), env(&[("A", "1"), ("B", "2"), ("C", "3")]));
    assert_eq!(run(&["unset", "C", "X", "A"], &mut shell, &mut e), (vec![], "done 0".to_string()));
    assert_eq!(listed(&e), [("B".to_string(), "2".to_string())]);
    run(&["unset"], &mut shell, &mut e);
    assert_eq!(e.count(), 1);
}

#[test]
fn names_that_the_system_refuses() {
    for bad in [
        vec!["export", "=x"],
        vec!["export", ""],
        vec!["export", "A=\0"],
        vec!["export", "A\0"],
        vec!["unset", ""],
        vec!["unset", "A=1"],
        vec!["unset", "A", "\0"],
    ] {
        assert!(!variables_named(&args(&bad)), "{:?}", bad);
    }
    for good in [vec![], vec!["export", "A==", "B"], vec!["unset", "A"], vec!["echo", "=", "\0"]] {
        assert!(variables_named(&args(&good)), "{:?}", good);
    }
}

#[test]
fn jobs_lists_the_table() {
    let (mut shell, mut e) = (Shell::new(), env(&[]));
    assert_eq!(run(&["jobs"], &mut shell, &mut e), (vec![out("")], "done 0".to_string()));
    assert_eq!(JobTable::new().next_id(), 1);
}

#[test]
fn source_asks_for_its_file() {
    let (mut shell, mut e) = (Shell::new(), env(&[]));
    for name in ["source", "."] {
        assert_eq!(run(&[name, "x.env"], &mut shell, &mut e), (vec![], "read x.env".to_string()));
        assert_eq!(
            run(&[name], &mut shell, &mut e),
            (vec![err("source: usage: source <file>\n")], "done 1".to_string())
        );
    }
    let r = finish_source("x.env", Err("denied".to_string()), &mut e);
    assert_eq!(r.outputs, [err("source: x.env: denied\n")]);
    assert_eq!(action(&r), "done 1");
}

#[test]
fn source_loads_variables() {
    let text = "# settings\n\n  export A = \"one two\" \r\nB='x'\nnonsense \"q\" it's\n=y\nA=again\nC=\"'z'\"";
    assert!(variables_sourced(text));
    let mut e = env(&[("A", "0"), ("Z", "9")]);
    let r = finish_source("f", Ok(text.to_string()), &mut e);
    assert_eq!(
        r.outputs,
        [
            err("source: f:5: no '=' in \"nonsense \\\"q\\\" it's\", skipping\n"),
            err("source: f:6: empty key, skipping\n"),
            out("source: loaded 4 variables from f\n"),
        ]
    );
    assert_eq!(action(&r), "done 0");
    assert_eq!(e.get("A"), Some("again"));
    assert_eq!(e.get("B"), Some("x"));
    assert_eq!(e.get("C"), Some("z"));
    assert_eq!(e.get("Z"), Some("9"));
}

#[test]
fn source_counts_one_variable() {
    let mut e = env(&[]);
    let r = finish_source("f", Ok("export PATH=/bin:/usr/bin".to_string()), &mut e);
    assert_eq!(r.outputs, [out("source: loaded 1 variable from f\n")]);
    assert_eq!(e.get("PATH"), Some("/bin:/usr/bin"));
    let r = finish_source("f", Ok(String::new()), &mut e);
    assert_eq!(r.outputs, [out("source: loaded 0 variables from f\n")]);
}

#[test]
fn source_quotes_what_it_skips() {
    let mut e = env(&[]);
    let r = finish_source("f", Ok("a\tb\\\u{e9}".to_string()), &mut e);
    assert_eq!(r.outputs[0], err("source: f:1: no '=' in \"a\\tb\\\\é\", skipping\n"));
}

#[test]
fn values_that_the_system_refuses() {
    assert!(!variables_sourced("A=x\0y"));
    assert!(!variables_sourced("B=1\nA\0=x"));
    assert!(variables_sourced("# \0\nA\0b\n=\0"));
}

#[test]
fn help_lists_everything() {
    let (mut shell, mut e) = (Shell::new(), env(&[]));
    let (outputs, what) = run(&["help"], &mut shell, &mut e);
    assert_eq!(what, "done 0");
    let text = match &outputs[0] {
        Output::Stdout(t) => t.clone(),
        other => panic!("{:?}", other),
    };
    let lines: Vec<&str> = text.lines().collect();
    assert_eq!(lines.len(), 31);
    assert!(text.ends_with('\n'));
    assert_eq!(lines[0], "AuraShell — an AI-powered Unix shell");
    assert_eq!(lines[1], "");
    assert_eq!(lines[2], "Builtins:");
    assert_eq!(lines[3], "  cd [dir|-]      change directory ('-' = previous)");
    assert_eq!(lines[9], "  source <file>   load KEY=VALUE pairs from file into environment");
    assert_eq!(lines[17], "                cmd1 || cmd2   (run if failure)");
    assert_eq!(lines[20], "  expansion:    echo $HOME, echo \"${USER}!\"");
    assert_eq!(lines[30], "  (auto)          command-not-found suggestion (exit 127)");
}

#[test]
fn exported_variables_expand_in_the_next_line() {
    let (mut shell, mut e) = (Shell::new(), env(&[]));
    run(&["export", "GREETING=hello  world"], &mut shell, &mut e);
    let mut scope = Scope { vars: e, status: 0, pid: 1 };
    let hello = Token::Word("hello  world".to_string());
    assert_eq!(tokenize("$GREETING ${GREETING}", &scope), [hello.clone(), hello]);
    run(&["unset", "GREETING"], &mut shell, &mut scope.vars);
    assert_eq!(tokenize("$GREETING", &scope), [Token::Word(String::new())]);
    assert_eq!(pending_exit(&shell), None);
}
