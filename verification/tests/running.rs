use aurashell::environment::Environment;
use aurashell::executor::{
    child_signals, execute_pipeline, execute_script, has_terminal, init_shell, last_exit_status,
    make_summary, pending_exit, reap_job, reap_jobs, request_exit, set_last_exit_status, start_script,
    Effect, Event, InitStep, PipelineResult, PipelineRun, Request, ScriptStep, Shell, SignalName, WaitOutcome,
};
use aurashell::jobs::list_jobs;
use aurashell::parser::{parse, Script};
use aurashell::tokenizer::{tokenize, Scope};

fn script(line: &str) -> Script {
    parse(tokenize(line, &Scope { vars: Environment::new(), status: 0, pid: 1 })).unwrap().unwrap()
}

fn shown(effects: &[Effect]) -> Vec<String> {
    effects
        .iter()
        .map(|e| match e {
            Effect::Print(s) => format!("print {:?}", s),
            Effect::Eprint(s) => format!("eprint {:?}", s),
            Effect::Close(fds) => format!("close {:?}", fds),
            Effect::BlockChildSignal => "block".to_string(),
            Effect::RestoreSignals => "restore".to_string(),
            Effect::SetGroup { pid, pgid } => format!("group {} {}", pid, pgid),
            Effect::Foreground { pgid } => format!("foreground {}", pgid),
            Effect::RestoreStreams => "streams".to_string(),
        })
        .collect()
}

fn asked(r: &Request) -> String {
    match r {
        Request::Redirect { save_in, save_out, save_err } => {
            format!("redirect {} {} {}", save_in, save_out, save_err)
        }
        Request::Builtin => "builtin".to_string(),
        Request::OpenPipe => "pipe".to_string(),
        Request::Fork { index, pgid, capture } => format!("fork {} {:?} {:?}", index, pgid, capture),
        Request::Wait { pid } => format!("wait {}", pid),
        Request::Drain { fd } => format!("drain {}", fd),
        Request::Finish(r) => format!("finish {} {:?}", r.status, r.autopsy),
    }
}

/// Runs the first pipeline of `line` with these events, and gives what was done
/// and asked for.
fn run(line: &str, shell: &mut Shell, events: Vec<Event>) -> Vec<String> {
    let s = script(line);
    let p = &s.pipelines[0];
    let mut run = PipelineRun::new();
    let mut trace = Vec::new();
    for event in std::iter::once(Event::Start).chain(events) {
        assert!(run.expects(&event));
        let step = execute_pipeline(p, shell, &mut run, event);
        trace.extend(shown(&step.effects));
        trace.push(asked(&step.request));
    }
    trace
}

#[test]
fn a_failed_command_is_captured() {
    let mut shell = Shell::new();
    let trace = run(
        "ls nowhere",
        &mut shell,
        vec![
            Event::PipeOpened { read: 3, write: 4 },
            Event::Forked { pid: 50 },
            Event::Drained("ls: nowhere\n".to_string()),
            Event::Waited(WaitOutcome::Interrupted),
            Event::Waited(WaitOutcome::Exited { pid: 50, code: 2 }),
        ],
    );
    assert_eq!(
        trace,
        [
            "pipe",
            "block",
            "fork 0 None Some(4)",
            "group 50 50",
            "close [4]",
            "drain 3",
            "wait 50",
            "wait 50",
            "restore",
            "eprint \"ls: nowhere\\n\"",
            "finish 2 Some((\"ls nowhere\", \"ls: nowhere\\n\"))",
        ]
    );
    assert_eq!(last_exit_status(&shell), 2);
}

/// The end of a captured command that wrote `text` and exited with `code`.
fn captured(text: &str, code: i32) -> Vec<String> {
    let mut shell = Shell::new();
    let trace = run(
        "cmd",
        &mut shell,
        vec![
            Event::PipeOpened { read: 3, write: 4 },
            Event::Forked { pid: 50 },
            Event::Drained(text.to_string()),
            Event::Waited(WaitOutcome::Exited { pid: 50, code }),
        ],
    );
    assert_eq!(trace[3..6], ["group 50 50", "close [4]", "drain 3"]);
    assert_eq!(last_exit_status(&shell), code);
    trace[6..].to_vec()
}

#[test]
fn success_and_blank_complaints_are_no_material() {
    assert_eq!(captured("warning", 0), ["wait 50", "restore", "finish 0 None"]);
    assert_eq!(captured(" \n", 1), ["wait 50", "restore", "eprint \" \\n\"", "finish 1 None"]);
    assert_eq!(captured("", 1), ["wait 50", "restore", "finish 1 None"]);
}

#[test]
fn a_flood_of_complaints_is_read_before_the_wait() {
    let flood = "e".repeat(1 << 20);
    let trace = captured(&flood, 1);
    assert_eq!(trace[0], "wait 50");
    assert_eq!(trace[3], format!("finish 1 Some((\"cmd\", {:?}))", flood));
}

#[test]
fn without_a_capture_pipe_the_command_runs_all_the_same() {
    let mut shell = Shell::new();
    let trace = run(
        "cmd",
        &mut shell,
        vec![
            Event::PipeFailed("EMFILE".to_string()),
            Event::Forked { pid: 50 },
            Event::Waited(WaitOutcome::Signaled { pid: 50, signal: 9 }),
        ],
    );
    assert_eq!(
        trace,
        [
            "pipe",
            "block",
            "fork 0 None None",
            "group 50 50",
            "close []",
            "wait 50",
            "restore",
            "finish 137 None",
        ]
    );
}

#[test]
fn an_interactive_pipeline_gets_the_terminal() {
    let mut shell = Shell::new();
    assert_eq!(
        init_shell(&mut shell, true, 10),
        [
            InitStep::HandleChildSignal,
            InitStep::AwaitTerminal,
            InitStep::Ignore(SignalName::Interrupt),
            InitStep::Ignore(SignalName::Quit),
            InitStep::Ignore(SignalName::TerminalStop),
            InitStep::Ignore(SignalName::TerminalInput),
            InitStep::Ignore(SignalName::TerminalOutput),
            InitStep::LeadGroup { pid: 10 },
            InitStep::TakeTerminal { pgid: 10 },
        ]
    );
    let trace = run(
        "a | b | c 2>&1",
        &mut shell,
        vec![
            Event::PipeOpened { read: 3, write: 4 },
            Event::PipeOpened { read: 5, write: 6 },
            Event::Forked { pid: 50 },
            Event::Forked { pid: 51 },
            Event::Forked { pid: 52 },
            Event::Waited(WaitOutcome::Exited { pid: 50, code: 1 }),
            Event::Waited(WaitOutcome::Failed),
            Event::Waited(WaitOutcome::Exited { pid: 52, code: 0 }),
        ],
    );
    assert_eq!(
        trace,
        [
            "pipe",
            "pipe",
            "block",
            "fork 0 None None",
            "group 50 50",
            "fork 1 Some(50) None",
            "group 51 50",
            "fork 2 Some(50) None",
            "group 52 50",
            "close [3, 4, 5, 6]",
            "foreground 50",
            "wait 50",
            "wait 51",
            "wait 52",
            "foreground 10",
            "restore",
            "finish 0 None",
        ]
    );
}

#[test]
fn failures_close_what_was_opened() {
    let mut shell = Shell::new();
    let trace = run(
        "a | b | c",
        &mut shell,
        vec![
            Event::PipeOpened { read: 3, write: 4 },
            Event::PipeFailed("EMFILE: Too many open files".to_string()),
        ],
    );
    assert_eq!(
        trace[2..],
        [
            "eprint \"msh: pipe: EMFILE: Too many open files\\n\"",
            "close [3, 4]",
            "finish 1 None",
        ]
    );
    let trace = run(
        "a",
        &mut shell,
        vec![Event::PipeOpened { read: 3, write: 4 }, Event::ForkFailed("EAGAIN".to_string())],
    );
    assert_eq!(
        trace[3..],
        ["eprint \"msh: fork: EAGAIN\\n\"", "close [3, 4]", "restore", "finish 1 None"]
    );
}

#[test]
fn a_background_pipeline_becomes_a_job() {
    let mut shell = Shell::new();
    let trace = run(
        "sleep 10 | cat &",
        &mut shell,
        vec![
            Event::PipeOpened { read: 3, write: 4 },
            Event::Forked { pid: 50 },
            Event::Forked { pid: 51 },
        ],
    );
    assert_eq!(
        trace,
        [
            "pipe",
            "fork 0 None None",
            "group 50 50",
            "fork 1 Some(50) None",
            "group 51 50",
            "close [3, 4]",
            "print \"[1] 50\\n\"",
            "close []",
            "finish 0 None",
        ]
    );
    assert_eq!(list_jobs(shell.jobs()), "[1]  Running    sleep 10 | cat &\n");
    assert_eq!(shell.next_job(), 2);
    assert!(reap_job(&mut shell, WaitOutcome::Exited { pid: 51, code: 0 }));
    assert!(reap_job(&mut shell, WaitOutcome::Changed));
    assert_eq!(reap_jobs(&mut shell), "");
    assert!(reap_job(&mut shell, WaitOutcome::Signaled { pid: 50, signal: 15 }));
    assert!(!reap_job(&mut shell, WaitOutcome::StillAlive));
    assert!(!reap_job(&mut shell, WaitOutcome::Failed));
    assert_eq!(reap_jobs(&mut shell), "[1]+ Done       sleep 10 | cat\n");
    assert_eq!(reap_jobs(&mut shell), "");
}

#[test]
fn a_builtin_runs_in_the_shell() {
    let mut shell = Shell::new();
    let trace = run("cd /tmp > log 2>&1", &mut shell, vec![Event::Redirected, Event::BuiltinRun(1)]);
    assert_eq!(trace, ["redirect false true true", "builtin", "streams", "finish 1 None"]);
    assert_eq!(last_exit_status(&shell), 1);
    let trace = run(
        "pwd < nowhere",
        &mut shell,
        vec![Event::NotRedirected("nowhere: ENOENT".to_string())],
    );
    assert_eq!(
        trace,
        [
            "redirect true false false",
            "eprint \"msh: nowhere: ENOENT\\n\"",
            "streams",
            "finish 1 None",
        ]
    );
    assert_eq!(last_exit_status(&shell), 1);
    let trace = run("cd & ls", &mut shell, vec![Event::Forked { pid: 7 }]);
    assert_eq!(trace[0], "fork 0 None None");
}

#[test]
fn signals_and_terminals() {
    let mut shell = Shell::new();
    assert_eq!(init_shell(&mut shell, false, 10), [InitStep::HandleChildSignal]);
    assert_eq!(child_signals().len(), 6);
    assert_eq!(child_signals()[5], SignalName::Child);
    assert!(has_terminal(4, Some(4)));
    assert!(!has_terminal(4, Some(5)));
    assert!(!has_terminal(4, None));
}

#[test]
fn exits_are_requested() {
    let mut shell = Shell::new();
    assert_eq!(pending_exit(&shell), None);
    request_exit(&mut shell, -3);
    assert_eq!(pending_exit(&shell), Some(-3));
    set_last_exit_status(&mut shell, 8);
    assert_eq!(last_exit_status(&shell), 8);
}

#[test]
fn summaries_leave_redirections_out() {
    let s = script("cat a 'b c' < in | wc -l > out");
    assert_eq!(make_summary(&s.pipelines[0]), "cat a b c | wc -l");
}

/// Runs the script of `line`: `results` are what its pipelines result in. Gives
/// the positions of those that were run, and the outcome.
fn run_script(
    line: &str,
    results: &[(i32, Option<(&str, &str)>)],
) -> (Vec<usize>, i32, Option<(String, String)>) {
    let s = script(line);
    let mut shell = Shell::new();
    let (mut run, mut step) = start_script(&s);
    let mut ran = Vec::new();
    loop {
        match step {
            ScriptStep::Run(i) => {
                ran.push(i);
                let (status, autopsy) = results[i];
                let autopsy = autopsy.map(|(c, e)| (c.to_string(), e.to_string()));
                step = execute_script(&s, &mut shell, &mut run, PipelineResult { status, autopsy });
                assert_eq!(last_exit_status(&shell), status);
            }
            ScriptStep::Done(status, autopsy) => return (ran, status, autopsy),
        }
    }
}

#[test]
fn connectors_decide_what_runs() {
    let ok = (0, None);
    let bad = (1, None);
    assert_eq!(run_script("a && b", &[ok, (5, None)]), (vec![0, 1], 5, None));
    assert_eq!(run_script("a && b", &[bad, ok]), (vec![0], 1, None));
    assert_eq!(run_script("a || b", &[ok, bad]), (vec![0], 0, None));
    assert_eq!(run_script("a || b", &[bad, ok]), (vec![0, 1], 0, None));
    assert_eq!(run_script("a ; b", &[bad, (7, None)]), (vec![0, 1], 7, None));
    assert_eq!(run_script("a && b || c ; d", &[bad, ok, ok, (2, None)]), (vec![0, 2, 3], 2, None));
    assert_eq!(run_script("a && b && c", &[bad, ok, ok]), (vec![0], 1, None));
}

#[test]
fn the_last_failure_is_kept_for_an_autopsy() {
    let kept = |c: &str, e: &str| Some((c.to_string(), e.to_string()));
    assert_eq!(
        run_script("a ; b", &[(1, Some(("a", "x"))), (2, Some(("b", "y")))]),
        (vec![0, 1], 2, kept("b", "y"))
    );
    assert_eq!(
        run_script("a ; b", &[(1, Some(("a", "x"))), (2, None)]),
        (vec![0, 1], 2, kept("a", "x"))
    );
    assert_eq!(
        run_script("a ; b", &[(1, Some(("a", "x"))), (0, None)]),
        (vec![0, 1], 0, kept("a", "x"))
    );
    assert_eq!(
        run_script("a || b && c", &[(1, Some(("a", "x"))), (0, None), (3, Some(("c", "z")))]),
        (vec![0, 1, 2], 3, kept("c", "z"))
    );
    assert_eq!(
        run_script("a && b ; c", &[(0, Some(("a", "x"))), (1, None), (0, None)]),
        (vec![0, 1, 2], 0, None)
    );
}
