use aurashell::agent::{AgentError, ChatAgent};
use aurashell::environment::Environment;
use aurashell::output::Output;
use aurashell::repl::{
    execute_str, history_path, idle_status, input_line, is_awaited, make_prompt, print_autopsy, request, resume,
    run_line, Demand, Dialog, Input, Question, Response, Stage,
};
use aurashell::tokenizer::Scope;

const Y: &str = "\x1b[33m";
const C: &str = "\x1b[36m";
const G: &str = "\x1b[32m";
const B: &str = "\x1b[1m";
const R: &str = "\x1b[0m";

fn wipe() -> Output {
    err(format!("\r{:<60}\r", ""))
}

fn out(s: String) -> Output {
    Output::Stdout(s)
}

fn err(s: String) -> Output {
    Output::Stderr(s)
}

fn demand(s: &Stage) -> String {
    match &s.demand {
        Demand::Ask(Question::Translate(q)) => format!("translate {}", q),
        Demand::Ask(Question::Explain(c, e)) => format!("explain {} / {}", c, e),
        Demand::Ask(Question::Plan(g)) => format!("plan {}", g),
        Demand::Ask(Question::Chat(q)) => format!("chat {}", q),
        Demand::ReadLine => "line".to_string(),
        Demand::Execute(c) => format!("execute {}", c),
        Demand::Finish => "finish".to_string(),
    }
}

fn on(s: Stage, r: Response, chat: &mut ChatAgent) -> Stage {
    assert!(is_awaited(&s.dialog, &r));
    resume(s.dialog, r, chat)
}

fn answer(s: &str) -> Response {
    Response::Answer(Ok(s.to_string()))
}

fn refusal() -> Response {
    Response::Answer(Err(AgentError::NoApiKey))
}

fn line(s: &str) -> Response {
    Response::Line(Some(s.to_string()))
}

fn executed(status: i32) -> Response {
    Response::Executed(status, None)
}

fn failed(status: i32) -> Response {
    Response::Executed(status, Some(("ls x".to_string(), "no x\n".to_string())))
}

const NO_KEY: &str = "GEMINI_API_KEY not set — run: export GEMINI_API_KEY=your-key";

#[test]
fn prompts_shorten_the_home_directory() {
    let mut e = Environment::new();
    assert_eq!(make_prompt(Some("/tmp"), &e), "/tmp ❯ ");
    assert_eq!(make_prompt(None, &e), "? ❯ ");
    e.set("HOME", "/home/ada");
    assert_eq!(make_prompt(Some("/home/ada"), &e), "~ ❯ ");
    assert_eq!(make_prompt(Some("/home/ada/é/x"), &e), "~/é/x ❯ ");
    assert_eq!(make_prompt(Some("/home/adam"), &e), "~m ❯ ");
    assert_eq!(make_prompt(Some("/home"), &e), "/home ❯ ");
    e.set("HOME", "");
    assert_eq!(make_prompt(Some("/tmp"), &e), "/tmp ❯ ");
}

#[test]
fn history_lives_in_the_home_directory() {
    let mut e = Environment::new();
    assert_eq!(history_path(&e), None);
    for (home, path) in
        [("/home/ada", "/home/ada/.aura_history"), ("/", "/.aura_history"), ("", ".aura_history")]
    {
        e.set("HOME", home);
        assert_eq!(history_path(&e).as_deref(), Some(path));
    }
}

#[test]
fn input_lines_lose_their_line_feeds() {
    assert_eq!(input_line("ls\n\n").as_deref(), Some("ls"));
    assert_eq!(input_line(" ls \r\n").as_deref(), Some(" ls \r"));
    assert_eq!(input_line("\n"), None);
    assert_eq!(input_line(""), None);
}

#[test]
fn lines_are_scripts_or_complaints() {
    let scope = Scope { vars: Environment::new(), status: 0, pid: 1 };
    assert!(matches!(execute_str("  # x", &scope), Input::Nothing));
    assert!(matches!(execute_str(";;", &scope), Input::Nothing));
    assert_eq!(idle_status(&execute_str("# x", &scope)), Some(0));
    assert_eq!(idle_status(&execute_str("a", &scope)), None);
    assert_eq!(idle_status(&execute_str("a >", &scope)), Some(1));
    match execute_str("a | b && c", &scope) {
        Input::Run(s) => assert_eq!(s.pipelines.len(), 2),
        other => panic!("{:?}", other),
    }
    match execute_str("| b", &scope) {
        Input::Invalid(text) => assert_eq!(text, "aura: syntax error near '|'\n"),
        other => panic!("{:?}", other),
    }
}

#[test]
fn commands_are_run_as_typed() {
    let mut chat = ChatAgent::new();
    let s = run_line(" ls ? ", &mut chat);
    assert_eq!(demand(&s), "execute  ls ? ");
    assert!(s.outputs.is_empty());
    let s = on(s, executed(1), &mut chat);
    assert_eq!(demand(&s), "finish");
    assert!(matches!(s.dialog, Dialog::Over));
    assert!(!is_awaited(&s.dialog, &line("x")));
}

#[test]
fn a_command_that_is_not_found_is_asked_about() {
    let mut chat = ChatAgent::new();
    let s = run_line("  pussh -x; y", &mut chat);
    let s = on(s, failed(127), &mut chat);
    assert_eq!(demand(&s), "explain pussh / pussh: command not found");
    assert_eq!(s.outputs, [err(format!("{}⟳  looking up suggestion...{}", Y, R))]);
    let s = on(s, answer("typo"), &mut chat);
    assert_eq!(s.outputs, [wipe(), err(print_autopsy("typo"))]);
    assert_eq!(demand(&s), "finish");
    let s = run_line("pussh", &mut chat);
    let s = on(s, executed(127), &mut chat);
    let s = on(s, refusal(), &mut chat);
    assert_eq!(
        s.outputs,
        [wipe(), err(format!("{}aura: suggestion unavailable: {}{}\n", Y, NO_KEY, R))]
    );
    assert_eq!(demand(&s), "finish");
}

#[test]
fn a_failure_is_explained() {
    let mut chat = ChatAgent::new();
    let s = run_line("ls x", &mut chat);
    let s = on(s, failed(2), &mut chat);
    assert_eq!(demand(&s), "explain ls x / no x\n");
    assert_eq!(s.outputs, [err(format!("{}{}✦ Autopsy: analyzing...{}", Y, B, R))]);
    let s = on(s, answer("there is no x"), &mut chat);
    assert_eq!(
        s.outputs,
        [wipe(), err(format!("{}{}✦ Autopsy:{} {}there is no x{}\n", Y, B, R, Y, R))]
    );
    let s = run_line("ls x", &mut chat);
    let s = on(s, failed(2), &mut chat);
    let s = on(s, refusal(), &mut chat);
    assert_eq!(
        s.outputs,
        [wipe(), err(format!("{}aura: autopsy unavailable: {}{}\n", Y, NO_KEY, R))]
    );
    assert_eq!(demand(&s), "finish");
}

#[test]
fn descriptions_are_translated_and_confirmed() {
    for (said, runs) in [
        (line("\n"), true),
        (line(" Y \n"), true),
        (line("y"), true),
        (Response::Line(None), true),
        (line("n"), false),
        (line("yes"), false),
        (line("ÿ"), false),
    ] {
        let mut chat = ChatAgent::new();
        let s = run_line("?  list files ", &mut chat);
        assert_eq!(demand(&s), "translate list files");
        assert_eq!(s.outputs, [err(format!("{}⟳  translating...{}", C, R))]);
        let s = on(s, answer("ls"), &mut chat);
        assert_eq!(
            s.outputs,
            [
                wipe(),
                err(format!("{}{}→  {}ls\n", C, B, R)),
                err(format!("{}[Y/n]: {}", C, R)),
            ]
        );
        assert_eq!(demand(&s), "line");
        let s = on(s, said, &mut chat);
        assert!(s.outputs.is_empty());
        if runs {
            assert_eq!(demand(&s), "execute ls");
            let s = on(s, failed(127), &mut chat);
            assert_eq!(demand(&s), "explain ls x / no x\n");
        } else {
            assert_eq!(demand(&s), "finish");
        }
    }
}

#[test]
fn letters_beyond_ascii_are_lowered_too() {
    let mut chat = ChatAgent::new();
    let s = run_line("?! goal", &mut chat);
    let s = on(s, answer("1. a"), &mut chat);
    let s = on(s, line("S\u{212a}IP"), &mut chat);
    assert_eq!(s.outputs[0], err(format!("{}  skipped{}\n", Y, R)));
}

#[test]
fn prefixes_need_something_after_them() {
    let mut chat = ChatAgent::new();
    for (l, text) in [
        ("?", "aura: ? requires a description, e.g.  ? list all rust files\n"),
        ("?? ", "aura: ?? requires a message, e.g.  ?? how do I find large files\n"),
        ("?!\t", "aura: ?! requires a goal, e.g.  ?! create a rust hello world project\n"),
    ] {
        let s = run_line(l, &mut chat);
        assert_eq!(s.outputs, [err(text.to_string())]);
        assert_eq!(demand(&s), "finish");
    }
}

#[test]
fn conversations_go_on_until_the_user_stops() {
    for stop in [line(" \n"), line("exit\n"), line(" quit"), Response::Line(None)] {
        let mut chat = ChatAgent::new();
        let s = run_line("?? hi", &mut chat);
        assert_eq!(demand(&s), "chat hi");
        assert_eq!(s.outputs, [err(format!("{}⟳  thinking...{}", G, R))]);
        let s = on(s, answer("hello"), &mut chat);
        assert_eq!(
            s.outputs,
            [wipe(), out(format!("{}hello{}\n", G, R)), err(format!("{}chat> {}", G, R))]
        );
        let s = on(s, line(" more \n"), &mut chat);
        assert_eq!(demand(&s), "chat more");
        let s = on(s, answer("yes"), &mut chat);
        let s = on(s, stop, &mut chat);
        assert_eq!(demand(&s), "finish");
        let s = run_line("??history", &mut chat);
        assert_eq!(
            s.outputs,
            [out("[1] you:  hi\n[1] aura: hello\n\n[2] you:  more\n[2] aura: yes\n\n".to_string())]
        );
    }
}

#[test]
fn a_conversation_can_fail_and_be_forgotten() {
    let mut chat = ChatAgent::new();
    let s = run_line("?? hi", &mut chat);
    let s = on(s, refusal(), &mut chat);
    assert_eq!(
        s.outputs,
        [wipe(), err(format!("{}aura: chat error: {}{}\n", Y, NO_KEY, R))]
    );
    assert_eq!(demand(&s), "finish");
    assert_eq!(chat.print_history(), "(no chat history)\n");
    chat.record("a", Ok("b".to_string())).unwrap();
    let s = run_line("?? reset ", &mut chat);
    assert_eq!(s.outputs, [out(format!("{}chat history cleared{}\n", C, R))]);
    assert_eq!(chat.print_history(), "(no chat history)\n");
}

fn prompt(i: usize, n: usize, step: &str) -> Output {
    err(format!("{}Step {}/{}: {}{} {}[Y/n/skip/abort]: {}", C, i, n, R, step, C, R))
}

fn planned(plan: &str, chat: &mut ChatAgent) -> Stage {
    let s = run_line("?! goal", chat);
    assert_eq!(demand(&s), "plan goal");
    assert_eq!(s.outputs, [err(format!("{}⟳  planning...{}", C, R))]);
    on(s, answer(plan), chat)
}

#[test]
fn plans_are_run_step_by_step() {
    let mut chat = ChatAgent::new();
    let s = planned("1. a\n2. b\n3. c", &mut chat);
    assert_eq!(
        s.outputs,
        [
            wipe(),
            err(format!("{}{}Plan (3 steps):{}\n", C, B, R)),
            err(format!("  {}1. {}a\n", C, R)),
            err(format!("  {}2. {}b\n", C, R)),
            err(format!("  {}3. {}c\n", C, R)),
            err("\n".to_string()),
            prompt(1, 3, "a"),
        ]
    );
    let s = on(s, line("y\n"), &mut chat);
    assert_eq!(demand(&s), "execute a");
    let s = on(s, failed(3), &mut chat);
    assert_eq!(demand(&s), "explain ls x / no x\n");
    let s = on(s, answer("because"), &mut chat);
    assert_eq!(
        s.outputs,
        [
            wipe(),
            err(print_autopsy("because")),
            err(format!("{}Step 1 failed (exit 3). Continue? [Y/n]: {}", Y, R)),
        ]
    );
    let s = on(s, line("\n"), &mut chat);
    assert_eq!(s.outputs, [prompt(2, 3, "b")]);
    let s = on(s, line("what?\n"), &mut chat);
    assert_eq!(
        s.outputs,
        [err(format!("{}  skipped (unrecognised input){}\n", Y, R)), prompt(3, 3, "c")]
    );
    let s = on(s, line(""), &mut chat);
    assert_eq!(demand(&s), "execute c");
    let s = on(s, executed(1), &mut chat);
    assert_eq!(s.outputs, [err(format!("{}✓ Plan complete{}\n", G, R))]);
    assert_eq!(demand(&s), "finish");
}

#[test]
fn plans_can_be_aborted() {
    for word in ["abort", "A"] {
        let mut chat = ChatAgent::new();
        let s = planned("1. a\n2. b", &mut chat);
        let s = on(s, line("S"), &mut chat);
        let s = on(s, line(word), &mut chat);
        assert_eq!(s.outputs, [err(format!("{}✗ Aborted at step 2/2{}\n", Y, R))]);
        assert_eq!(demand(&s), "finish");
    }
    for (word, aborts) in [("n", true), ("No\n", true), ("y", false), ("nope", false)] {
        let mut chat = ChatAgent::new();
        let s = planned("1. a\n2. b", &mut chat);
        let s = on(s, Response::Line(None), &mut chat);
        let s = on(s, executed(1), &mut chat);
        assert_eq!(demand(&s), "line");
        let s = on(s, line(word), &mut chat);
        if aborts {
            assert_eq!(s.outputs, [err(format!("{}✗ Aborted at step 1/2{}\n", Y, R))]);
        } else {
            assert_eq!(s.outputs, [prompt(2, 2, "b")]);
        }
    }
}

#[test]
fn plans_of_one_step_and_of_none() {
    let mut chat = ChatAgent::new();
    let s = planned("1. a", &mut chat);
    assert_eq!(s.outputs[1], err(format!("{}{}Plan (1 step):{}\n", C, B, R)));
    let s = on(s, line("skip"), &mut chat);
    assert_eq!(
        s.outputs,
        [
            err(format!("{}  skipped{}\n", Y, R)),
            err(format!("{}✓ Plan complete{}\n", G, R)),
        ]
    );
    let s = planned("none", &mut chat);
    assert_eq!(
        s.outputs,
        [
            wipe(),
            err(format!(
                "{}aura: planner error: API response parse error: no steps returned by planner{}\n",
                Y, R
            )),
        ]
    );
    let s = run_line("? x", &mut chat);
    let s = on(s, refusal(), &mut chat);
    assert_eq!(s.outputs, [wipe(), err(format!("{}aura: {}{}\n", Y, NO_KEY, R))]);
}

#[test]
fn questions_become_requests() {
    let mut e = Environment::new();
    let mut chat = ChatAgent::new();
    chat.record("q", Ok("a".to_string())).unwrap();
    let chat_question = Question::Chat("next".to_string());
    assert!(matches!(request(&chat_question, &chat, &e), Err(AgentError::NoApiKey)));
    e.set("GEMINI_API_KEY", "k");
    assert_eq!(request(&chat_question, &chat, &e).unwrap().turns.len(), 3);
    let text = |q: Question| request(&q, &chat, &e).unwrap().turns[0].text.clone();
    assert_eq!(text(Question::Translate("t".to_string())), "t");
    assert_eq!(text(Question::Plan("p".to_string())), "p");
    assert_eq!(
        text(Question::Explain("c".to_string(), " e ".to_string())),
        "Command: c\nStderr: e"
    );
}
