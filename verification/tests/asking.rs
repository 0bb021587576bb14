use aurashell::agent::{
    analyze_error, api_key, interpret_reply, plan_steps, plan_task, read_plan, read_reply,
    request_body, translate_intent, AgentError, ApiRequest, ChatAgent, ReplyParts, Role, Turn,
};
use aurashell::environment::Environment;

fn keyed() -> Environment {
    let mut e = Environment::new();
    e.set("GEMINI_API_KEY", "SECRET");
    e
}

fn shown<T: std::fmt::Debug>(r: Result<T, AgentError>) -> String {
    match r {
        Ok(v) => format!("ok {:?}", v),
        Err(e) => e.message(),
    }
}

const URL: &str =
    "https://generativelanguage.googleapis.com/v1beta/models/gemini-2.5-flash:generateContent?key=SECRET";

#[test]
fn without_a_key_nothing_is_asked() {
    let e = Environment::new();
    let want = "GEMINI_API_KEY not set — run: export GEMINI_API_KEY=your-key";
    assert_eq!(shown(api_key(&e)), want);
    assert_eq!(shown(translate_intent("x", &e)), want);
    assert_eq!(shown(analyze_error("x", "y", &e)), want);
    assert_eq!(shown(plan_task("x", &e)), want);
    assert_eq!(shown(ChatAgent::new().chat("x", &e)), want);
    assert_eq!(api_key(&keyed()).unwrap(), "SECRET");
}

#[test]
fn questions_are_put_into_requests() {
    let q = translate_intent("list files", &keyed()).unwrap();
    assert_eq!(q.url, URL);
    assert!(q.system.starts_with("You are a Unix shell command translator. The user describes"));
    assert!(q.system.ends_with("most common interpretation."));
    assert_eq!(q.turns.len(), 1);
    assert_eq!(q.turns[0].role, Role::User);
    assert_eq!(q.turns[0].text, "list files");
    assert_eq!(q.max_tokens, 256);
    assert_eq!(q.temperature_tenths, 2);

    let q = analyze_error("git pussh", "  git: 'pussh' is not a git command\n", &keyed()).unwrap();
    assert_eq!(q.turns[0].text, "Command: git pussh\nStderr: git: 'pussh' is not a git command");
    assert!(q.system.starts_with("You are a Unix shell error analyst. Given a failed command"));
    assert_eq!(q.max_tokens, 256);

    let q = plan_task("build it", &keyed()).unwrap();
    assert_eq!(q.turns[0].text, "build it");
    assert!(q.system.starts_with("You are a Unix task planner. Given a goal, output ONLY"));
    assert_eq!(q.max_tokens, 512);
    assert_eq!(q.temperature_tenths, 2);
}

#[test]
fn conversations_grow_with_answers_only() {
    let mut chat = ChatAgent::new();
    assert_eq!(chat.print_history(), "(no chat history)\n");
    assert_eq!(chat.record("one", Ok("eins".to_string())).unwrap(), "eins");
    assert!(chat.record("two", Err(AgentError::Http("down".to_string()))).is_err());
    let q = chat.chat("three", &keyed()).unwrap();
    let turns: Vec<(Role, &str)> = q.turns.iter().map(|t| (t.role, t.text.as_str())).collect();
    assert_eq!(turns, [(Role::User, "one"), (Role::Model, "eins"), (Role::User, "three")]);
    assert_eq!(q.max_tokens, 512);
    assert_eq!(q.temperature_tenths, 7);
    assert!(q.system.starts_with("You are a helpful Unix/Linux shell assistant. Answer"));
    chat.record("three", Ok("drei".to_string())).unwrap();
    assert_eq!(
        chat.print_history(),
        "[1] you:  one\n[1] aura: eins\n\n[2] you:  three\n[2] aura: drei\n\n"
    );
    chat.reset();
    assert_eq!(chat.print_history(), "(no chat history)\n");
    assert_eq!(chat.chat("x", &keyed()).unwrap().turns.len(), 1);
}

fn reply(code: u16, body: &str) -> String {
    shown(read_reply(code, Ok(body.as_bytes().to_vec())))
}

#[test]
fn the_first_candidate_is_the_answer() {
    assert_eq!(
        reply(
            200,
            r#"{"candidates":[{"content":{"parts":[{"text":" ls -la \n"},{"text":"no"}]}},{}]}"#
        ),
        "ok \"ls -la\""
    );
    assert_eq!(
        reply(299, r#"{"candidates":[{"content":{"parts":[{"text":"AB"}]}}]}"#),
        "ok \"AB\""
    );
}

#[test]
fn other_shapes_are_errors() {
    for (body, json) in [
        ("{}", "{}"),
        ("null", "null"),
        ("[ 1, 2.50 ]", "[1,2.5]"),
        (r#"{"b": true, "a": "x"}"#, r#"{"a":"x","b":true}"#),
        (r#"{"candidates": {"0": {}}}"#, r#"{"candidates":{"0":{}}}"#),
        (
            r#"{"candidates":[{"content":{"parts":[{"text":7}]}}]}"#,
            r#"{"candidates":[{"content":{"parts":[{"text":7}]}}]}"#,
        ),
    ] {
        assert_eq!(
            reply(200, body),
            format!("API response parse error: unexpected shape: {}", json)
        );
    }
}

#[test]
fn failures_are_reported_with_their_status() {
    assert_eq!(
        reply(404, r#"{"error":{"message":"no such model"}}"#),
        "API request failed: HTTP 404 Not Found: no such model"
    );
    assert_eq!(
        reply(503, r#"{"error":"busy"}"#),
        "API request failed: HTTP 503 Service Unavailable: unknown error"
    );
    assert_eq!(
        reply(300, r#"{"candidates":[{"content":{"parts":[{"text":"x"}]}}]}"#),
        "API request failed: HTTP 300 Multiple Choices: unknown error"
    );
    assert_eq!(reply(799, "{}"), "API request failed: HTTP 799 <unknown status code>: unknown error");
}

#[test]
fn what_is_not_json_is_an_error() {
    let want = "API response parse error: error decoding response body";
    assert_eq!(reply(200, "ls"), want);
    assert_eq!(reply(500, ""), want);
    assert_eq!(reply(200, "{} x"), want);
    assert_eq!(
        shown(read_reply(200, Err("connection reset".to_string()))),
        "API response parse error: connection reset"
    );
}

#[test]
fn parts_of_a_reply_decide() {
    let parts = |error: Option<&str>, text: Option<&str>| ReplyParts {
        error: error.map(|s| s.to_string()),
        text: text.map(|s| s.to_string()),
        json: "{}".to_string(),
    };
    assert_eq!(shown(interpret_reply(true, "200 OK", &parts(Some("e"), Some(" a ")))), "ok \"a\"");
    assert_eq!(
        shown(interpret_reply(true, "200 OK", &parts(Some("e"), None))),
        "API response parse error: unexpected shape: {}"
    );
    assert_eq!(
        shown(interpret_reply(false, "400 Bad Request", &parts(Some("e"), Some("a")))),
        "API request failed: HTTP 400 Bad Request: e"
    );
}

#[test]
fn plans_are_numbered_lists() {
    assert_eq!(
        plan_steps("1. mkdir x\n2. cd x\r\n  10.   cargo init . \n").unwrap(),
        ["mkdir x", "cd x", "cargo init ."]
    );
    assert_eq!(
        plan_steps("Here is a plan. Enjoy\n1) no\n3.no\n. no\nx1. no\n4. yes. 5. really\n6. ").unwrap(),
        ["yes. 5. really"]
    );
}

#[test]
fn a_plan_needs_a_step() {
    let want = "API response parse error: no steps returned by planner";
    assert_eq!(shown(plan_steps("")), want);
    assert_eq!(shown(plan_steps("do it\n- a\n")), want);
    assert_eq!(shown(read_plan(Ok("nothing".to_string()))), want);
    assert_eq!(shown(read_plan(Ok("1. a".to_string()))), "ok [\"a\"]");
    assert_eq!(
        shown(read_plan(Err(AgentError::Parse("p".to_string())))),
        "API response parse error: p"
    );
}

#[test]
fn requests_are_sent_as_json() {
    let turn = |role, text: &str| Turn { role, text: text.to_string() };
    let q = ApiRequest {
        url: "u".to_string(),
        system: "be \"kind\"".to_string(),
        turns: vec![turn(Role::User, "a\nb"), turn(Role::Model, "é"), turn(Role::User, "")],
        max_tokens: 512,
        temperature_tenths: 7,
    };
    assert_eq!(
        request_body(&q),
        concat_lines(&[
            r#"{"contents":[{"parts":[{"text":"a\nb"}],"role":"user"},"#,
            r#"{"parts":[{"text":"é"}],"role":"model"},{"parts":[{"text":""}],"role":"user"}],"#,
            r#""generationConfig":{"maxOutputTokens":512,"temperature":0.7},"#,
            r#""system_instruction":{"parts":[{"text":"be \"kind\""}]}}"#,
        ])
    );
    let q = translate_intent("x", &keyed()).unwrap();
    assert!(request_body(&q)
        .contains(r#""generationConfig":{"maxOutputTokens":256,"temperature":0.2}"#));
    assert!(request_body(&q)
        .starts_with(r#"{"contents":[{"parts":[{"text":"x"}],"role":"user"}],"#));
}

fn concat_lines(parts: &[&str]) -> String {
    parts.concat()
}
