//! The agentic layer: what is asked of the language model, and what its
//! answers mean.

use crate::environment::{value_of, Environment, Vars};
use crate::number::{all_digits, decimal, lemma_digits, push_count};
use crate::text::{
    chars_of, is_digit, is_line, is_space, join, joining_lines_is_undone, lemma_trim_adds_nothing,
    lemma_trim_nothing, lemma_views_push, lines, lines_hold_no_line_feed, lines_of, opt_view,
    slices, string_of, trim, trimmed, trimming_is_final, trimming_leaves_what_is_between, views,
    Edge,
};
use vstd::prelude::*;
use vstd::slice::slice_subrange;

verus! {

// ---------------------------------------------------------------------------
// JSON
// ---------------------------------------------------------------------------

/// A JSON value as a tree.
pub enum Json {
    Null,
    Bool(bool),
    /// a number, by the text that stands for it
    Number(Seq<char>),
    Text(Seq<char>),
    Array(Seq<Json>),
    Object(Map<Seq<char>, Json>),
}

impl Json {
    /// What an object holds under `key`; null if there is nothing, or if this is
    /// no object.
    pub open spec fn member(self, key: Seq<char>) -> Json {
        match self {
            Json::Object(members) => if members.contains_key(key) {
                members[key]
            } else {
                Json::Null
            },
            _ => Json::Null,
        }
    }

    /// The members of an object; none if this is no object.
    pub open spec fn members(self) -> Map<Seq<char>, Json> {
        match self {
            Json::Object(members) => members,
            _ => Map::empty(),
        }
    }

    /// What an array holds at `i`; null if there is nothing, or if this is no
    /// array.
    pub open spec fn element(self, i: int) -> Json {
        match self {
            Json::Array(elements) => if 0 <= i < elements.len() {
                elements[i]
            } else {
                Json::Null
            },
            _ => Json::Null,
        }
    }
}

/// `serde_json::Value`, of which only what `json_tree` names is known.
#[verifier::external_type_specification]
#[verifier::external_body]
pub struct ExValue(serde_json::Value);

/// `serde_json::Error`, of which nothing is known.
#[verifier::external_type_specification]
#[verifier::external_body]
pub struct ExJsonError(serde_json::Error);

/// What a `serde_json::Value` holds.
pub uninterp spec fn json_tree(value: serde_json::Value) -> Json;

/// What `serde_json::from_slice` reads from a text: nothing if it is not JSON.
pub uninterp spec fn json_decode(body: Seq<u8>) -> Option<Json>;

/// What the `Display` form of a `serde_json::Value` is: the compact text.
pub uninterp spec fn json_text(tree: Json) -> Seq<char>;

/// `serde_json::from_slice`: reads one JSON value that takes up the whole text.
/// Whether a text is JSON, and which value it stands for, is named, not written
/// out.
#[verifier::external_body]
fn decode(body: &[u8]) -> (r: Result<serde_json::Value, serde_json::Error>)
    ensures
        match r {
            Ok(v) => json_decode(body@) == Some(json_tree(v)),
            Err(_) => json_decode(body@) is None,
        },
{
    serde_json::from_slice(body)
}

/// `serde_json::Value` indexed by a string: what an object holds under the key,
/// else null.
#[verifier::external_body]
fn member<'a>(v: &'a serde_json::Value, key: &str) -> (r: &'a serde_json::Value)
    ensures
        json_tree(*r) == json_tree(*v).member(key@),
{
    &v[key]
}

/// `serde_json::Value` indexed by a number: what an array holds there, else null.
#[verifier::external_body]
fn element(v: &serde_json::Value, i: usize) -> (r: &serde_json::Value)
    ensures
        json_tree(*r) == json_tree(*v).element(i as int),
{
    &v[i]
}

/// `serde_json::Value::as_str`: the text, if the value is one.
#[verifier::external_body]
fn as_text(v: &serde_json::Value) -> (r: Option<&str>)
    ensures
        match r {
            Some(s) => json_tree(*v) == Json::Text(s@),
            None => !(json_tree(*v) is Text),
        },
{
    v.as_str()
}

/// The `Display` form of a `serde_json::Value`: its compact text, which is named,
/// not written out.
#[verifier::external_body]
fn json_string(v: &serde_json::Value) -> (r: String)
    ensures
        r@ == json_text(json_tree(*v)),
{
    v.to_string()
}

/// `serde_json::Value::default`: null.
#[verifier::external_body]
fn null_value() -> (r: serde_json::Value)
    ensures
        json_tree(r) == Json::Null,
{
    serde_json::Value::default()
}

/// `serde_json::Value::from` on a `str`: the text.
#[verifier::external_body]
fn text_value(s: &str) -> (r: serde_json::Value)
    ensures
        json_tree(r) == Json::Text(s@),
{
    serde_json::Value::from(s)
}

/// `serde_json::Value::from` on a `u32`: the number, which is written in decimal
/// notation.
#[verifier::external_body]
fn count_value(n: u32) -> (r: serde_json::Value)
    ensures
        json_tree(r) == Json::Number(decimal(n as int)),
{
    serde_json::Value::from(n)
}

/// The trees of a list of values.
pub open spec fn json_trees(list: Seq<serde_json::Value>) -> Seq<Json> {
    Seq::new(list.len(), |i: int| json_tree(list[i]))
}

/// `serde_json::Value::from` on a `Vec`: the array of these values.
#[verifier::external_body]
fn array_value(list: Vec<serde_json::Value>) -> (r: serde_json::Value)
    ensures
        json_tree(r) == Json::Array(json_trees(list@)),
{
    serde_json::Value::from(list)
}

/// An assignment to a `serde_json::Value` indexed by a string: the member of the
/// object is inserted or replaced. Null counts as an object without members;
/// anything else panics.
#[verifier::external_body]
fn put_member(v: &mut serde_json::Value, key: &str, member: serde_json::Value)
    requires
        json_tree(*old(v)) is Object || json_tree(*old(v)) is Null,
    ensures
        json_tree(*final(v)) == Json::Object(
            json_tree(*old(v)).members().insert(key@, json_tree(member)),
        ),
{
    v[key] = member;
}

// ---------------------------------------------------------------------------
// Errors
// ---------------------------------------------------------------------------

/// Why there is no answer.
#[derive(Debug)]
pub enum AgentError {
    NoApiKey,
    Http(String),
    Parse(String),
}

/// The model of an `AgentError`.
#[verifier::ext_equal]
pub enum AgentErrorView {
    NoApiKey,
    Http(Seq<char>),
    Parse(Seq<char>),
}

impl View for AgentError {
    type V = AgentErrorView;

    open spec fn view(&self) -> AgentErrorView {
        match *self {
            AgentError::NoApiKey => AgentErrorView::NoApiKey,
            AgentError::Http(e) => AgentErrorView::Http(e@),
            AgentError::Parse(e) => AgentErrorView::Parse(e@),
        }
    }
}

/// What an error says.
pub open spec fn error_message(e: AgentErrorView) -> Seq<char> {
    match e {
        AgentErrorView::NoApiKey => {
            "GEMINI_API_KEY not set — run: export GEMINI_API_KEY=your-key"@
        },
        AgentErrorView::Http(e) => "API request failed: "@ + e,
        AgentErrorView::Parse(e) => "API response parse error: "@ + e,
    }
}

impl AgentError {
    /// What the error says.
    pub fn message(&self) -> (r: String)
        ensures
            r@ == error_message(self@),
    {
        match self {
            AgentError::NoApiKey => {
                "GEMINI_API_KEY not set — run: export GEMINI_API_KEY=your-key".to_string()
            },
            AgentError::Http(e) => {
                let mut r = "API request failed: ".to_string();
                r.append(e.as_str());
                r
            },
            AgentError::Parse(e) => {
                let mut r = "API response parse error: ".to_string();
                r.append(e.as_str());
                r
            },
        }
    }
}

// ---------------------------------------------------------------------------
// Requests
// ---------------------------------------------------------------------------

pub const MODEL: &'static str = "gemini-2.5-flash";

pub const MAX_TOKENS: u32 = 256;

pub const CHAT_MAX_TOKENS: u32 = 512;

pub const PLAN_MAX_TOKENS: u32 = 512;

/// The temperature of a question on its own, in tenths.
pub const TEMPERATURE_TENTHS: u32 = 2;

/// The temperature of a conversation, in tenths.
pub const CHAT_TEMPERATURE_TENTHS: u32 = 7;

pub const TRANSLATE_PROMPT: &'static str = "You are a Unix shell command translator. \
The user describes what they want to do in plain English. \
Reply with ONLY the exact shell command that accomplishes it. \
No explanation, no markdown, no backticks, no newlines. \
If the request is ambiguous, emit the safest, most common interpretation.";

pub const ANALYZE_PROMPT: &'static str = "You are a Unix shell error analyst. \
Given a failed command and its stderr, identify the root cause and the fix \
in 1-2 concise sentences. Be direct and specific. \
No markdown, no bullet points, plain text only.";

pub const PLAN_PROMPT: &'static str = "You are a Unix task planner. \
Given a goal, output ONLY a numbered list of \
shell commands to accomplish it, one per line. \
Format each line exactly as: '1. command', '2. command', etc. \
No explanation, no markdown, no headers, no blank lines between steps. \
Each command must be a valid shell command the user can run directly.";

pub const CHAT_PROMPT: &'static str = "You are a helpful Unix/Linux shell assistant. \
Answer questions about shell commands, scripts, system administration, \
and programming. Be concise. Plain text; show code in fenced blocks only \
when it adds clarity. You remember the conversation history.";

/// Who says something in a conversation.
#[derive(Debug, Clone, Copy, PartialEq, Eq, Structural)]
pub enum Role {
    User,
    Model,
}

/// Something that is said in a conversation.
#[derive(Debug)]
pub struct Turn {
    pub role: Role,
    pub text: String,
}

/// The model of a `Turn`.
#[verifier::ext_equal]
pub struct TurnView {
    pub role: Role,
    pub text: Seq<char>,
}

impl View for Turn {
    type V = TurnView;

    open spec fn view(&self) -> TurnView {
        TurnView { role: self.role, text: self.text@ }
    }
}

/// The models of a list of turns.
pub open spec fn turn_views(turns: Seq<Turn>) -> Seq<TurnView> {
    Seq::new(turns.len(), |i: int| turns[i]@)
}

/// What is sent to the language model.
#[derive(Debug)]
pub struct ApiRequest {
    pub url: String,
    pub system: String,
    pub turns: Vec<Turn>,
    pub max_tokens: u32,
    pub temperature_tenths: u32,
}

/// The model of an `ApiRequest`.
#[verifier::ext_equal]
pub struct ApiRequestView {
    pub url: Seq<char>,
    pub system: Seq<char>,
    pub turns: Seq<TurnView>,
    pub max_tokens: u32,
    pub temperature_tenths: u32,
}

impl View for ApiRequest {
    type V = ApiRequestView;

    open spec fn view(&self) -> ApiRequestView {
        ApiRequestView {
            url: self.url@,
            system: self.system@,
            turns: turn_views(self.turns@),
            max_tokens: self.max_tokens,
            temperature_tenths: self.temperature_tenths,
        }
    }
}

/// Whether `r` is the request `f` makes of the key, or the error that there is
/// no key.
pub open spec fn asks(
    r: Result<ApiRequest, AgentError>,
    env: Vars,
    f: spec_fn(Seq<char>) -> ApiRequestView,
) -> bool {
    match value_of(env, "GEMINI_API_KEY"@) {
        Some(key) => r matches Ok(q) && q@ == f(key),
        None => r matches Err(e) && e@ == AgentErrorView::NoApiKey,
    }
}

/// The key for the language model.
pub fn api_key(env: &Environment) -> (r: Result<String, AgentError>)
    ensures
        match value_of(env@, "GEMINI_API_KEY"@) {
            Some(key) => r matches Ok(k) && k@ == key,
            None => r matches Err(e) && e@ == AgentErrorView::NoApiKey,
        },
{
    match env.get("GEMINI_API_KEY") {
        Some(key) => Ok(key.to_string()),
        None => Err(AgentError::NoApiKey),
    }
}

/// Where requests go.
pub open spec fn endpoint(key: Seq<char>) -> Seq<char> {
    "https://generativelanguage.googleapis.com/v1beta/models/"@ + MODEL@
        + ":generateContent?key="@ + key
}

/// Where requests go.
fn request_url(key: &str) -> (r: String)
    ensures
        r@ == endpoint(key@),
{
    let mut url = "https://generativelanguage.googleapis.com/v1beta/models/".to_string();
    url.append(MODEL);
    url.append(":generateContent?key=");
    url.append(key);
    url
}

/// A conversation so far: what was asked, and what was answered.
pub type History = Seq<(Seq<char>, Seq<char>)>;

/// The turns of a conversation.
pub open spec fn history_turns(history: History) -> Seq<TurnView>
    decreases history.len(),
{
    if history.len() == 0 {
        seq![]
    } else {
        history_turns(history.drop_last()) + seq![
            TurnView { role: Role::User, text: history.last().0 },
            TurnView { role: Role::Model, text: history.last().1 },
        ]
    }
}

/// A question on its own.
pub open spec fn single_request(
    key: Seq<char>,
    system: Seq<char>,
    user: Seq<char>,
    max_tokens: u32,
) -> ApiRequestView {
    ApiRequestView {
        url: endpoint(key),
        system,
        turns: seq![TurnView { role: Role::User, text: user }],
        max_tokens,
        temperature_tenths: TEMPERATURE_TENTHS,
    }
}

/// A question that follows a conversation.
pub open spec fn chat_request(
    key: Seq<char>,
    system: Seq<char>,
    history: History,
    user: Seq<char>,
    max_tokens: u32,
) -> ApiRequestView {
    ApiRequestView {
        url: endpoint(key),
        system,
        turns: history_turns(history).push(TurnView { role: Role::User, text: user }),
        max_tokens,
        temperature_tenths: CHAT_TEMPERATURE_TENTHS,
    }
}

/// Asks `user` on its own.
fn call(env: &Environment, system: &str, user: &str, max_tokens: u32) -> (r: Result<
    ApiRequest,
    AgentError,
>)
    ensures
        asks(r, env@, |key: Seq<char>| single_request(key, system@, user@, max_tokens)),
{
    match api_key(env) {
        Ok(key) => {
            let mut turns: Vec<Turn> = Vec::new();
            turns.push(Turn { role: Role::User, text: user.to_string() });
            assert(turn_views(turns@) =~= seq![TurnView { role: Role::User, text: user@ }]);
            Ok(
                ApiRequest {
                    url: request_url(key.as_str()),
                    system: system.to_string(),
                    turns,
                    max_tokens,
                    temperature_tenths: TEMPERATURE_TENTHS,
                },
            )
        },
        Err(e) => Err(e),
    }
}

/// The model of a list of questions and answers.
pub open spec fn history_view(history: Seq<(String, String)>) -> History {
    Seq::new(history.len(), |i: int| (history[i].0@, history[i].1@))
}

/// Asks `user` after the conversation `history`.
fn call_with_history(
    env: &Environment,
    system: &str,
    history: &[(String, String)],
    user: &str,
    max_tokens: u32,
) -> (r: Result<ApiRequest, AgentError>)
    ensures
        asks(
            r,
            env@,
            |key: Seq<char>|
                chat_request(key, system@, history_view(history@), user@, max_tokens),
        ),
{
    match api_key(env) {
        Ok(key) => {
            let ghost all = history_view(history@);
            let mut turns: Vec<Turn> = Vec::new();
            let mut i: usize = 0;
            assert(turn_views(turns@) =~= history_turns(all.take(0)));
            while i < history.len()
                invariant
                    i <= history@.len(),
                    all == history_view(history@),
                    turn_views(turns@) == history_turns(all.take(i as int)),
                decreases history@.len() - i,
            {
                let ghost before = turn_views(turns@);
                let question = history[i].0.clone();
                let answer = history[i].1.clone();
                turns.push(Turn { role: Role::User, text: question });
                turns.push(Turn { role: Role::Model, text: answer });
                proof {
                    let longer = all.take(i + 1);
                    assert(longer.drop_last() =~= all.take(i as int));
                    assert(longer.last() == all[i as int]);
                    assert(turn_views(turns@) =~= before + seq![
                        TurnView { role: Role::User, text: question@ },
                        TurnView { role: Role::Model, text: answer@ },
                    ]);
                }
                i += 1;
            }
            assert(all.take(i as int) =~= all);
            let ghost before = turn_views(turns@);
            turns.push(Turn { role: Role::User, text: user.to_string() });
            assert(turn_views(turns@) =~= before.push(
                TurnView { role: Role::User, text: user@ },
            ));
            Ok(
                ApiRequest {
                    url: request_url(key.as_str()),
                    system: system.to_string(),
                    turns,
                    max_tokens,
                    temperature_tenths: CHAT_TEMPERATURE_TENTHS,
                },
            )
        },
        Err(e) => Err(e),
    }
}

/// Asks for the shell command that does what `input` describes.
pub fn translate_intent(input: &str, env: &Environment) -> (r: Result<ApiRequest, AgentError>)
    ensures
        asks(
            r,
            env@,
            |key: Seq<char>| single_request(key, TRANSLATE_PROMPT@, input@, MAX_TOKENS),
        ),
{
    call(env, TRANSLATE_PROMPT, input, MAX_TOKENS)
}

/// What is asked about a failed command.
pub open spec fn failure_report(command: Seq<char>, stderr: Seq<char>) -> Seq<char> {
    "Command: "@ + command + "\nStderr: "@ + trim(stderr)
}

/// Asks why a command failed that wrote `stderr`.
pub fn analyze_error(command: &str, stderr: &str, env: &Environment) -> (r: Result<
    ApiRequest,
    AgentError,
>)
    ensures
        asks(
            r,
            env@,
            |key: Seq<char>|
                single_request(key, ANALYZE_PROMPT@, failure_report(command@, stderr@), MAX_TOKENS),
        ),
{
    let cs: Vec<char> = chars_of(stderr);
    let mut user = "Command: ".to_string();
    user.append(command);
    user.append("\nStderr: ");
    user.append(string_of(trimmed(cs.as_slice(), Edge::White)).as_str());
    call(env, ANALYZE_PROMPT, user.as_str(), MAX_TOKENS)
}

/// Asks for the commands that reach `goal`.
pub fn plan_task(goal: &str, env: &Environment) -> (r: Result<ApiRequest, AgentError>)
    ensures
        asks(
            r,
            env@,
            |key: Seq<char>| single_request(key, PLAN_PROMPT@, goal@, PLAN_MAX_TOKENS),
        ),
{
    call(env, PLAN_PROMPT, goal, PLAN_MAX_TOKENS)
}

// ---------------------------------------------------------------------------
// The text of a request
// ---------------------------------------------------------------------------

/// An object with one member.
pub open spec fn object1(key: Seq<char>, value: Json) -> Json {
    Json::Object(Map::empty().insert(key, value))
}

/// An object with two members.
pub open spec fn object2(k1: Seq<char>, v1: Json, k2: Seq<char>, v2: Json) -> Json {
    Json::Object(Map::empty().insert(k1, v1).insert(k2, v2))
}

/// A text as a list of parts.
pub open spec fn text_parts(text: Seq<char>) -> Json {
    Json::Array(seq![object1("text"@, Json::Text(text))])
}

/// The name of a role.
pub open spec fn role_name(role: Role) -> Seq<char> {
    match role {
        Role::User => "user"@,
        Role::Model => "model"@,
    }
}

/// A turn of a conversation.
pub open spec fn turn_tree(t: TurnView) -> Json {
    object2("role"@, Json::Text(role_name(t.role)), "parts"@, text_parts(t.text))
}

/// A number of tenths below one, as it is written: a zero, a point and a digit.
pub open spec fn tenths_text(n: u32) -> Seq<u8> {
    seq![48u8, 46u8, (48 + n) as u8]
}

/// A number of tenths below one, as JSON reads it.
pub open spec fn tenths_tree(n: u32) -> Json {
    match json_decode(tenths_text(n)) {
        Some(tree) => tree,
        None => Json::Null,
    }
}

/// What is sent for a request.
pub open spec fn body_tree(q: ApiRequestView) -> Json {
    Json::Object(
        Map::empty().insert(
            "system_instruction"@,
            object1("parts"@, text_parts(q.system)),
        ).insert(
            "contents"@,
            Json::Array(Seq::new(q.turns.len(), |i: int| turn_tree(q.turns[i]))),
        ).insert(
            "generationConfig"@,
            object2(
                "maxOutputTokens"@,
                Json::Number(decimal(q.max_tokens as int)),
                "temperature"@,
                tenths_tree(q.temperature_tenths),
            ),
        ),
    )
}

/// An object with one member.
fn one_member(key: &str, value: serde_json::Value) -> (r: serde_json::Value)
    ensures
        json_tree(r) == object1(key@, json_tree(value)),
{
    let mut r = null_value();
    put_member(&mut r, key, value);
    r
}

/// A text as a list of parts.
fn parts_value(text: &str) -> (r: serde_json::Value)
    ensures
        json_tree(r) == text_parts(text@),
{
    let mut list: Vec<serde_json::Value> = Vec::new();
    list.push(one_member("text", text_value(text)));
    assert(json_trees(list@) =~= seq![object1("text"@, Json::Text(text@))]);
    array_value(list)
}

/// A turn of a conversation.
fn turn_value(t: &Turn) -> (r: serde_json::Value)
    ensures
        json_tree(r) == turn_tree(t@),
{
    let role = match t.role {
        Role::User => "user",
        Role::Model => "model",
    };
    let mut r = one_member("role", text_value(role));
    put_member(&mut r, "parts", parts_value(t.text.as_str()));
    r
}

/// A number of tenths below one.
fn tenths_value(n: u32) -> (r: serde_json::Value)
    requires
        n <= 9,
    ensures
        json_tree(r) == tenths_tree(n),
{
    let mut text: Vec<u8> = Vec::new();
    text.push(48);
    text.push(46);
    text.push((48 + n) as u8);
    assert(text@ =~= tenths_text(n));
    match decode(text.as_slice()) {
        Ok(v) => v,
        Err(_) => null_value(),
    }
}

/// The text that is sent for the request `q`.
pub fn request_body(q: &ApiRequest) -> (r: String)
    requires
        q.temperature_tenths <= 9,
    ensures
        r@ == json_text(body_tree(q@)),
{
    let mut contents: Vec<serde_json::Value> = Vec::new();
    let mut i: usize = 0;
    while i < q.turns.len()
        invariant
            i <= q.turns@.len(),
            json_trees(contents@) =~= Seq::new(i as nat, |j: int| turn_tree(q@.turns[j])),
        decreases q.turns@.len() - i,
    {
        let ghost before = json_trees(contents@);
        let turn = turn_value(&q.turns[i]);
        contents.push(turn);
        assert(json_trees(contents@) =~= before.push(json_tree(turn)));
        i += 1;
    }
    let mut config = one_member("maxOutputTokens", count_value(q.max_tokens));
    put_member(&mut config, "temperature", tenths_value(q.temperature_tenths));
    let instruction = one_member("parts", parts_value(q.system.as_str()));
    let mut body = one_member("system_instruction", instruction);
    put_member(&mut body, "contents", array_value(contents));
    put_member(&mut body, "generationConfig", config);
    assert(json_tree(body) == body_tree(q@));
    json_string(&body)
}

// ---------------------------------------------------------------------------
// Replies
// ---------------------------------------------------------------------------

/// What a reply is read for.
#[derive(Debug)]
pub struct ReplyParts {
    /// the message of an error
    pub error: Option<String>,
    /// the text of the first candidate
    pub text: Option<String>,
    /// the whole reply
    pub json: String,
}

/// The model of `ReplyParts`.
#[verifier::ext_equal]
pub struct PartsView {
    pub error: Option<Seq<char>>,
    pub text: Option<Seq<char>>,
    pub json: Seq<char>,
}

impl View for ReplyParts {
    type V = PartsView;

    open spec fn view(&self) -> PartsView {
        PartsView { error: opt_view(self.error), text: opt_view(self.text), json: self.json@ }
    }
}

/// The text that a JSON value is, if it is one.
pub open spec fn text_of(tree: Json) -> Option<Seq<char>> {
    match tree {
        Json::Text(s) => Some(s),
        _ => None,
    }
}

/// What a reply is read for.
pub open spec fn parts(tree: Json) -> PartsView {
    PartsView {
        error: text_of(tree.member("error"@).member("message"@)),
        text: text_of(
            tree.member("candidates"@).element(0).member("content"@).member("parts"@).element(
                0,
            ).member("text"@),
        ),
        json: json_text(tree),
    }
}

/// The meaning of a reply.
pub open spec fn interpreted(success: bool, status: Seq<char>, p: PartsView) -> Result<
    Seq<char>,
    AgentErrorView,
> {
    if !success {
        Err(
            AgentErrorView::Http(
                "HTTP "@ + status + ": "@ + match p.error {
                    Some(message) => message,
                    None => "unknown error"@,
                },
            ),
        )
    } else {
        match p.text {
            Some(text) => Ok(trim(text)),
            None => Err(AgentErrorView::Parse("unexpected shape: "@ + p.json)),
        }
    }
}

/// The model of an answer, or of the lack of one.
pub open spec fn answer_view(r: Result<String, AgentError>) -> Result<Seq<char>, AgentErrorView> {
    match r {
        Ok(text) => Ok(text@),
        Err(e) => Err(e@),
    }
}

/// The meaning of a reply that came with the HTTP status `status`.
pub fn interpret_reply(success: bool, status: &str, p: &ReplyParts) -> (r: Result<
    String,
    AgentError,
>)
    ensures
        answer_view(r) == interpreted(success, status@, p@),
{
    if !success {
        let mut message = "HTTP ".to_string();
        message.append(status);
        message.append(": ");
        match &p.error {
            Some(e) => message.append(e.as_str()),
            None => message.append("unknown error"),
        }
        Err(AgentError::Http(message))
    } else {
        match &p.text {
            Some(text) => {
                let cs: Vec<char> = chars_of(text.as_str());
                Ok(string_of(trimmed(cs.as_slice(), Edge::White)))
            },
            None => {
                let mut message = "unexpected shape: ".to_string();
                message.append(p.json.as_str());
                Err(AgentError::Parse(message))
            },
        }
    }
}

/// The text that a JSON value is, if it is one.
fn text_in(v: &serde_json::Value) -> (r: Option<String>)
    ensures
        opt_view(r) == text_of(json_tree(*v)),
{
    match as_text(v) {
        Some(s) => Some(s.to_string()),
        None => None,
    }
}

/// What the reply `v` is read for.
fn take_parts(v: &serde_json::Value) -> (r: ReplyParts)
    ensures
        r@ == parts(json_tree(*v)),
{
    let error = text_in(member(member(v, "error"), "message"));
    let content = member(element(member(v, "candidates"), 0), "content");
    let text = text_in(member(element(member(content, "parts"), 0), "text"));
    ReplyParts { error, text, json: json_string(v) }
}

/// What the `Display` form of a `reqwest::StatusCode` says after the number.
pub uninterp spec fn reason_phrase(code: u16) -> Seq<char>;

/// The text of an HTTP status.
pub open spec fn status_text(code: u16) -> Seq<char> {
    decimal(code as int) + " "@ + reason_phrase(code)
}

/// The `Display` form of `reqwest::StatusCode`: the number, a blank, and the
/// reason phrase that goes with the number, which is named, not written out.
/// There is a status code for every number from 100 to 999.
#[verifier::external_body]
fn status_line(code: u16) -> (r: String)
    requires
        100 <= code <= 999,
    ensures
        r@ == decimal(code as int) + " "@ + reason_phrase(code),
{
    reqwest::StatusCode::from_u16(code).unwrap().to_string()
}

/// Whether an HTTP status stands for success.
pub open spec fn is_success(code: u16) -> bool {
    200 <= code < 300
}

/// The meaning of a reply with the HTTP status `code` and the body `body`, or
/// of a body that could not be received.
pub open spec fn reply(code: u16, body: Result<Seq<u8>, Seq<char>>) -> Result<
    Seq<char>,
    AgentErrorView,
> {
    match body {
        Ok(bytes) => match json_decode(bytes) {
            Some(tree) => interpreted(is_success(code), status_text(code), parts(tree)),
            None => Err(AgentErrorView::Parse("error decoding response body"@)),
        },
        Err(e) => Err(AgentErrorView::Parse(e)),
    }
}

/// The model of a body, or of the lack of one.
pub open spec fn body_view(body: Result<Vec<u8>, String>) -> Result<Seq<u8>, Seq<char>> {
    match body {
        Ok(bytes) => Ok(bytes@),
        Err(e) => Err(e@),
    }
}

/// The meaning of a reply with the HTTP status `code` and the body `body`, or
/// of a body that could not be received. A body that is not JSON is an error,
/// whatever the status.
pub fn read_reply(code: u16, body: Result<Vec<u8>, String>) -> (r: Result<String, AgentError>)
    requires
        100 <= code <= 999,
    ensures
        answer_view(r) == reply(code, body_view(body)),
{
    match body {
        Ok(bytes) => match decode(bytes.as_slice()) {
            Ok(v) => {
                let p = take_parts(&v);
                let status = status_line(code);
                interpret_reply(200 <= code && code < 300, status.as_str(), &p)
            },
            Err(_) => Err(AgentError::Parse("error decoding response body".to_string())),
        },
        Err(e) => Err(AgentError::Parse(e)),
    }
}

// ---------------------------------------------------------------------------
// Plans
// ---------------------------------------------------------------------------

/// The position of the first full stop that a blank follows, or the length of
/// `s` without one.
pub open spec fn find_stop(s: Seq<char>) -> int
    decreases s.len(),
{
    if s.len() == 0 || (s.len() > 1 && s[0] == '.' && s[1] == ' ') {
        0
    } else {
        1 + find_stop(s.skip(1))
    }
}

/// Whether a full stop that a blank follows is at `i`.
pub open spec fn stop_at(s: Seq<char>, i: int) -> bool {
    0 <= i && i + 1 < s.len() && s[i] == '.' && s[i + 1] == ' '
}

proof fn lemma_find_stop(s: Seq<char>, k: int)
    requires
        0 <= k <= s.len(),
        forall|j: int| 0 <= j < k ==> !#[trigger] stop_at(s, j),
        k < s.len() ==> stop_at(s, k),
    ensures
        find_stop(s) == k,
    decreases k,
{
    if k > 0 {
        let t = s.skip(1);
        assert(!stop_at(s, 0));
        assert forall|j: int| 0 <= j < k - 1 implies !#[trigger] stop_at(t, j) by {
            assert(!stop_at(s, j + 1));
        }
        lemma_find_stop(t, k - 1);
    }
}

/// The command on a line of a plan: what follows a number, a full stop and a
/// blank, unless that is nothing.
pub open spec fn step_of(raw: Seq<char>) -> Option<Seq<char>> {
    let line = trim(raw);
    let k = find_stop(line);
    let command = trim(line.skip(k + 2));
    if 0 < k < line.len() && all_digits(line.take(k)) && command.len() > 0 {
        Some(command)
    } else {
        None
    }
}

/// The commands on the lines of a plan.
pub open spec fn steps_of(all: Seq<Seq<char>>) -> Seq<Seq<char>>
    decreases all.len(),
{
    if all.len() == 0 {
        seq![]
    } else {
        let before = steps_of(all.drop_last());
        match step_of(all.last()) {
            Some(step) => before.push(step),
            None => before,
        }
    }
}

/// The commands of a plan.
pub open spec fn plan(raw: Seq<char>) -> Result<Seq<Seq<char>>, AgentErrorView> {
    let steps = steps_of(lines(raw));
    if steps.len() == 0 {
        Err(AgentErrorView::Parse("no steps returned by planner"@))
    } else {
        Ok(steps)
    }
}

/// The model of a list of commands, or of the lack of one.
pub open spec fn steps_view(r: Result<Vec<String>, AgentError>) -> Result<
    Seq<Seq<char>>,
    AgentErrorView,
> {
    match r {
        Ok(steps) => Ok(views(steps@)),
        Err(e) => Err(e@),
    }
}

/// The command on the line `raw` of a plan.
fn read_step(raw: &[char]) -> (r: Option<String>)
    ensures
        opt_view(r) == step_of(raw@),
{
    let line = trimmed(raw, Edge::White);
    let mut k: usize = 0;
    while k < line.len() && !(k + 1 < line.len() && line[k] == '.' && line[k + 1] == ' ')
        invariant
            k <= line@.len(),
            forall|j: int| 0 <= j < k ==> !#[trigger] stop_at(line@, j),
        decreases line@.len() - k,
    {
        assert(!stop_at(line@, k as int));
        k += 1;
    }
    proof {
        assert(k < line@.len() ==> stop_at(line@, k as int));
        lemma_find_stop(line@, k as int);
    }
    if k == 0 || k == line.len() {
        return None;
    }
    let mut i: usize = 0;
    while i < k
        invariant
            i <= k < line@.len(),
            k == find_stop(line@),
            line@ == trim(raw@),
            forall|j: int| 0 <= j < i ==> is_digit(line@[j]),
        decreases k - i,
    {
        if line[i] < '0' || line[i] > '9' {
            assert(line@.take(k as int)[i as int] == line@[i as int]);
            assert(!all_digits(line@.take(k as int)));
            return None;
        }
        i += 1;
    }
    assert(all_digits(line@.take(k as int)));
    let rest = slice_subrange(line, k + 2, line.len());
    assert(rest@ =~= line@.skip(k + 2));
    let command = trimmed(rest, Edge::White);
    if command.len() == 0 {
        None
    } else {
        Some(string_of(command))
    }
}

/// The commands of the plan `raw`.
pub fn plan_steps(raw: &str) -> (r: Result<Vec<String>, AgentError>)
    ensures
        steps_view(r) == plan(raw@),
{
    let cs: Vec<char> = chars_of(raw);
    let all: Vec<Vec<char>> = lines_of(cs.as_slice());
    let ghost all_lines = lines(raw@);
    let mut steps: Vec<String> = Vec::new();
    let mut i: usize = 0;
    assert(views(steps@) =~= steps_of(all_lines.take(0)));
    while i < all.len()
        invariant
            i <= all@.len(),
            slices(all@) == all_lines,
            views(steps@) == steps_of(all_lines.take(i as int)),
        decreases all@.len() - i,
    {
        proof {
            let longer = all_lines.take(i + 1);
            assert(longer.drop_last() =~= all_lines.take(i as int));
            assert(longer.last() == all@[i as int]@);
        }
        if let Some(step) = read_step(all[i].as_slice()) {
            proof {
                lemma_views_push(steps@, step);
            }
            steps.push(step);
        }
        i += 1;
    }
    assert(all_lines.take(i as int) =~= all_lines);
    if steps.len() == 0 {
        Err(AgentError::Parse("no steps returned by planner".to_string()))
    } else {
        Ok(steps)
    }
}

/// The commands that an answer to `plan_task` holds.
pub fn read_plan(answer: Result<String, AgentError>) -> (r: Result<Vec<String>, AgentError>)
    ensures
        steps_view(r) == (match answer_view(answer) {
            Ok(raw) => plan(raw),
            Err(e) => Err(e),
        }),
{
    match answer {
        Ok(raw) => plan_steps(raw.as_str()),
        Err(e) => Err(e),
    }
}

// ---------------------------------------------------------------------------
// Conversations
// ---------------------------------------------------------------------------

/// A conversation. It lives as long as the shell.
pub struct ChatAgent {
    history: Vec<(String, String)>,
}

impl View for ChatAgent {
    type V = History;

    closed spec fn view(&self) -> History {
        history_view(self.history@)
    }
}

/// The lines for one question and its answer.
pub open spec fn exchange_text(i: int, e: (Seq<char>, Seq<char>)) -> Seq<char> {
    "["@ + decimal(i + 1) + "] you:  "@ + e.0 + "\n["@ + decimal(i + 1) + "] aura: "@ + e.1
        + "\n\n"@
}

/// The lines for the first `n` questions and answers.
pub open spec fn exchanges_text(history: History, n: int) -> Seq<char>
    decreases n,
{
    if n <= 0 {
        seq![]
    } else {
        exchanges_text(history, n - 1) + exchange_text(n - 1, history[n - 1])
    }
}

/// A conversation as it is shown.
pub open spec fn history_text(history: History) -> Seq<char> {
    if history.len() == 0 {
        "(no chat history)\n"@
    } else {
        exchanges_text(history, history.len() as int)
    }
}

/// What a conversation is after `input` was answered, or was not.
pub open spec fn answered(
    history: History,
    input: Seq<char>,
    answer: Result<Seq<char>, AgentErrorView>,
) -> History {
    match answer {
        Ok(text) => history.push((input, text)),
        Err(_) => history,
    }
}

impl ChatAgent {
    /// A conversation in which nothing has been said.
    pub fn new() -> (r: ChatAgent)
        ensures
            r@ == Seq::<(Seq<char>, Seq<char>)>::empty(),
    {
        let r = ChatAgent { history: Vec::new() };
        assert(r@ =~= Seq::<(Seq<char>, Seq<char>)>::empty());
        r
    }

    /// Asks `input`, with everything that has been said before.
    pub fn chat(&self, input: &str, env: &Environment) -> (r: Result<ApiRequest, AgentError>)
        ensures
            asks(
                r,
                env@,
                |key: Seq<char>|
                    chat_request(key, CHAT_PROMPT@, self@, input@, CHAT_MAX_TOKENS),
            ),
    {
        call_with_history(env, CHAT_PROMPT, self.history.as_slice(), input, CHAT_MAX_TOKENS)
    }

    /// Takes the answer to `input`. It is remembered if there is one.
    pub fn record(&mut self, input: &str, answer: Result<String, AgentError>) -> (r: Result<
        String,
        AgentError,
    >)
        ensures
            answer_view(r) == answer_view(answer),
            final(self)@ == answered(old(self)@, input@, answer_view(answer)),
    {
        match answer {
            Ok(text) => {
                self.history.push((input.to_string(), text.clone()));
                assert(self@ =~= old(self)@.push((input@, text@)));
                Ok(text)
            },
            Err(e) => Err(e),
        }
    }

    /// Forgets everything.
    pub fn reset(&mut self)
        ensures
            final(self)@ == Seq::<(Seq<char>, Seq<char>)>::empty(),
    {
        self.history.clear();
        assert(self@ =~= Seq::<(Seq<char>, Seq<char>)>::empty());
    }

    /// The conversation as it is shown.
    pub fn print_history(&self) -> (r: String)
        ensures
            r@ == history_text(self@),
    {
        if self.history.len() == 0 {
            return "(no chat history)\n".to_string();
        }
        let mut r = String::new();
        let mut i: usize = 0;
        assert(r@ =~= seq![]);
        while i < self.history.len()
            invariant
                i <= self.history@.len(),
                r@ == exchanges_text(self@, i as int),
            decreases self.history@.len() - i,
        {
            let ghost before = r@;
            let ghost e = self@[i as int];
            r.append("[");
            push_count(&mut r, i + 1);
            r.append("] you:  ");
            r.append(self.history[i].0.as_str());
            r.append("\n[");
            push_count(&mut r, i + 1);
            r.append("] aura: ");
            r.append(self.history[i].1.as_str());
            r.append("\n\n");
            assert(r@ =~= before + exchange_text(i as int, e));
            i += 1;
        }
        r
    }
}

// ---------------------------------------------------------------------------
// Laws
// ---------------------------------------------------------------------------

/// In a request that follows a conversation the user and the model take turns,
/// in the order of the conversation, and the user has the last word.
pub proof fn turns_alternate(history: History, i: int)
    ensures
        history_turns(history).len() == 2 * history.len(),
        0 <= i < history.len() ==> history_turns(history)[2 * i] == (TurnView {
            role: Role::User,
            text: history[i].0,
        }) && history_turns(history)[2 * i + 1] == (TurnView {
            role: Role::Model,
            text: history[i].1,
        }),
    decreases history.len(),
{
    if history.len() > 0 {
        turns_alternate(history.drop_last(), i);
    }
}

/// A question that was answered is remembered, with its answer, in the next
/// request.
pub proof fn conversations_are_remembered(
    key: Seq<char>,
    system: Seq<char>,
    history: History,
    input: Seq<char>,
    answer: Seq<char>,
    next: Seq<char>,
    max_tokens: u32,
)
    ensures
        chat_request(
            key,
            system,
            answered(history, input, Ok(answer)),
            next,
            max_tokens,
        ).turns == chat_request(key, system, history, input, max_tokens).turns + seq![
            TurnView { role: Role::Model, text: answer },
            TurnView { role: Role::User, text: next },
        ],
{
    let longer = history.push((input, answer));
    assert(longer.drop_last() =~= history);
    assert(chat_request(key, system, longer, next, max_tokens).turns =~= chat_request(
        key,
        system,
        history,
        input,
        max_tokens,
    ).turns + seq![
        TurnView { role: Role::Model, text: answer },
        TurnView { role: Role::User, text: next },
    ]);
}

/// A question that was not answered leaves no trace: the next request is what
/// it would have been without it.
pub proof fn failures_are_forgotten(
    key: Seq<char>,
    system: Seq<char>,
    history: History,
    input: Seq<char>,
    error: AgentErrorView,
    next: Seq<char>,
    max_tokens: u32,
)
    ensures
        chat_request(
            key,
            system,
            answered(history, input, Err(error)),
            next,
            max_tokens,
        ) == chat_request(key, system, history, next, max_tokens),
{
}

/// An answer is trimmed, and comes only with a status that stands for success.
pub proof fn answers_are_trimmed(code: u16, body: Result<Seq<u8>, Seq<char>>)
    ensures
        reply(code, body) matches Ok(text) ==> is_success(code) && trim(text) == text,
        !is_success(code) ==> reply(code, body) is Err,
{
    if let Ok(bytes) = body {
        if let Some(tree) = json_decode(bytes) {
            if let Some(text) = parts(tree).text {
                trimming_is_final(text);
            }
        }
    }
}

/// Whether a command can be a step of a plan: a line with something on it, and
/// nothing around it.
pub open spec fn is_step(s: Seq<char>) -> bool {
    s.len() > 0 && !s.contains('\n') && !is_space(s[0]) && !is_space(s.last())
}

proof fn lemma_step(raw: Seq<char>)
    requires
        !raw.contains('\n'),
    ensures
        step_of(raw) matches Some(step) ==> is_step(step),
{
    let line = trim(raw);
    let k = find_stop(line);
    let rest = line.skip(k + 2);
    lemma_trim_adds_nothing(raw, '\n');
    if step_of(raw) is Some {
        lemma_find_stop_in(line);
        assert forall|j: int| 0 <= j < rest.len() implies rest[j] != '\n' by {
            assert(rest[j] == line[j + k + 2]);
            assert(line.contains(line[j + k + 2]));
        }
        lemma_trim_adds_nothing(rest, '\n');
        trimming_is_final(rest);
    }
}

proof fn lemma_find_stop_in(s: Seq<char>)
    ensures
        0 <= find_stop(s) <= s.len(),
        find_stop(s) < s.len() ==> stop_at(s, find_stop(s)),
    decreases s.len(),
{
    if s.len() > 0 && !(s.len() > 1 && s[0] == '.' && s[1] == ' ') {
        lemma_find_stop_in(s.skip(1));
    }
}

proof fn lemma_steps(all: Seq<Seq<char>>)
    requires
        forall|i: int| 0 <= i < all.len() ==> !(#[trigger] all[i]).contains('\n'),
    ensures
        forall|i: int| 0 <= i < steps_of(all).len() ==> is_step(#[trigger] steps_of(all)[i]),
    decreases all.len(),
{
    if all.len() > 0 {
        let front = all.drop_last();
        assert forall|i: int| 0 <= i < front.len() implies !(#[trigger] front[i]).contains(
            '\n',
        ) by {
            assert(front[i] == all[i]);
        }
        lemma_steps(front);
        assert(!all[all.len() - 1].contains('\n'));
        lemma_step(all.last());
        assert forall|i: int| 0 <= i < steps_of(all).len() implies is_step(
            #[trigger] steps_of(all)[i],
        ) by {
            if i < steps_of(front).len() {
                assert(is_step(steps_of(front)[i]));
            }
        }
    }
}

/// A plan has a step, and every step is a line with something on it, and
/// nothing around it.
pub proof fn steps_are_lines(raw: Seq<char>)
    ensures
        plan(raw) matches Ok(steps) ==> steps.len() > 0 && forall|i: int|
            0 <= i < steps.len() ==> is_step(#[trigger] steps[i]),
{
    lines_hold_no_line_feed(raw);
    lemma_steps(lines(raw));
}

/// The line of a plan for the command at `i`.
pub open spec fn numbered(i: int, command: Seq<char>) -> Seq<char> {
    decimal(i + 1) + ". "@ + command
}

/// A plan in the form that is asked for.
pub open spec fn written_plan(commands: Seq<Seq<char>>) -> Seq<char> {
    join(Seq::new(commands.len(), |i: int| numbered(i, commands[i])), "\n"@)
}

proof fn lemma_numbered(i: int, command: Seq<char>)
    requires
        i >= 0,
        is_step(command),
    ensures
        is_line(numbered(i, command)),
        numbered(i, command).len() > 0,
        step_of(numbered(i, command)) == Some(command),
{
    reveal_strlit(". ");
    let number = decimal(i + 1);
    let line = numbered(i, command);
    let k = number.len() as int;
    lemma_digits((i + 1) as nat);
    assert forall|j: int| 0 <= j < k implies is_digit(#[trigger] line[j]) by {
        assert(line[j] == number[j]);
    }
    assert(line[k] == '.' && line[k + 1] == ' ');
    assert(line.skip(k + 2) =~= command);
    assert(line.last() == command.last());
    assert forall|j: int| 0 <= j < line.len() implies line[j] != '\n' by {
        if j >= k + 2 {
            assert(line[j] == command[j - k - 2]);
            assert(command.contains(command[j - k - 2]));
        }
    }
    assert(is_digit(line[0]));
    lemma_trim_nothing(line);
    lemma_trim_nothing(command);
    assert forall|j: int| 0 <= j < k implies !#[trigger] stop_at(line, j) by {
        assert(is_digit(line[j]));
    }
    lemma_find_stop(line, k);
    assert(line.take(k) =~= number);
}

proof fn lemma_numbered_steps(commands: Seq<Seq<char>>, all: Seq<Seq<char>>)
    requires
        all.len() == commands.len(),
        forall|i: int| 0 <= i < all.len() ==> step_of(#[trigger] all[i]) == Some(commands[i]),
    ensures
        steps_of(all) == commands,
    decreases all.len(),
{
    if all.len() > 0 {
        let front = all.drop_last();
        assert forall|i: int| 0 <= i < front.len() implies step_of(#[trigger] front[i]) == Some(
            commands.drop_last()[i],
        ) by {
            assert(front[i] == all[i]);
        }
        lemma_numbered_steps(commands.drop_last(), front);
        assert(step_of(all[all.len() - 1]) == Some(commands.last()));
    }
    assert(steps_of(all) =~= commands);
}

/// A plan in the form that is asked for, a numbered list with one command on
/// each line, is read back as its commands.
pub proof fn plans_are_read_back(commands: Seq<Seq<char>>)
    requires
        commands.len() > 0,
        forall|i: int| 0 <= i < commands.len() ==> is_step(#[trigger] commands[i]),
    ensures
        plan(written_plan(commands)) == Ok::<Seq<Seq<char>>, AgentErrorView>(commands),
{
    let all = Seq::new(commands.len(), |i: int| numbered(i, commands[i]));
    assert forall|i: int| 0 <= i < all.len() implies is_line(#[trigger] all[i]) && all[i].len() > 0
        && step_of(all[i]) == Some(commands[i]) by {
        assert(is_step(commands[i]));
        lemma_numbered(i, commands[i]);
    }
    assert(all.last() == all[all.len() - 1]);
    joining_lines_is_undone(all);
    lemma_numbered_steps(commands, all);
}

/// What is sent for a request holds all of it: the instructions, each turn in
/// its place under its role, and nothing behind the last one, and how long the
/// answer may be.
pub proof fn bodies_hold_their_requests(q: ApiRequestView, i: int)
    ensures
        ({
            let tree = body_tree(q);
            let turn = tree.member("contents"@).element(i);
            let settings = tree.member("generationConfig"@);
            &&& tree.member("system_instruction"@).member("parts"@).element(0).member("text"@)
                == Json::Text(q.system)
            &&& 0 <= i < q.turns.len() ==> {
                &&& turn.member("role"@) == Json::Text(
                    if q.turns[i].role == Role::User {
                        "user"@
                    } else {
                        "model"@
                    },
                )
                &&& turn.member("parts"@).element(0).member("text"@) == Json::Text(q.turns[i].text)
                &&& turn.member("parts"@).element(1) == Json::Null
            }
            &&& i >= q.turns.len() ==> turn == Json::Null
            &&& settings.member("maxOutputTokens"@) == Json::Number(decimal(q.max_tokens as int))
            &&& settings.member("temperature"@) == tenths_tree(q.temperature_tenths)
        }),
{
    reveal_strlit("system_instruction");
    reveal_strlit("contents");
    reveal_strlit("generationConfig");
    reveal_strlit("role");
    reveal_strlit("parts");
    reveal_strlit("maxOutputTokens");
    reveal_strlit("temperature");
    assert("system_instruction"@.len() == 18 && "contents"@.len() == 8 && "generationConfig"@.len()
        == 16);
    assert("role"@.len() == 4 && "parts"@.len() == 5);
    assert("maxOutputTokens"@.len() == 15 && "temperature"@.len() == 11);
}

/// A reply with a status from 200 to 299 is answered by the text of its first
/// candidate, without white space at its edges; with any other status it is an
/// error that gives the status and the message, if there is one. What cannot be
/// received or is no JSON is an error whatever the status.
pub proof fn replies_are_read_by_their_status(
    code: u16,
    bytes: Seq<u8>,
    front: Seq<char>,
    text: Seq<char>,
    end: Seq<char>,
    error: Seq<char>,
)
    requires
        forall|i: int| 0 <= i < front.len() ==> is_space(#[trigger] front[i]),
        forall|i: int| 0 <= i < end.len() ==> is_space(#[trigger] end[i]),
        text.len() > 0 ==> !is_space(text[0]) && !is_space(text.last()),
    ensures
        json_decode(bytes) matches Some(tree) ==> {
            let found = tree.member("candidates"@).element(0).member("content"@).member(
                "parts"@,
            ).element(0).member("text"@);
            let message = tree.member("error"@).member("message"@);
            let status = "HTTP "@ + (decimal(code as int) + " "@ + reason_phrase(code)) + ": "@;
            &&& 200 <= code <= 299 && found == Json::Text(front + text + end) ==> reply(
                code,
                Ok(bytes),
            ) == Ok::<Seq<char>, AgentErrorView>(text)
            &&& 200 <= code <= 299 && !(found is Text) ==> reply(code, Ok(bytes)) == Err::<
                Seq<char>,
                AgentErrorView,
            >(AgentErrorView::Parse("unexpected shape: "@ + json_text(tree)))
            &&& (code < 200 || code > 299) && message == Json::Text(error) ==> reply(
                code,
                Ok(bytes),
            ) == Err::<Seq<char>, AgentErrorView>(AgentErrorView::Http(status + error))
            &&& (code < 200 || code > 299) && !(message is Text) ==> reply(code, Ok(bytes))
                == Err::<Seq<char>, AgentErrorView>(
                AgentErrorView::Http(status + "unknown error"@),
            )
        },
        json_decode(bytes) is None ==> (reply(code, Ok(bytes)) matches Err(e) && e is Parse),
        reply(code, Err(error)) == Err::<Seq<char>, AgentErrorView>(AgentErrorView::Parse(error)),
{
    assert forall|i: int| 0 <= i < front.len() implies Edge::White.holds(#[trigger] front[i]) by {
        assert(is_space(front[i]));
    }
    assert forall|i: int| 0 <= i < end.len() implies Edge::White.holds(#[trigger] end[i]) by {
        assert(is_space(end[i]));
    }
    trimming_leaves_what_is_between(front, text, end, Edge::White);
}

/// A plan is read line by line, to its last line: one more line adds its command
/// behind all others, or nothing.
pub proof fn plans_are_read_line_by_line(text: Seq<char>, longer: Seq<char>, line: Seq<char>)
    requires
        lines(longer) == lines(text).push(line),
    ensures
        match step_of(line) {
            Some(command) => plan(longer) == Ok::<Seq<Seq<char>>, AgentErrorView>(
                match plan(text) {
                    Ok(steps) => steps.push(command),
                    Err(_) => seq![command],
                },
            ),
            None => plan(longer) == plan(text),
        },
{
    let all = lines(longer);
    assert(all.drop_last() =~= lines(text));
    assert(all.last() == line);
    if let Some(command) = step_of(line) {
        let before = steps_of(lines(text));
        if before.len() == 0 {
            assert(before.push(command) =~= seq![command]);
        }
    }
}

/// A line of a plan is a step if it has a number of any length, a full stop, a
/// blank and a command, whatever white space is around these; without a number,
/// or without a full stop and a blank, it is none.
pub proof fn steps_are_numbered(
    front: Seq<char>,
    number: Seq<char>,
    gap: Seq<char>,
    command: Seq<char>,
    end: Seq<char>,
)
    requires
        forall|i: int| 0 <= i < front.len() ==> is_space(#[trigger] front[i]),
        forall|i: int| 0 <= i < gap.len() ==> is_space(#[trigger] gap[i]),
        forall|i: int| 0 <= i < end.len() ==> is_space(#[trigger] end[i]),
        command.len() > 0 && !is_space(command[0]) && !is_space(command.last()),
    ensures
        number.len() > 0 && all_digits(number) ==> step_of(
            front + (number + ". "@ + (gap + command)) + end,
        ) == Some(command),
        (forall|i: int| !#[trigger] stop_at(command, i)) ==> step_of(front + command + end) is None,
        number.len() > 0 && !is_space(number[0]) && !all_digits(number) && (forall|i: int|
            !#[trigger] stop_at(number + ". "@, i) || i == number.len()) ==> step_of(
            front + (number + ". "@ + (gap + command)) + end,
        ) is None,
        step_of(front + (". "@ + (gap + command)) + end) is None,
{
    reveal_strlit(". ");
    assert forall|i: int| 0 <= i < front.len() implies Edge::White.holds(#[trigger] front[i]) by {
        assert(is_space(front[i]));
    }
    assert forall|i: int| 0 <= i < gap.len() implies Edge::White.holds(#[trigger] gap[i]) by {
        assert(is_space(gap[i]));
    }
    assert forall|i: int| 0 <= i < end.len() implies Edge::White.holds(#[trigger] end[i]) by {
        assert(is_space(end[i]));
    }
    let rest = gap + command;
    let none = Seq::<char>::empty();
    trimming_leaves_what_is_between(gap, command, none, Edge::White);
    assert(gap + command + none =~= rest);
    assert(rest.last() == command.last());
    let line = number + ". "@ + rest;
    let k = number.len() as int;
    assert(line.last() == rest.last());
    assert(line.skip(k + 2) =~= rest);
    assert(line.take(k) =~= number);
    assert(line[k] == '.' && line[k + 1] == ' ');
    if k > 0 {
        assert(line[0] == number[0]);
        if all_digits(number) {
            assert(is_digit(number[0]));
            assert forall|j: int| 0 <= j < k implies !#[trigger] stop_at(line, j) by {
                assert(line[j] == number[j]);
                assert(is_digit(number[j]));
            }
            lemma_find_stop(line, k);
            trimming_leaves_what_is_between(front, line, end, Edge::White);
        } else if !is_space(number[0]) && (forall|i: int|
            !#[trigger] stop_at(number + ". "@, i) || i == number.len()) {
            assert forall|j: int| 0 <= j < k implies !#[trigger] stop_at(line, j) by {
                let short = number + ". "@;
                assert(!stop_at(short, j) || j == number.len());
                assert(short[j] == line[j] && short[j + 1] == line[j + 1]);
            }
            lemma_find_stop(line, k);
            trimming_leaves_what_is_between(front, line, end, Edge::White);
        }
    }
    if forall|i: int| !#[trigger] stop_at(command, i) {
        lemma_find_stop(command, command.len() as int);
        trimming_leaves_what_is_between(front, command, end, Edge::White);
    }
    let bare = ". "@ + rest;
    assert(bare[0] == '.' && bare[1] == ' ');
    assert(bare.last() == rest.last());
    assert(stop_at(bare, 0));
    lemma_find_stop(bare, 0);
    trimming_leaves_what_is_between(front, bare, end, Edge::White);
}

/// A conversation is shown whole: one more question and its answer come behind
/// all that is shown already, under the next number.
pub proof fn conversations_are_shown_whole(
    history: History,
    input: Seq<char>,
    answer: Seq<char>,
)
    ensures
        ({
            let number = "["@ + decimal(history.len() as int + 1) + "] "@;
            history_text(history.push((input, answer))) == (if history.len() == 0 {
                seq![]
            } else {
                history_text(history)
            }) + (number + "you:  "@ + input + "\n"@ + number + "aura: "@ + answer + "\n\n"@)
        }),
        history_text(seq![]) == "(no chat history)\n"@,
{
    reveal_strlit("] you:  ");
    reveal_strlit("] aura: ");
    reveal_strlit("] ");
    reveal_strlit("you:  ");
    reveal_strlit("aura: ");
    reveal_strlit("\n[");
    reveal_strlit("\n");
    reveal_strlit("[");
    let longer = history.push((input, answer));
    let n = history.len() as int;
    lemma_same_exchanges(history, longer, n);
    let d = decimal(n + 1);
    assert("] you:  "@ =~= "] "@ + "you:  "@);
    assert("] aura: "@ =~= "] "@ + "aura: "@);
    assert("\n["@ =~= "\n"@ + "["@);
    let number = "["@ + d + "] "@;
    assert(exchange_text(n, (input, answer)) =~= number + "you:  "@ + input + "\n"@ + number
        + "aura: "@ + answer + "\n\n"@);
    assert(history_text(longer) == exchanges_text(longer, n) + exchange_text(n, (input, answer)));
    if n == 0 {
        assert(exchanges_text(longer, 0) =~= Seq::<char>::empty());
    }
}

proof fn lemma_same_exchanges(a: History, b: History, n: int)
    requires
        n <= a.len(),
        n <= b.len(),
        forall|i: int| 0 <= i < n ==> a[i] == b[i],
    ensures
        exchanges_text(a, n) == exchanges_text(b, n),
    decreases n,
{
    if n > 0 {
        lemma_same_exchanges(a, b, n - 1);
        assert(a[n - 1] == b[n - 1]);
    }
}

/// The language model is told the command and what it wrote, without white space
/// around that; nothing else of it is left out.
pub proof fn failures_are_reported_whole(
    command: Seq<char>,
    front: Seq<char>,
    text: Seq<char>,
    end: Seq<char>,
)
    requires
        forall|i: int| 0 <= i < front.len() ==> is_space(#[trigger] front[i]),
        forall|i: int| 0 <= i < end.len() ==> is_space(#[trigger] end[i]),
        text.len() > 0 ==> !is_space(text[0]) && !is_space(text.last()),
    ensures
        failure_report(command, front + text + end) == "Command: "@ + command + "\nStderr: "@
            + text,
{
    assert forall|i: int| 0 <= i < front.len() implies Edge::White.holds(#[trigger] front[i]) by {
        assert(is_space(front[i]));
    }
    assert forall|i: int| 0 <= i < end.len() implies Edge::White.holds(#[trigger] end[i]) by {
        assert(is_space(end[i]));
    }
    trimming_leaves_what_is_between(front, text, end, Edge::White);
}

/// An error says what kind it is, and all that is known of it.
pub proof fn errors_say_what_is_known(text: Seq<char>)
    ensures
        error_message(AgentErrorView::Http(text)) == "API request failed: "@ + text,
        error_message(AgentErrorView::Parse(text)) == "API response parse error: "@ + text,
{
}

/// Every request goes to the same place, with the key at its end, and holds the
/// question as its last turn.
pub proof fn requests_end_with_the_question(
    key: Seq<char>,
    system: Seq<char>,
    history: History,
    user: Seq<char>,
    max_tokens: u32,
)
    ensures
        ({
            let single = single_request(key, system, user, max_tokens);
            let chat = chat_request(key, system, history, user, max_tokens);
            let question = TurnView { role: Role::User, text: user };
            &&& single.url == chat.url
            &&& single.url == endpoint(seq![]) + key
            &&& single.system == system && chat.system == system
            &&& single.max_tokens == max_tokens && chat.max_tokens == max_tokens
            &&& single.temperature_tenths == 2 && chat.temperature_tenths == 7
            &&& single.turns == seq![question]
            &&& chat.turns.len() == 2 * history.len() + 1
            &&& chat.turns.last() == question
        }),
{
    turns_alternate(history, 0);
    assert(endpoint(seq![]) + key =~= endpoint(key));
}

} // verus!
