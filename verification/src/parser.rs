//! Parser: a list of tokens becomes a script.
//!
//! Grammar (informal):
//!   script    := pipeline (connector pipeline)*
//!   connector := ';' | '&&' | '||'
//!   pipeline  := command ('|' command)* ['&']
//!   command   := WORD (WORD | redirection)*
//!   redir     := '<' WORD | '>' WORD | '>>' WORD | '2>' WORD | '2>>' WORD | '2>&1'

use crate::text::{lemma_views_push, opt_view, views};
use crate::tokenizer::{lexemes, Lexeme, Token};
use vstd::prelude::*;
use vstd::slice::slice_subrange;

verus! {

#[derive(Debug, Clone)]
pub struct Command {
    pub argv: Vec<String>,
    pub infile: Option<String>,
    pub outfile: Option<String>,
    pub append: bool,
    /// `2>` file
    pub errfile: Option<String>,
    /// `2>>` file (append to `errfile`)
    pub err_append: bool,
    /// `2>&1`: stderr goes where stdout goes once stdout is redirected
    pub err_to_out: bool,
}

#[derive(Debug, Clone)]
pub struct Pipeline {
    pub commands: Vec<Command>,
    pub background: bool,
}

/// How two adjacent pipelines are joined.
#[derive(Debug, Clone, Copy, PartialEq, Eq, Structural)]
pub enum Connector {
    /// `;`: always run the next pipeline
    Semi,
    /// `&&`: run the next one only if the exit status is zero
    And,
    /// `||`: run the next one only if the exit status is not zero
    Or,
}

/// A full parsed line: one or more pipelines and what joins them.
#[derive(Debug)]
pub struct Script {
    /// `pipelines[i]` is connected to `pipelines[i + 1]` by `connectors[i]`.
    pub pipelines: Vec<Pipeline>,
    pub connectors: Vec<Connector>,
}

// ---------------------------------------------------------------------------
// Models
// ---------------------------------------------------------------------------

#[verifier::ext_equal]
pub struct CommandView {
    pub argv: Seq<Seq<char>>,
    pub infile: Option<Seq<char>>,
    pub outfile: Option<Seq<char>>,
    pub append: bool,
    pub errfile: Option<Seq<char>>,
    pub err_append: bool,
    pub err_to_out: bool,
}

#[verifier::ext_equal]
pub struct PipelineView {
    pub commands: Seq<CommandView>,
    pub background: bool,
}

#[verifier::ext_equal]
pub struct ScriptView {
    pub pipelines: Seq<PipelineView>,
    pub connectors: Seq<Connector>,
}

impl View for Command {
    type V = CommandView;

    open spec fn view(&self) -> CommandView {
        CommandView {
            argv: views(self.argv@),
            infile: opt_view(self.infile),
            outfile: opt_view(self.outfile),
            append: self.append,
            errfile: opt_view(self.errfile),
            err_append: self.err_append,
            err_to_out: self.err_to_out,
        }
    }
}

impl View for Pipeline {
    type V = PipelineView;

    open spec fn view(&self) -> PipelineView {
        PipelineView {
            commands: Seq::new(self.commands@.len(), |i: int| self.commands@[i]@),
            background: self.background,
        }
    }
}

impl View for Script {
    type V = ScriptView;

    open spec fn view(&self) -> ScriptView {
        ScriptView {
            pipelines: Seq::new(self.pipelines@.len(), |i: int| self.pipelines@[i]@),
            connectors: self.connectors@,
        }
    }
}

/// A command without words or redirections.
pub open spec fn no_command() -> CommandView {
    CommandView {
        argv: seq![],
        infile: None,
        outfile: None,
        append: false,
        errfile: None,
        err_append: false,
        err_to_out: false,
    }
}

impl Default for Command {
    fn default() -> (r: Command)
        ensures
            r@ == no_command(),
    {
        let r = Command {
            argv: Vec::new(),
            infile: None,
            outfile: None,
            append: false,
            errfile: None,
            err_append: false,
            err_to_out: false,
        };
        assert(r@ =~= no_command());
        r
    }
}

impl Default for Pipeline {
    fn default() -> (r: Pipeline)
        ensures
            r@ == (PipelineView { commands: seq![], background: false }),
    {
        let r = Pipeline { commands: Vec::new(), background: false };
        assert(r@ =~= PipelineView { commands: seq![], background: false });
        r
    }
}

impl Default for Script {
    fn default() -> (r: Script)
        ensures
            r@ == (ScriptView { pipelines: seq![], connectors: seq![] }),
    {
        let r = Script { pipelines: Vec::new(), connectors: Vec::new() };
        assert(r@ =~= ScriptView { pipelines: seq![], connectors: seq![] });
        r
    }
}

// ---------------------------------------------------------------------------
// What a list of tokens means
// ---------------------------------------------------------------------------

/// The tokens at which a list is divided.
pub enum Mark {
    /// The ends of pipelines: `&`, `;`, `&&` and `||`.
    End,
    /// The ends of commands inside a pipeline: `|`.
    Bar,
}

impl Mark {
    pub open spec fn holds(self, t: Lexeme) -> bool {
        match self {
            Mark::End => t is Amp || t is Semi || t is AndAnd || t is OrOr,
            Mark::Bar => t is Pipe,
        }
    }
}

/// The position of the first mark, or the number of tokens without one.
pub open spec fn first(tokens: Seq<Lexeme>, mark: Mark) -> int
    decreases tokens.len(),
{
    if tokens.len() == 0 || mark.holds(tokens[0]) {
        0
    } else {
        1 + first(tokens.skip(1), mark)
    }
}

/// The complaint about a redirection that no file name follows.
pub open spec fn missing_file(op: Lexeme) -> Seq<char> {
    match op {
        Lexeme::RedirIn => "syntax error: expected filename after '<'"@,
        Lexeme::RedirOut => "syntax error: expected filename after '>'"@,
        Lexeme::RedirAppend => "syntax error: expected filename after '>>'"@,
        Lexeme::Redir2Out => "syntax error: expected filename after '2>'"@,
        _ => "syntax error: expected filename after '2>>'"@,
    }
}

/// `c` with the stream of `op` redirected to `file`. The last redirection of a
/// stream is the one that counts.
pub open spec fn redirected(c: CommandView, op: Lexeme, file: Seq<char>) -> CommandView {
    match op {
        Lexeme::RedirIn => CommandView { infile: Some(file), ..c },
        Lexeme::RedirOut => CommandView { outfile: Some(file), append: false, ..c },
        Lexeme::RedirAppend => CommandView { outfile: Some(file), append: true, ..c },
        Lexeme::Redir2Out => CommandView {
            errfile: Some(file),
            err_append: false,
            err_to_out: false,
            ..c
        },
        _ => CommandView { errfile: Some(file), err_append: true, err_to_out: false, ..c },
    }
}

/// `c` extended by words and redirections, or the complaint about them.
pub open spec fn command(tokens: Seq<Lexeme>, c: CommandView) -> Result<CommandView, Seq<char>>
    decreases tokens.len(),
{
    if tokens.len() == 0 {
        Ok(c)
    } else {
        match tokens[0] {
            Lexeme::Word(w) => command(
                tokens.skip(1),
                CommandView { argv: c.argv.push(w), ..c },
            ),
            Lexeme::Redir2ToOut => command(
                tokens.skip(1),
                CommandView { err_to_out: true, errfile: None, ..c },
            ),
            op => if tokens.len() > 1 && tokens[1] is Word {
                command(tokens.skip(2), redirected(c, op, tokens[1]->Word_0))
            } else {
                Err(missing_file(op))
            },
        }
    }
}

/// Whether a command redirects anything.
pub open spec fn redirects(c: CommandView) -> bool {
    c.infile is Some || c.outfile is Some || c.errfile is Some || c.err_to_out
}

/// The commands of a pipeline, or the complaint about its first fault. `c` is
/// what the first command starts from, and `last` says whether nothing follows
/// the pipeline.
pub open spec fn commands(tokens: Seq<Lexeme>, c: CommandView, last: bool) -> Result<
    Seq<CommandView>,
    Seq<char>,
>
    decreases tokens.len(),
    via commands_decreases
{
    let k = first(tokens, Mark::Bar);
    match command(tokens.take(k), c) {
        Err(e) => Err(e),
        Ok(c) => if k < tokens.len() {
            if c.argv.len() == 0 {
                Err("syntax error near '|'"@)
            } else {
                match commands(tokens.skip(k + 1), no_command(), last) {
                    Err(e) => Err(e),
                    Ok(rest) => Ok(seq![c] + rest),
                }
            }
        } else if c.argv.len() > 0 {
            Ok(seq![c])
        } else if last && redirects(c) {
            Err("syntax error: redirection without command"@)
        } else {
            Ok(seq![])
        },
    }
}

#[via_fn]
proof fn commands_decreases(tokens: Seq<Lexeme>, c: CommandView, last: bool) {
    lemma_first(tokens, Mark::Bar);
}

/// Whether a token joins pipelines.
pub open spec fn joins(t: Lexeme) -> bool {
    t is Semi || t is AndAnd || t is OrOr
}

/// The number of tokens at the end of a pipeline that ends at `k`: a connector,
/// an `&`, or both.
pub open spec fn end_length(tokens: Seq<Lexeme>, k: int) -> int {
    if tokens[k] is Amp && k + 1 < tokens.len() && joins(tokens[k + 1]) {
        2
    } else {
        1
    }
}

/// The connector that the last token at the end of a pipeline stands for. What
/// follows an `&` without a connector is a new statement.
pub open spec fn connector(end: Lexeme) -> Connector {
    match end {
        Lexeme::AndAnd => Connector::And,
        Lexeme::OrOr => Connector::Or,
        _ => Connector::Semi,
    }
}

/// `a` followed by `b`.
pub open spec fn joined(a: ScriptView, b: ScriptView) -> ScriptView {
    ScriptView { pipelines: a.pipelines + b.pipelines, connectors: a.connectors + b.connectors }
}

/// The script of one pipeline, with what joins it to the next. A pipeline
/// without commands is left out.
pub open spec fn statement(
    cmds: Seq<CommandView>,
    background: bool,
    conn: Option<Connector>,
) -> ScriptView {
    if cmds.len() == 0 {
        ScriptView { pipelines: seq![], connectors: seq![] }
    } else {
        ScriptView {
            pipelines: seq![PipelineView { commands: cmds, background }],
            connectors: match conn {
                Some(c) => seq![c],
                None => seq![],
            },
        }
    }
}

/// The script that a list of tokens stands for, or the complaint about its
/// first fault.
pub open spec fn script(tokens: Seq<Lexeme>) -> Result<ScriptView, Seq<char>>
    decreases tokens.len(),
    via script_decreases
{
    let k = first(tokens, Mark::End);
    let n = end_length(tokens, k);
    match commands(tokens.take(k), no_command(), k == tokens.len()) {
        Err(e) => Err(e),
        Ok(cmds) => if k == tokens.len() {
            Ok(statement(cmds, false, None))
        } else {
            match script(tokens.skip(k + n)) {
                Err(e) => Err(e),
                Ok(rest) => Ok(
                    joined(
                        statement(cmds, tokens[k] is Amp, Some(connector(tokens[k + n - 1]))),
                        rest,
                    ),
                ),
            }
        },
    }
}

#[via_fn]
proof fn script_decreases(tokens: Seq<Lexeme>) {
    lemma_first(tokens, Mark::End);
}

proof fn lemma_first(tokens: Seq<Lexeme>, mark: Mark)
    ensures
        0 <= first(tokens, mark) <= tokens.len(),
        forall|j: int| 0 <= j < first(tokens, mark) ==> !mark.holds(tokens[j]),
        first(tokens, mark) < tokens.len() ==> mark.holds(tokens[first(tokens, mark)]),
    decreases tokens.len(),
{
    if tokens.len() != 0 && !mark.holds(tokens[0]) {
        let t = tokens.skip(1);
        lemma_first(t, mark);
        assert forall|j: int| 0 <= j < first(tokens, mark) implies !mark.holds(tokens[j]) by {
            if j > 0 {
                assert(tokens[j] == t[j - 1]);
            }
        }
    }
}

// ---------------------------------------------------------------------------
// Steps of the parser
// ---------------------------------------------------------------------------

/// Taking tokens off before the first bar leaves the bar where it is.
proof fn lemma_bar_stays(tokens: Seq<Lexeme>, n: int)
    requires
        0 <= n <= tokens.len(),
        forall|j: int| 0 <= j < n ==> !Mark::Bar.holds(tokens[j]),
    ensures
        first(tokens, Mark::Bar) == n + first(tokens.skip(n), Mark::Bar),
        n <= first(tokens, Mark::Bar) <= tokens.len(),
        tokens.take(first(tokens, Mark::Bar)).skip(n) == tokens.skip(n).take(
            first(tokens.skip(n), Mark::Bar),
        ),
        first(tokens, Mark::Bar) < tokens.len() ==> tokens.skip(n).skip(
            first(tokens.skip(n), Mark::Bar) + 1,
        ) == tokens.skip(first(tokens, Mark::Bar) + 1),
    decreases n,
{
    lemma_first(tokens, Mark::Bar);
    lemma_first(tokens.skip(n), Mark::Bar);
    if n == 0 {
        assert(tokens.skip(0) =~= tokens);
    } else {
        let t = tokens.skip(1);
        assert forall|j: int| 0 <= j < n - 1 implies !Mark::Bar.holds(t[j]) by {
            assert(t[j] == tokens[j + 1]);
        }
        lemma_bar_stays(t, n - 1);
        assert(t.skip(n - 1) =~= tokens.skip(n));
    }
    let k = first(tokens, Mark::Bar);
    assert(tokens.take(k).skip(n) =~= tokens.skip(n).take(k - n));
    if k < tokens.len() {
        assert(tokens.skip(n).skip(k - n + 1) =~= tokens.skip(k + 1));
    }
}

/// What `commands` does with the first token (or the first two).
proof fn lemma_commands_step(tokens: Seq<Lexeme>, c: CommandView, last: bool)
    requires
        tokens.len() > 0,
        !(tokens[0] is Pipe),
    ensures
        match tokens[0] {
            Lexeme::Word(w) => commands(tokens, c, last) == commands(
                tokens.skip(1),
                CommandView { argv: c.argv.push(w), ..c },
                last,
            ),
            Lexeme::Redir2ToOut => commands(tokens, c, last) == commands(
                tokens.skip(1),
                CommandView { err_to_out: true, errfile: None, ..c },
                last,
            ),
            op => if tokens.len() > 1 && tokens[1] is Word {
                commands(tokens, c, last) == commands(
                    tokens.skip(2),
                    redirected(c, op, tokens[1]->Word_0),
                    last,
                )
            } else {
                commands(tokens, c, last) == Err::<Seq<CommandView>, Seq<char>>(missing_file(op))
            },
        },
{
    let n: int = if !(tokens[0] is Word) && !(tokens[0] is Redir2ToOut) && tokens.len() > 1
        && tokens[1] is Word {
        2
    } else {
        1
    };
    lemma_bar_stays(tokens, n);
    let k = first(tokens, Mark::Bar);
    let mine = tokens.take(k);
    assert(mine[0] == tokens[0]);
    assert(k > 1 ==> mine[1] == tokens[1]);
}

// ---------------------------------------------------------------------------
// Parsing
// ---------------------------------------------------------------------------

/// The word at position `i`, if there is one.
fn word_at(tokens: &[Token], i: usize) -> (r: Option<String>)
    ensures
        match r {
            Some(w) => i < tokens@.len() && tokens@[i as int]@ == Lexeme::Word(w@),
            None => i >= tokens@.len() || !(tokens@[i as int]@ is Word),
        },
{
    if i < tokens.len() {
        match &tokens[i] {
            Token::Word(w) => Some(w.clone()),
            _ => None,
        }
    } else {
        None
    }
}

/// Adds a command at the end of a pipeline.
fn push_command(pipeline: &mut Pipeline, cmd: Command)
    ensures
        final(pipeline)@ == (PipelineView {
            commands: old(pipeline)@.commands.push(cmd@),
            ..old(pipeline)@
        }),
{
    pipeline.commands.push(cmd);
    assert(pipeline@ =~= PipelineView {
        commands: old(pipeline)@.commands.push(cmd@),
        ..old(pipeline)@
    });
}

/// Adds a command at the end of a pipeline, unless it has no words.
fn push_last_command(pipeline: &mut Pipeline, cmd: Command)
    ensures
        final(pipeline)@ == (if cmd@.argv.len() > 0 {
            PipelineView { commands: old(pipeline)@.commands.push(cmd@), ..old(pipeline)@ }
        } else {
            old(pipeline)@
        }),
{
    if !cmd.argv.is_empty() {
        push_command(pipeline, cmd);
    }
}

/// `Ok` of `done` followed by what `rest` has, or the complaint of `rest`.
spec fn prepended(done: Seq<CommandView>, rest: Result<Seq<CommandView>, Seq<char>>) -> Result<
    Seq<CommandView>,
    Seq<char>,
> {
    match rest {
        Err(e) => Err(e),
        Ok(cmds) => Ok(done + cmds),
    }
}

/// The connector at `i`, if there is one.
fn connector_at(tokens: &[Token], i: usize) -> (r: Option<Connector>)
    ensures
        r == (if i < tokens@.len() && joins(tokens@[i as int]@) {
            Some(connector(tokens@[i as int]@))
        } else {
            None
        }),
{
    if i < tokens.len() {
        match &tokens[i] {
            Token::Semi => Some(Connector::Semi),
            Token::AndAnd => Some(Connector::And),
            Token::OrOr => Some(Connector::Or),
            _ => None,
        }
    } else {
        None
    }
}

/// Parses one pipeline from the front of `tokens`. Gives the pipeline, the
/// tokens behind it, and the connector that ended it.
fn parse_pipeline<'a>(tokens: &'a [Token]) -> (r: Result<
    (Pipeline, &'a [Token], Option<Connector>),
    String,
>)
    ensures
        ({
            let all = lexemes(tokens@);
            let k = first(all, Mark::End);
            let cmds = commands(all.take(k), no_command(), k == all.len());
            match r {
                Err(e) => cmds == Err::<Seq<CommandView>, Seq<char>>(e@),
                Ok((p, rest, conn)) => {
                    &&& cmds == Ok::<Seq<CommandView>, Seq<char>>(p@.commands)
                    &&& if k == all.len() {
                        rest@.len() == 0 && conn is None && !p@.background
                    } else {
                        &&& rest@ == tokens@.skip(k + end_length(all, k))
                        &&& conn == Some(connector(all[k + end_length(all, k) - 1]))
                        &&& p@.background == (all[k] is Amp)
                    }
                },
            }
        }),
{
    let ghost all = lexemes(tokens@);
    let ghost k = first(all, Mark::End);
    let ghost body = all.take(k);
    let ghost last = k == all.len();
    proof {
        lemma_first(all, Mark::End);
        assert(body.skip(0) =~= body);
    }
    let mut pipeline = Pipeline::default();
    let mut cur = Command::default();
    let mut i: usize = 0;
    proof {
        let rest = commands(body, no_command(), last);
        assert(prepended(pipeline@.commands, rest) == rest) by {
            if rest is Ok {
                assert(pipeline@.commands + rest->Ok_0 =~= rest->Ok_0);
            }
        }
    }
    while i < tokens.len()
        invariant
            i <= k <= all.len(),
            all == lexemes(tokens@),
            k == first(all, Mark::End),
            forall|j: int| 0 <= j < k ==> !Mark::End.holds(all[j]),
            k < all.len() ==> Mark::End.holds(all[k]),
            body == all.take(k),
            last == (k == all.len()),
            !pipeline@.background,
            commands(body, no_command(), last) == prepended(
                pipeline@.commands,
                commands(body.skip(i as int), cur@, last),
            ),
        decreases tokens@.len() - i,
    {
        let ghost rest = body.skip(i as int);
        let ghost before = cur@;
        assert(all[i as int] == tokens@[i as int]@);
        proof {
            if i < k {
                assert(rest[0] == all[i as int]);
                assert(i + 1 < k ==> rest[1] == all[i + 1]);
                assert(i + 1 < all.len() ==> all[i + 1] == tokens@[i + 1]@);
                if !(rest[0] is Pipe) {
                    lemma_commands_step(rest, cur@, last);
                }
                assert(rest.skip(1) =~= body.skip(i + 1));
                if i + 1 < k {
                    assert(rest.skip(2) =~= body.skip(i + 2));
                }
            } else {
                lemma_commands_end(rest, cur@, last);
            }
        }
        match &tokens[i] {
            Token::Word(s) => {
                proof {
                    lemma_views_push(cur.argv@, *s);
                }
                cur.argv.push(s.clone());
                assert(cur@ =~= CommandView { argv: before.argv.push(s@), ..before });
                i += 1;
            },
            Token::RedirIn => match word_at(tokens, i + 1) {
                Some(f) => {
                    cur.infile = Some(f);
                    assert(cur@ =~= redirected(before, Lexeme::RedirIn, f@));
                    i += 2;
                },
                None => return Err("syntax error: expected filename after '<'".to_string()),
            },
            Token::RedirOut => match word_at(tokens, i + 1) {
                Some(f) => {
                    cur.outfile = Some(f);
                    cur.append = false;
                    assert(cur@ =~= redirected(before, Lexeme::RedirOut, f@));
                    i += 2;
                },
                None => return Err("syntax error: expected filename after '>'".to_string()),
            },
            Token::RedirAppend => match word_at(tokens, i + 1) {
                Some(f) => {
                    cur.outfile = Some(f);
                    cur.append = true;
                    assert(cur@ =~= redirected(before, Lexeme::RedirAppend, f@));
                    i += 2;
                },
                None => return Err("syntax error: expected filename after '>>'".to_string()),
            },
            Token::Redir2Out => match word_at(tokens, i + 1) {
                Some(f) => {
                    cur.errfile = Some(f);
                    cur.err_append = false;
                    cur.err_to_out = false;
                    assert(cur@ =~= redirected(before, Lexeme::Redir2Out, f@));
                    i += 2;
                },
                None => return Err("syntax error: expected filename after '2>'".to_string()),
            },
            Token::Redir2Append => match word_at(tokens, i + 1) {
                Some(f) => {
                    cur.errfile = Some(f);
                    cur.err_append = true;
                    cur.err_to_out = false;
                    assert(cur@ =~= redirected(before, Lexeme::Redir2Append, f@));
                    i += 2;
                },
                None => return Err("syntax error: expected filename after '2>>'".to_string()),
            },
            Token::Redir2ToOut => {
                cur.err_to_out = true;
                cur.errfile = None;
                assert(cur@ =~= CommandView { err_to_out: true, errfile: None, ..before });
                i += 1;
            },
            Token::Pipe => {
                proof {
                    lemma_commands_bar(rest, cur@, last);
                }
                if cur.argv.is_empty() {
                    return Err("syntax error near '|'".to_string());
                }
                let mut done = Command::default();
                std::mem::swap(&mut done, &mut cur);
                proof {
                    let tail = commands(rest.skip(1), no_command(), last);
                    if tail is Ok {
                        assert(pipeline@.commands + (seq![before] + tail->Ok_0)
                            =~= pipeline@.commands.push(before) + tail->Ok_0);
                    }
                }
                push_command(&mut pipeline, done);
                i += 1;
            },
            Token::Amp => {
                pipeline.background = true;
                let ghost done = pipeline@.commands;
                push_last_command(&mut pipeline, cur);
                assert(pipeline@.commands =~= done + ended(cur@));
                let conn: Option<Connector> = connector_at(tokens, i + 1);
                let n: usize = if conn.is_some() {
                    2
                } else {
                    1
                };
                assert(i + 1 < all.len() ==> all[i + 1] == tokens@[i + 1]@);
                return Ok(
                    (
                        pipeline,
                        slice_subrange(tokens, i + n, tokens.len()),
                        Some(conn.unwrap_or(Connector::Semi)),
                    ),
                );
            },
            Token::Semi => {
                let ghost done = pipeline@.commands;
                push_last_command(&mut pipeline, cur);
                assert(pipeline@.commands =~= done + ended(cur@));
                return Ok((pipeline, slice_subrange(tokens, i + 1, tokens.len()), Some(Connector::Semi)));
            },
            Token::AndAnd => {
                let ghost done = pipeline@.commands;
                push_last_command(&mut pipeline, cur);
                assert(pipeline@.commands =~= done + ended(cur@));
                return Ok((pipeline, slice_subrange(tokens, i + 1, tokens.len()), Some(Connector::And)));
            },
            Token::OrOr => {
                let ghost done = pipeline@.commands;
                push_last_command(&mut pipeline, cur);
                assert(pipeline@.commands =~= done + ended(cur@));
                return Ok((pipeline, slice_subrange(tokens, i + 1, tokens.len()), Some(Connector::Or)));
            },
        }
    }
    proof {
        lemma_commands_end(body.skip(i as int), cur@, last);
    }
    let redirects: bool = cur.infile.is_some() || cur.outfile.is_some() || cur.errfile.is_some()
        || cur.err_to_out;
    if cur.argv.is_empty() && redirects {
        return Err("syntax error: redirection without command".to_string());
    }
    let ghost done = pipeline@.commands;
    push_last_command(&mut pipeline, cur);
    assert(pipeline@.commands =~= done + ended(cur@));
    Ok((pipeline, slice_subrange(tokens, tokens.len(), tokens.len()), None))
}

/// What a pipeline that ends with `c` under way gets from it.
spec fn ended(c: CommandView) -> Seq<CommandView> {
    if c.argv.len() > 0 {
        seq![c]
    } else {
        seq![]
    }
}

/// What `commands` does at the end.
proof fn lemma_commands_end(tokens: Seq<Lexeme>, c: CommandView, last: bool)
    requires
        tokens.len() == 0,
    ensures
        commands(tokens, c, last) == (if last && c.argv.len() == 0 && redirects(c) {
            Err::<Seq<CommandView>, Seq<char>>("syntax error: redirection without command"@)
        } else {
            Ok(ended(c))
        }),
{
    assert(tokens.take(0) =~= tokens);
}

/// What `commands` does with a bar at the front.
proof fn lemma_commands_bar(tokens: Seq<Lexeme>, c: CommandView, last: bool)
    requires
        tokens.len() > 0,
        tokens[0] is Pipe,
    ensures
        commands(tokens, c, last) == (if c.argv.len() == 0 {
            Err::<Seq<CommandView>, Seq<char>>("syntax error near '|'"@)
        } else {
            prepended(seq![c], commands(tokens.skip(1), no_command(), last))
        }),
{
    assert(tokens.take(0).len() == 0);
}

/// What `parse` has of a list of tokens: `done`, and then what `rest` has.
spec fn continued(done: ScriptView, rest: Result<ScriptView, Seq<char>>) -> Result<
    ScriptView,
    Seq<char>,
> {
    match rest {
        Err(e) => Err(e),
        Ok(s) => Ok(joined(done, s)),
    }
}

/// Turns tokens into a script. There is none if no pipeline has a command.
pub fn parse(tokens: Vec<Token>) -> (r: Result<Option<Script>, String>)
    ensures
        match r {
            Err(e) => script(lexemes(tokens@)) == Err::<ScriptView, Seq<char>>(e@),
            Ok(None) => script(lexemes(tokens@)) matches Ok(s) && s.pipelines.len() == 0,
            Ok(Some(s)) => {
                &&& script(lexemes(tokens@)) == Ok::<ScriptView, Seq<char>>(s@)
                &&& s@.pipelines.len() > 0
                &&& well_formed(s@)
            },
        },
{
    let ghost all = lexemes(tokens@);
    let mut result = Script::default();
    let mut remaining = tokens.as_slice();
    proof {
        scripts_are_well_formed(all);
        if script(all) is Ok {
            assert(joined(result@, script(all)->Ok_0) =~= script(all)->Ok_0);
        }
    }
    loop
        invariant
            all == lexemes(tokens@),
            script(all) == continued(result@, script(lexemes(remaining@))),
        ensures
            script(all) == Ok::<ScriptView, Seq<char>>(result@),
        decreases remaining@.len(),
    {
        let ghost toks = lexemes(remaining@);
        let ghost k = first(toks, Mark::End);
        let ghost n = end_length(toks, k);
        let ghost before = result@;
        proof {
            lemma_first(toks, Mark::End);
        }
        match parse_pipeline(remaining) {
            Err(e) => return Err(e),
            Ok((pipeline, rest, conn)) => {
                let ghost here = statement(pipeline@.commands, pipeline@.background, conn);
                if !pipeline.commands.is_empty() {
                    result.pipelines.push(pipeline);
                    if let Some(c) = conn {
                        result.connectors.push(c);
                    }
                }
                assert(result@ =~= joined(before, here));
                proof {
                    if k < toks.len() {
                        assert(lexemes(rest@) =~= toks.skip(k + n));
                        let tail = script(toks.skip(k + n));
                        if tail is Ok {
                            assert(joined(before, joined(here, tail->Ok_0)) =~= joined(
                                result@,
                                tail->Ok_0,
                            ));
                        }
                    }
                }
                remaining = rest;
            },
        }
        if remaining.is_empty() {
            proof {
                if k < toks.len() {
                    let none = lexemes(remaining@);
                    assert(none.take(0) =~= none);
                    lemma_commands_end(none, no_command(), true);
                    assert(script(none) == Ok::<ScriptView, Seq<char>>(statement(seq![], false, None)));
                    assert(joined(result@, statement(seq![], false, None)) =~= result@);
                }
            }
            break;
        }
    }
    if result.pipelines.is_empty() {
        Ok(None)
    } else {
        Ok(Some(result))
    }
}

// ---------------------------------------------------------------------------
// Laws
// ---------------------------------------------------------------------------

/// Whether redirections agree: stderr is not sent both to a file and to stdout,
/// and there is a file if stdout is to be appended to it.
pub open spec fn redirections_agree(c: CommandView) -> bool {
    &&& !(c.err_to_out && c.errfile is Some)
    &&& c.append ==> c.outfile is Some
}

/// A command that can be run: it has a first word, and its redirections agree.
pub open spec fn command_well_formed(c: CommandView) -> bool {
    c.argv.len() > 0 && redirections_agree(c)
}

pub open spec fn pipeline_well_formed(p: PipelineView) -> bool {
    p.commands.len() > 0 && forall|i: int|
        0 <= i < p.commands.len() ==> command_well_formed(#[trigger] p.commands[i])
}

/// A script that can be run: every pipeline can, and there is a connector
/// between any two neighbours. One may be left over at the end.
pub open spec fn well_formed(s: ScriptView) -> bool {
    &&& forall|i: int|
        0 <= i < s.pipelines.len() ==> pipeline_well_formed(#[trigger] s.pipelines[i])
    &&& s.connectors.len() <= s.pipelines.len() <= s.connectors.len() + 1
}

/// Every script that parsing gives can be run.
pub proof fn scripts_are_well_formed(tokens: Seq<Lexeme>)
    ensures
        script(tokens) matches Ok(s) ==> well_formed(s),
    decreases tokens.len(),
{
    let k = first(tokens, Mark::End);
    lemma_first(tokens, Mark::End);
    lemma_commands_well_formed(tokens.take(k), no_command(), k == tokens.len());
    if k < tokens.len() {
        let n = end_length(tokens, k);
        scripts_are_well_formed(tokens.skip(k + n));
        if script(tokens) is Ok {
            let cmds = commands(tokens.take(k), no_command(), false)->Ok_0;
            let here = statement(cmds, tokens[k] is Amp, Some(connector(tokens[k + n - 1])));
            let rest = script(tokens.skip(k + n))->Ok_0;
            assert forall|i: int| 0 <= i < joined(here, rest).pipelines.len() implies pipeline_well_formed(
                #[trigger] joined(here, rest).pipelines[i],
            ) by {
                if i >= here.pipelines.len() {
                    assert(joined(here, rest).pipelines[i] == rest.pipelines[i - here.pipelines.len()]);
                }
            }
        }
    }
}

proof fn lemma_command_agrees(tokens: Seq<Lexeme>, c: CommandView)
    requires
        redirections_agree(c),
    ensures
        command(tokens, c) matches Ok(d) ==> redirections_agree(d),
    decreases tokens.len(),
{
    if tokens.len() > 0 {
        match tokens[0] {
            Lexeme::Word(w) => {
                lemma_command_agrees(tokens.skip(1), CommandView { argv: c.argv.push(w), ..c });
            },
            Lexeme::Redir2ToOut => {
                lemma_command_agrees(
                    tokens.skip(1),
                    CommandView { err_to_out: true, errfile: None, ..c },
                );
            },
            op => {
                if tokens.len() > 1 && tokens[1] is Word {
                    lemma_command_agrees(
                        tokens.skip(2),
                        redirected(c, op, tokens[1]->Word_0),
                    );
                }
            },
        }
    }
}

proof fn lemma_commands_well_formed(tokens: Seq<Lexeme>, c: CommandView, last: bool)
    requires
        redirections_agree(c),
    ensures
        commands(tokens, c, last) matches Ok(cmds) ==> forall|i: int|
            0 <= i < cmds.len() ==> command_well_formed(#[trigger] cmds[i]),
    decreases tokens.len(),
{
    let k = first(tokens, Mark::Bar);
    lemma_first(tokens, Mark::Bar);
    lemma_command_agrees(tokens.take(k), c);
    if k < tokens.len() {
        lemma_commands_well_formed(tokens.skip(k + 1), no_command(), last);
    }
}

/// The tokens of the words of a command.
pub open spec fn word_tokens(argv: Seq<Seq<char>>) -> Seq<Lexeme> {
    Seq::new(argv.len(), |i: int| Lexeme::Word(argv[i]))
}

/// A redirection to a file that may be missing.
pub open spec fn file_tokens(op: Lexeme, file: Option<Seq<char>>) -> Seq<Lexeme> {
    match file {
        Some(f) => seq![op, Lexeme::Word(f)],
        None => seq![],
    }
}

/// A command written out: its words, then its redirections.
pub open spec fn command_tokens(c: CommandView) -> Seq<Lexeme> {
    word_tokens(c.argv) + (file_tokens(Lexeme::RedirIn, c.infile) + (file_tokens(
        if c.append {
            Lexeme::RedirAppend
        } else {
            Lexeme::RedirOut
        },
        c.outfile,
    ) + if c.err_to_out {
        seq![Lexeme::Redir2ToOut]
    } else {
        file_tokens(
            if c.err_append {
                Lexeme::Redir2Append
            } else {
                Lexeme::Redir2Out
            },
            c.errfile,
        )
    }))
}

/// A pipeline written out: its commands, with bars between them.
pub open spec fn pipeline_tokens(cmds: Seq<CommandView>) -> Seq<Lexeme>
    decreases cmds.len(),
{
    if cmds.len() == 0 {
        seq![]
    } else if cmds.len() == 1 {
        command_tokens(cmds[0])
    } else {
        command_tokens(cmds[0]) + (seq![Lexeme::Pipe] + pipeline_tokens(cmds.skip(1)))
    }
}

/// The token for a connector.
pub open spec fn connector_token(c: Connector) -> Lexeme {
    match c {
        Connector::Semi => Lexeme::Semi,
        Connector::And => Lexeme::AndAnd,
        Connector::Or => Lexeme::OrOr,
    }
}

/// The tokens that end a pipeline. After an `&` a `;` goes without saying.
pub open spec fn end_tokens(background: bool, c: Connector) -> Seq<Lexeme> {
    if !background {
        seq![connector_token(c)]
    } else if c == Connector::Semi {
        seq![Lexeme::Amp]
    } else {
        seq![Lexeme::Amp, connector_token(c)]
    }
}

/// A script written out.
pub open spec fn script_tokens(s: ScriptView) -> Seq<Lexeme>
    decreases s.pipelines.len(),
{
    if s.pipelines.len() == 0 {
        seq![]
    } else {
        let p = s.pipelines[0];
        if s.connectors.len() == 0 {
            pipeline_tokens(p.commands)
        } else {
            pipeline_tokens(p.commands) + (end_tokens(p.background, s.connectors[0])
                + script_tokens(
                ScriptView { pipelines: s.pipelines.skip(1), connectors: s.connectors.skip(1) },
            ))
        }
    }
}

/// A flag for appending is set only where there is a file to append to.
pub open spec fn command_canonical(c: CommandView) -> bool {
    &&& command_well_formed(c)
    &&& c.err_append ==> c.errfile is Some
}

/// A script that can be written out: what follows a pipeline in the background
/// is joined to it, if only by the `&`.
pub open spec fn canonical(s: ScriptView) -> bool {
    &&& well_formed(s)
    &&& forall|i: int, j: int|
        0 <= i < s.pipelines.len() && 0 <= j < s.pipelines[i].commands.len() ==> command_canonical(
            #[trigger] s.pipelines[i].commands[j],
        )
    &&& forall|i: int|
        0 <= i < s.pipelines.len() && (#[trigger] s.pipelines[i]).background ==> i
            < s.connectors.len()
}

/// Pipelines of any depth, with any redirections, joined and ended in any way:
/// what is written out parses to itself.
pub proof fn parsing_undoes_writing(s: ScriptView)
    requires
        canonical(s),
    ensures
        script(script_tokens(s)) == Ok::<ScriptView, Seq<char>>(s),
    decreases s.pipelines.len(),
{
    let toks = script_tokens(s);
    if s.pipelines.len() == 0 {
        assert(toks.take(0) =~= toks);
        lemma_commands_end(toks, no_command(), true);
        assert(statement(seq![], false, None) =~= s);
    } else {
        let p = s.pipelines[0];
        let body = pipeline_tokens(p.commands);
        assert(pipeline_well_formed(p));
        assert forall|j: int| 0 <= j < p.commands.len() implies command_canonical(
            #[trigger] p.commands[j],
        ) by {
            assert(command_canonical(s.pipelines[0].commands[j]));
        }
        lemma_pipeline_tokens(p.commands);
        if s.connectors.len() == 0 {
            lemma_first_is(toks, Mark::End, toks.len() as int);
            assert(toks.take(toks.len() as int) =~= toks);
            lemma_pipeline_read(p.commands, true);
            assert(s.pipelines =~= seq![p]);
            assert(statement(p.commands, false, None) =~= s);
        } else {
            let end = end_tokens(p.background, s.connectors[0]);
            let k = body.len() as int;
            let rest = ScriptView {
                pipelines: s.pipelines.skip(1),
                connectors: s.connectors.skip(1),
            };
            assert forall|j: int| 0 <= j < body.len() implies !Mark::End.holds(toks[j]) by {
                assert(toks[j] == body[j]);
            }
            assert(toks[k] == end[0]);
            lemma_first_is(toks, Mark::End, k);
            assert(toks.take(k) =~= body);
            assert(toks.skip(k + end.len()) =~= script_tokens(rest));
            lemma_pipeline_read(p.commands, false);
            assert forall|i: int| 0 <= i < rest.pipelines.len() implies pipeline_well_formed(
                #[trigger] rest.pipelines[i],
            ) && (rest.pipelines[i].background ==> i < rest.connectors.len()) by {
                assert(rest.pipelines[i] == s.pipelines[i + 1]);
            }
            assert forall|i: int, j: int|
                0 <= i < rest.pipelines.len() && 0 <= j
                    < rest.pipelines[i].commands.len() implies command_canonical(
                #[trigger] rest.pipelines[i].commands[j],
            ) by {
                assert(command_canonical(s.pipelines[i + 1].commands[j]));
            }
            parsing_undoes_writing(rest);
            lemma_script_tokens_start(rest);
            assert(k + 1 < toks.len() ==> toks[k + 1] == if end.len() == 2 {
                end[1]
            } else {
                script_tokens(rest)[0]
            });
            assert(end_length(toks, k) == end.len());
            assert(toks[k + end.len() - 1] == end.last());
            assert(connector(end.last()) == s.connectors[0]);
            let here = statement(p.commands, p.background, Some(s.connectors[0]));
            assert(joined(here, rest) =~= s);
        }
    }
}

/// A script written out starts with a word, unless it is empty.
proof fn lemma_script_tokens_start(s: ScriptView)
    requires
        well_formed(s),
    ensures
        script_tokens(s).len() > 0 ==> script_tokens(s)[0] is Word,
{
    if s.pipelines.len() > 0 {
        let p = s.pipelines[0];
        assert(pipeline_well_formed(p));
        assert(command_well_formed(p.commands[0]));
        let mine = command_tokens(p.commands[0]);
        assert(mine[0] == word_tokens(p.commands[0].argv)[0]);
        assert(pipeline_tokens(p.commands)[0] == mine[0]);
        assert(script_tokens(s)[0] == mine[0]);
    }
}

proof fn lemma_first_is(tokens: Seq<Lexeme>, mark: Mark, k: int)
    requires
        0 <= k <= tokens.len(),
        forall|j: int| 0 <= j < k ==> !mark.holds(tokens[j]),
        k < tokens.len() ==> mark.holds(tokens[k]),
    ensures
        first(tokens, mark) == k,
{
    lemma_first(tokens, mark);
}

/// A command written out holds neither bars nor ends.
proof fn lemma_command_tokens(c: CommandView)
    ensures
        forall|j: int|
            0 <= j < command_tokens(c).len() ==> !Mark::End.holds(#[trigger] command_tokens(c)[j])
                && !Mark::Bar.holds(command_tokens(c)[j]),
{
}

/// A pipeline written out holds no ends.
proof fn lemma_pipeline_tokens(cmds: Seq<CommandView>)
    ensures
        forall|j: int|
            0 <= j < pipeline_tokens(cmds).len() ==> !Mark::End.holds(
                #[trigger] pipeline_tokens(cmds)[j],
            ),
    decreases cmds.len(),
{
    if cmds.len() > 0 {
        let mine = command_tokens(cmds[0]);
        let rest = pipeline_tokens(cmds.skip(1));
        lemma_command_tokens(cmds[0]);
        lemma_pipeline_tokens(cmds.skip(1));
        assert forall|j: int| 0 <= j < pipeline_tokens(cmds).len() implies !Mark::End.holds(
            #[trigger] pipeline_tokens(cmds)[j],
        ) by {
            if j < mine.len() {
                assert(pipeline_tokens(cmds)[j] == mine[j]);
            } else if j > mine.len() {
                assert(pipeline_tokens(cmds)[j] == rest[j - mine.len() - 1]);
            }
        }
    }
}

/// Words at the front go to the command.
proof fn lemma_words_read(argv: Seq<Seq<char>>, rest: Seq<Lexeme>, c: CommandView)
    ensures
        command(word_tokens(argv) + rest, c) == command(
            rest,
            CommandView { argv: c.argv + argv, ..c },
        ),
    decreases argv.len(),
{
    let toks = word_tokens(argv) + rest;
    if argv.len() == 0 {
        assert(toks =~= rest);
        assert(CommandView { argv: c.argv + argv, ..c } =~= c);
    } else {
        assert(toks[0] == Lexeme::Word(argv[0]));
        assert(toks.skip(1) =~= word_tokens(argv.skip(1)) + rest);
        lemma_words_read(argv.skip(1), rest, CommandView { argv: c.argv.push(argv[0]), ..c });
        assert(c.argv.push(argv[0]) + argv.skip(1) =~= c.argv + argv);
    }
}

/// A redirection at the front goes to the command.
proof fn lemma_file_read(op: Lexeme, file: Option<Seq<char>>, rest: Seq<Lexeme>, c: CommandView)
    requires
        !(op is Word),
        !(op is Redir2ToOut),
    ensures
        command(file_tokens(op, file) + rest, c) == command(
            rest,
            match file {
                Some(f) => redirected(c, op, f),
                None => c,
            },
        ),
{
    let toks = file_tokens(op, file) + rest;
    match file {
        Some(f) => {
            assert(toks[0] == op);
            assert(toks[1] == Lexeme::Word(f));
            assert(toks.skip(2) =~= rest);
        },
        None => {
            assert(toks =~= rest);
        },
    }
}

/// A command written out is read back.
proof fn lemma_command_read(c: CommandView)
    requires
        command_canonical(c),
    ensures
        command(command_tokens(c), no_command()) == Ok::<CommandView, Seq<char>>(c),
{
    reveal_with_fuel(command, 2);
    let c1 = CommandView { argv: no_command().argv + c.argv, ..no_command() };
    let c2 = CommandView { infile: c.infile, ..c1 };
    let c3 = CommandView { outfile: c.outfile, append: c.append, ..c2 };
    let outs = if c.append {
        Lexeme::RedirAppend
    } else {
        Lexeme::RedirOut
    };
    let err_op = if c.err_append {
        Lexeme::Redir2Append
    } else {
        Lexeme::Redir2Out
    };
    let errs = if c.err_to_out {
        seq![Lexeme::Redir2ToOut]
    } else {
        file_tokens(err_op, c.errfile)
    };
    let t3 = file_tokens(outs, c.outfile) + errs;
    lemma_words_read(c.argv, file_tokens(Lexeme::RedirIn, c.infile) + t3, no_command());
    lemma_file_read(Lexeme::RedirIn, c.infile, t3, c1);
    lemma_file_read(outs, c.outfile, errs, c2);
    if c.err_to_out {
        assert(errs.skip(1).len() == 0);
        assert(CommandView { err_to_out: true, errfile: None, ..c3 } =~= c);
    } else {
        assert(errs + Seq::<Lexeme>::empty() =~= errs);
        lemma_file_read(err_op, c.errfile, Seq::empty(), c3);
        let c4 = match c.errfile {
            Some(f) => redirected(c3, err_op, f),
            None => c3,
        };
        assert(c4 =~= c);
    }
}

/// A pipeline written out is read back.
proof fn lemma_pipeline_read(cmds: Seq<CommandView>, last: bool)
    requires
        cmds.len() > 0,
        forall|j: int| 0 <= j < cmds.len() ==> command_canonical(#[trigger] cmds[j]),
    ensures
        commands(pipeline_tokens(cmds), no_command(), last) == Ok::<Seq<CommandView>, Seq<char>>(
            cmds,
        ),
    decreases cmds.len(),
{
    let toks = pipeline_tokens(cmds);
    let c = cmds[0];
    let mine = command_tokens(c);
    assert(command_canonical(cmds[0]));
    lemma_command_tokens(c);
    lemma_command_read(c);
    if cmds.len() == 1 {
        lemma_first_is(toks, Mark::Bar, toks.len() as int);
        assert(toks.take(toks.len() as int) =~= toks);
        assert(cmds =~= seq![c]);
    } else {
        let rest = cmds.skip(1);
        assert forall|j: int| 0 <= j < mine.len() implies !Mark::Bar.holds(toks[j]) by {
            assert(toks[j] == mine[j]);
        }
        assert(toks[mine.len() as int] is Pipe);
        lemma_first_is(toks, Mark::Bar, mine.len() as int);
        assert(toks.take(mine.len() as int) =~= mine);
        assert(toks.skip(mine.len() as int + 1) =~= pipeline_tokens(rest));
        assert forall|j: int| 0 <= j < rest.len() implies command_canonical(#[trigger] rest[j]) by {
            assert(rest[j] == cmds[j + 1]);
        }
        lemma_pipeline_read(rest, last);
        assert(seq![c] + rest =~= cmds);
    }
}

// ---------------------------------------------------------------------------
// Scripts that are written out in any way
// ---------------------------------------------------------------------------

/// A word of a command, or a redirection.
pub enum Clause {
    Word(Seq<char>),
    In(Seq<char>),
    Out(Seq<char>),
    Append(Seq<char>),
    ErrOut(Seq<char>),
    ErrAppend(Seq<char>),
    Merge,
}

impl Clause {
    pub open spec fn tokens(self) -> Seq<Lexeme> {
        match self {
            Clause::Word(w) => seq![Lexeme::Word(w)],
            Clause::In(f) => seq![Lexeme::RedirIn, Lexeme::Word(f)],
            Clause::Out(f) => seq![Lexeme::RedirOut, Lexeme::Word(f)],
            Clause::Append(f) => seq![Lexeme::RedirAppend, Lexeme::Word(f)],
            Clause::ErrOut(f) => seq![Lexeme::Redir2Out, Lexeme::Word(f)],
            Clause::ErrAppend(f) => seq![Lexeme::Redir2Append, Lexeme::Word(f)],
            Clause::Merge => seq![Lexeme::Redir2ToOut],
        }
    }
}

/// Words and redirections, in any order.
pub open spec fn clause_tokens(clauses: Seq<Clause>) -> Seq<Lexeme>
    decreases clauses.len(),
{
    if clauses.len() == 0 {
        seq![]
    } else {
        clauses[0].tokens() + clause_tokens(clauses.skip(1))
    }
}

/// The words, in order.
pub open spec fn words_of(clauses: Seq<Clause>) -> Seq<Seq<char>>
    decreases clauses.len(),
{
    if clauses.len() == 0 {
        seq![]
    } else {
        match clauses.last() {
            Clause::Word(w) => words_of(clauses.drop_last()).push(w),
            _ => words_of(clauses.drop_last()),
        }
    }
}

/// The file of the last redirection of stdin.
pub open spec fn last_in(clauses: Seq<Clause>) -> Option<Seq<char>>
    decreases clauses.len(),
{
    if clauses.len() == 0 {
        None
    } else {
        match clauses.last() {
            Clause::In(f) => Some(f),
            _ => last_in(clauses.drop_last()),
        }
    }
}

/// The file of the last redirection of stdout, and whether it is appended to.
pub open spec fn last_out(clauses: Seq<Clause>) -> (Option<Seq<char>>, bool)
    decreases clauses.len(),
{
    if clauses.len() == 0 {
        (None, false)
    } else {
        match clauses.last() {
            Clause::Out(f) => (Some(f), false),
            Clause::Append(f) => (Some(f), true),
            _ => last_out(clauses.drop_last()),
        }
    }
}

/// Where the last redirection of stderr leads: to a file, or to stdout.
pub open spec fn last_err(clauses: Seq<Clause>) -> (Option<Seq<char>>, bool)
    decreases clauses.len(),
{
    if clauses.len() == 0 {
        (None, false)
    } else {
        match clauses.last() {
            Clause::ErrOut(f) => (Some(f), false),
            Clause::ErrAppend(f) => (Some(f), false),
            Clause::Merge => (None, true),
            _ => last_err(clauses.drop_last()),
        }
    }
}

/// Whether the last file for stderr is to be appended to.
pub open spec fn last_err_append(clauses: Seq<Clause>) -> bool
    decreases clauses.len(),
{
    if clauses.len() == 0 {
        false
    } else {
        match clauses.last() {
            Clause::ErrOut(_) => false,
            Clause::ErrAppend(_) => true,
            _ => last_err_append(clauses.drop_last()),
        }
    }
}

/// The command that words and redirections stand for. Each stream is redirected
/// by the last redirection of that stream, whatever stands between them.
pub open spec fn meant(clauses: Seq<Clause>) -> CommandView {
    CommandView {
        argv: words_of(clauses),
        infile: last_in(clauses),
        outfile: last_out(clauses).0,
        append: last_out(clauses).1,
        errfile: last_err(clauses).0,
        err_append: last_err_append(clauses),
        err_to_out: last_err(clauses).1,
    }
}

/// Words and redirections can stand in any order: the words are the arguments,
/// in order, and each stream goes where its own last redirection says. What
/// follows is read on.
pub proof fn commands_are_read_as_written(
    before: Seq<Clause>,
    clauses: Seq<Clause>,
    rest: Seq<Lexeme>,
)
    ensures
        command(clause_tokens(clauses) + rest, meant(before)) == command(
            rest,
            meant(before + clauses),
        ),
        command(clause_tokens(clauses), no_command()) == Ok::<CommandView, Seq<char>>(
            meant(clauses),
        ),
{
    lemma_clauses(before, clauses, rest);
    let none = Seq::<Clause>::empty();
    lemma_clauses(none, clauses, seq![]);
    assert(clause_tokens(clauses) + Seq::<Lexeme>::empty() =~= clause_tokens(clauses));
    assert(none + clauses =~= clauses);
    assert(meant(none) =~= no_command());
}

proof fn lemma_clauses(before: Seq<Clause>, clauses: Seq<Clause>, rest: Seq<Lexeme>)
    ensures
        command(clause_tokens(clauses) + rest, meant(before)) == command(
            rest,
            meant(before + clauses),
        ),
    decreases clauses.len(),
{
    let toks = clause_tokens(clauses) + rest;
    if clauses.len() == 0 {
        assert(toks =~= rest);
        assert(before + clauses =~= before);
    } else {
        let x = clauses[0];
        let longer = before.push(x);
        let tail = clause_tokens(clauses.skip(1)) + rest;
        assert(longer.drop_last() =~= before);
        assert(toks =~= x.tokens() + tail);
        assert(toks[0] == x.tokens()[0]);
        match x {
            Clause::Word(w) => {
                assert(toks.skip(1) =~= tail);
            },
            Clause::Merge => {
                assert(toks.skip(1) =~= tail);
            },
            _ => {
                assert(toks[1] == x.tokens()[1]);
                assert(toks.skip(2) =~= tail);
            },
        }
        assert(command(toks, meant(before)) == command(tail, meant(longer)));
        lemma_clauses(longer, clauses.skip(1), rest);
        assert(longer + clauses.skip(1) =~= before + clauses);
    }
}

/// Redirections of different streams, and words, do not affect each other: what
/// stands for the same words, and the same redirections of each stream, is the
/// same command, however these are mixed.
pub proof fn streams_are_redirected_apart(a: Seq<Clause>, b: Seq<Clause>)
    requires
        words_of(a) == words_of(b),
        last_in(a) == last_in(b),
        last_out(a) == last_out(b),
        last_err(a) == last_err(b),
        last_err_append(a) == last_err_append(b),
    ensures
        command(clause_tokens(a), no_command()) == command(clause_tokens(b), no_command()),
{
    commands_are_read_as_written(seq![], a, seq![]);
    commands_are_read_as_written(seq![], b, seq![]);
}

/// A redirection that no word follows is a fault, wherever it stands.
pub proof fn redirections_need_files(clauses: Seq<Clause>, op: Lexeme, rest: Seq<Lexeme>)
    requires
        op is RedirIn || op is RedirOut || op is RedirAppend || op is Redir2Out
            || op is Redir2Append,
        rest.len() > 0 ==> !(rest[0] is Word),
    ensures
        command(clause_tokens(clauses) + (seq![op] + rest), no_command()) == Err::<
            CommandView,
            Seq<char>,
        >(missing_file(op)),
{
    let none = Seq::<Clause>::empty();
    let bad = seq![op] + rest;
    lemma_clauses(none, clauses, bad);
    assert(meant(none) =~= no_command());
    assert(rest.len() > 0 ==> bad[1] == rest[0]);
}

/// A pipeline in which each command is written in any way.
pub open spec fn bar_tokens(cmds: Seq<Seq<Clause>>) -> Seq<Lexeme>
    decreases cmds.len(),
{
    if cmds.len() == 0 {
        seq![]
    } else if cmds.len() == 1 {
        clause_tokens(cmds[0])
    } else {
        clause_tokens(cmds[0]) + (seq![Lexeme::Pipe] + bar_tokens(cmds.skip(1)))
    }
}

/// Whether every command has a word.
pub open spec fn all_named(cmds: Seq<Seq<Clause>>) -> bool {
    forall|i: int| 0 <= i < cmds.len() ==> words_of(#[trigger] cmds[i]).len() > 0
}

proof fn lemma_clause_tokens(clauses: Seq<Clause>)
    ensures
        forall|j: int|
            0 <= j < clause_tokens(clauses).len() ==> !Mark::End.holds(
                #[trigger] clause_tokens(clauses)[j],
            ) && !Mark::Bar.holds(clause_tokens(clauses)[j]),
    decreases clauses.len(),
{
    if clauses.len() > 0 {
        let mine = clauses[0].tokens();
        let rest = clause_tokens(clauses.skip(1));
        lemma_clause_tokens(clauses.skip(1));
        assert forall|j: int| 0 <= j < clause_tokens(clauses).len() implies !Mark::End.holds(
            #[trigger] clause_tokens(clauses)[j],
        ) && !Mark::Bar.holds(clause_tokens(clauses)[j]) by {
            if j < mine.len() {
                assert(clause_tokens(clauses)[j] == mine[j]);
            } else {
                assert(clause_tokens(clauses)[j] == rest[j - mine.len()]);
            }
        }
    }
}

proof fn lemma_bar_tokens(cmds: Seq<Seq<Clause>>)
    ensures
        forall|j: int|
            0 <= j < bar_tokens(cmds).len() ==> !Mark::End.holds(#[trigger] bar_tokens(cmds)[j]),
    decreases cmds.len(),
{
    if cmds.len() > 0 {
        let mine = clause_tokens(cmds[0]);
        let rest = bar_tokens(cmds.skip(1));
        lemma_clause_tokens(cmds[0]);
        lemma_bar_tokens(cmds.skip(1));
        assert forall|j: int| 0 <= j < bar_tokens(cmds).len() implies !Mark::End.holds(
            #[trigger] bar_tokens(cmds)[j],
        ) by {
            if j < mine.len() {
                assert(bar_tokens(cmds)[j] == mine[j]);
            } else if j > mine.len() {
                assert(bar_tokens(cmds)[j] == rest[j - mine.len() - 1]);
            }
        }
    }
}

/// Commands with bars between them, of any number, are the commands of a
/// pipeline, in order.
pub proof fn pipelines_are_read_as_written(cmds: Seq<Seq<Clause>>, last: bool)
    requires
        all_named(cmds),
    ensures
        commands(bar_tokens(cmds), no_command(), last) == Ok::<Seq<CommandView>, Seq<char>>(
            Seq::new(cmds.len(), |i: int| meant(cmds[i])),
        ),
    decreases cmds.len(),
{
    let toks = bar_tokens(cmds);
    let all = Seq::new(cmds.len(), |i: int| meant(cmds[i]));
    if cmds.len() == 0 {
        lemma_commands_end(toks, no_command(), last);
        assert(all =~= seq![]);
    } else {
        let mine = clause_tokens(cmds[0]);
        lemma_clause_tokens(cmds[0]);
        commands_are_read_as_written(seq![], cmds[0], seq![]);
        assert(words_of(cmds[0]).len() > 0);
        if cmds.len() == 1 {
            lemma_first_is(toks, Mark::Bar, toks.len() as int);
            assert(toks.take(toks.len() as int) =~= toks);
            assert(all =~= seq![meant(cmds[0])]);
        } else {
            let rest = cmds.skip(1);
            assert forall|j: int| 0 <= j < mine.len() implies !Mark::Bar.holds(toks[j]) by {
                assert(toks[j] == mine[j]);
            }
            assert(toks[mine.len() as int] is Pipe);
            lemma_first_is(toks, Mark::Bar, mine.len() as int);
            assert(toks.take(mine.len() as int) =~= mine);
            assert(toks.skip(mine.len() as int + 1) =~= bar_tokens(rest));
            assert forall|i: int| 0 <= i < rest.len() implies words_of(
                #[trigger] rest[i],
            ).len() > 0 by {
                assert(rest[i] == cmds[i + 1]);
            }
            pipelines_are_read_as_written(rest, last);
            assert(seq![meant(cmds[0])] + Seq::new(rest.len(), |i: int| meant(rest[i])) =~= all);
        }
    }
}

/// A bar needs a word in front of it, and a redirection at the end of a line a
/// command.
pub proof fn commands_need_words(clauses: Seq<Clause>, rest: Seq<Lexeme>)
    requires
        words_of(clauses).len() == 0,
    ensures
        commands(clause_tokens(clauses) + (seq![Lexeme::Pipe] + rest), no_command(), true) == Err::<
            Seq<CommandView>,
            Seq<char>,
        >("syntax error near '|'"@),
        clauses.len() > 0 ==> commands(clause_tokens(clauses), no_command(), true) == Err::<
            Seq<CommandView>,
            Seq<char>,
        >("syntax error: redirection without command"@),
        commands(clause_tokens(clauses), no_command(), false) == Ok::<Seq<CommandView>, Seq<char>>(
            seq![],
        ),
{
    let mine = clause_tokens(clauses);
    let toks = mine + (seq![Lexeme::Pipe] + rest);
    let k = mine.len() as int;
    lemma_clause_tokens(clauses);
    commands_are_read_as_written(seq![], clauses, seq![]);
    assert forall|j: int| 0 <= j < k implies !Mark::Bar.holds(toks[j]) by {
        assert(toks[j] == mine[j]);
    }
    assert(toks[k] is Pipe);
    lemma_first_is(toks, Mark::Bar, k);
    assert(toks.take(k) =~= mine);
    lemma_first_is(mine, Mark::Bar, k);
    assert(mine.take(k) =~= mine);
    if clauses.len() > 0 {
        lemma_redirects(clauses);
    }
}

proof fn lemma_redirects(clauses: Seq<Clause>)
    requires
        clauses.len() > 0,
        words_of(clauses).len() == 0,
    ensures
        redirects(meant(clauses)),
{
    match clauses.last() {
        Clause::Word(_) => {},
        _ => {},
    }
}

/// What stands behind a pipeline: a connector, an `&`, or both.
pub struct Joint {
    pub amp: bool,
    pub connector: Option<Connector>,
}

impl Joint {
    pub open spec fn tokens(self) -> Seq<Lexeme> {
        (if self.amp {
            seq![Lexeme::Amp]
        } else {
            seq![]
        }) + match self.connector {
            Some(Connector::Semi) => seq![Lexeme::Semi],
            Some(Connector::And) => seq![Lexeme::AndAnd],
            Some(Connector::Or) => seq![Lexeme::OrOr],
            None => seq![],
        }
    }

    /// Whether this can stand in front of `rest`.
    pub open spec fn fits(self, rest: Seq<Lexeme>) -> bool {
        match self.connector {
            Some(_) => true,
            None => self.amp && (rest.len() > 0 ==> !(rest[0] is Semi) && !(rest[0] is AndAnd)
                && !(rest[0] is OrOr)),
        }
    }
}

/// A script with a pipeline in front of it, which is left out if it has no
/// commands. An `&` puts it into the background; what follows is joined to it
/// by the connector, or as by `;` if there is none.
pub open spec fn with_pipeline(cmds: Seq<Seq<Clause>>, joint: Joint, rest: ScriptView) -> ScriptView {
    if cmds.len() == 0 {
        rest
    } else {
        ScriptView {
            pipelines: seq![
                PipelineView {
                    commands: Seq::new(cmds.len(), |i: int| meant(cmds[i])),
                    background: joint.amp,
                },
            ] + rest.pipelines,
            connectors: seq![
                match joint.connector {
                    Some(c) => c,
                    None => Connector::Semi,
                },
            ] + rest.connectors,
        }
    }
}

/// A line is read pipeline by pipeline: the first one, with what stands behind
/// it, is put in front of what the rest of the line stands for, and a fault in
/// the rest is a fault of the line.
pub proof fn scripts_are_read_as_written(
    cmds: Seq<Seq<Clause>>,
    joint: Joint,
    rest: Seq<Lexeme>,
)
    requires
        all_named(cmds),
        joint.fits(rest),
    ensures
        script(bar_tokens(cmds) + (joint.tokens() + rest)) == (match script(rest) {
            Ok(s) => Ok::<ScriptView, Seq<char>>(with_pipeline(cmds, joint, s)),
            Err(e) => Err(e),
        }),
        script(bar_tokens(cmds)) == Ok::<ScriptView, Seq<char>>(
            if cmds.len() == 0 {
                ScriptView { pipelines: seq![], connectors: seq![] }
            } else {
                ScriptView {
                    pipelines: seq![
                        PipelineView {
                            commands: Seq::new(cmds.len(), |i: int| meant(cmds[i])),
                            background: false,
                        },
                    ],
                    connectors: seq![],
                }
            },
        ),
{
    let body = bar_tokens(cmds);
    let k = body.len() as int;
    lemma_bar_tokens(cmds);
    // on its own
    lemma_first_is(body, Mark::End, k);
    assert(body.take(k) =~= body);
    pipelines_are_read_as_written(cmds, true);
    // with something behind it
    let end = joint.tokens();
    let toks = body + (end + rest);
    assert forall|j: int| 0 <= j < k implies !Mark::End.holds(toks[j]) by {
        assert(toks[j] == body[j]);
    }
    assert(toks[k] == end[0]);
    lemma_first_is(toks, Mark::End, k);
    assert(toks.take(k) =~= body);
    pipelines_are_read_as_written(cmds, false);
    let n = end.len() as int;
    assert(k + 1 < toks.len() ==> toks[k + 1] == if n == 2 {
        end[1]
    } else {
        rest[0]
    });
    assert(end_length(toks, k) == n);
    assert(toks[k + n - 1] == end.last());
    assert(toks.skip(k + n) =~= rest);
    if let Ok(s) = script(rest) {
        let here = statement(
            Seq::new(cmds.len(), |i: int| meant(cmds[i])),
            joint.amp,
            Some(connector(end.last())),
        );
        assert(joined(here, s) =~= with_pipeline(cmds, joint, s));
    }
}

/// A fault of the first pipeline of a line is that of the line.
pub proof fn the_first_fault_counts(body: Seq<Lexeme>, rest: Seq<Lexeme>, e: Seq<char>)
    requires
        forall|j: int|
            0 <= j < body.len() ==> !((#[trigger] body[j]) is Amp || body[j] is Semi
                || body[j] is AndAnd || body[j] is OrOr),
        rest.len() > 0 ==> rest[0] is Amp || rest[0] is Semi || rest[0] is AndAnd || rest[0] is OrOr,
        commands(body, no_command(), rest.len() == 0) == Err::<Seq<CommandView>, Seq<char>>(e),
    ensures
        script(body + rest) == Err::<ScriptView, Seq<char>>(e),
{
    let toks = body + rest;
    let k = body.len() as int;
    assert forall|j: int| 0 <= j < k implies !Mark::End.holds(toks[j]) by {
        assert(toks[j] == body[j]);
    }
    assert(rest.len() > 0 ==> toks[k] == rest[0]);
    lemma_first_is(toks, Mark::End, k);
    assert(toks.take(k) =~= body);
}

/// A bar behind a command with a word divides it from what follows: that is read
/// as if it stood alone, and a fault in it is the fault of the whole. With
/// nothing behind it, a bar changes nothing.
pub proof fn bars_divide_commands(clauses: Seq<Clause>, rest: Seq<Lexeme>, last: bool)
    requires
        words_of(clauses).len() > 0,
    ensures
        commands(clause_tokens(clauses) + (seq![Lexeme::Pipe] + rest), no_command(), last) == (
        match commands(rest, no_command(), last) {
            Ok(more) => Ok::<Seq<CommandView>, Seq<char>>(seq![meant(clauses)] + more),
            Err(e) => Err(e),
        }),
        commands(clause_tokens(clauses) + seq![Lexeme::Pipe], no_command(), last) == Ok::<
            Seq<CommandView>,
            Seq<char>,
        >(seq![meant(clauses)]),
{
    let mine = clause_tokens(clauses);
    let k = mine.len() as int;
    lemma_clause_tokens(clauses);
    commands_are_read_as_written(seq![], clauses, seq![]);
    lemma_bar_behind(mine, rest);
    lemma_bar_behind(mine, seq![]);
    let toks = mine + (seq![Lexeme::Pipe] + rest);
    let short = mine + seq![Lexeme::Pipe];
    assert(mine + (seq![Lexeme::Pipe] + Seq::<Lexeme>::empty()) =~= short);
    pipelines_are_read_as_written(seq![], last);
    assert(bar_tokens(seq![]) =~= Seq::<Lexeme>::empty());
    let none = Seq::new(0, |i: int| meant(Seq::<Seq<Clause>>::empty()[i]));
    assert(none =~= Seq::<CommandView>::empty());
    assert(commands(Seq::<Lexeme>::empty(), no_command(), last) == Ok::<
        Seq<CommandView>,
        Seq<char>,
    >(Seq::<CommandView>::empty()));
    assert(seq![meant(clauses)] + Seq::<CommandView>::empty() =~= seq![meant(clauses)]);
}

proof fn lemma_bar_behind(mine: Seq<Lexeme>, rest: Seq<Lexeme>)
    requires
        forall|j: int| 0 <= j < mine.len() ==> !Mark::Bar.holds(mine[j]),
    ensures
        ({
            let toks = mine + (seq![Lexeme::Pipe] + rest);
            let k = mine.len() as int;
            &&& first(toks, Mark::Bar) == k
            &&& k < toks.len()
            &&& toks.take(k) == mine
            &&& toks.skip(k + 1) == rest
        }),
{
    let toks = mine + (seq![Lexeme::Pipe] + rest);
    let k = mine.len() as int;
    assert forall|j: int| 0 <= j < k implies !Mark::Bar.holds(toks[j]) by {
        assert(toks[j] == mine[j]);
    }
    assert(toks[k] is Pipe);
    lemma_first_is(toks, Mark::Bar, k);
    assert(toks.take(k) =~= mine);
    assert(toks.skip(k + 1) =~= rest);
}

} // verus!
