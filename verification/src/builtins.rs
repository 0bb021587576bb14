//! Builtins: the commands that the shell runs itself, so that what they change
//! (the directory, the environment, whether the shell goes on) persists.
//!
//! A builtin that needs the system asks for one thing, and is finished with
//! what came of it.

use crate::environment::{
    assigned, assignment_is_read_back, removal_unsets, value_of, without, Environment, Vars,
};
use crate::executor::{last_exit_status, request_exit, Shell, ShellView};
use crate::jobs::{list_jobs, listing};
use crate::number::{decimal, i32_denoted, parse_i32, push_count, reading_undoes_writing};
use crate::output::{output_views, Output, OutputView};
use crate::text::{
    chars_of, find, find_char, has_nul, has_prefix, is_space, join, join_strings, lemma_find,
    lemma_find_is, lemma_trim_nothing, lines, lines_of, opt_view, quote, quoted, same, slices,
    starts_with, string_of, trim, trim_edges, trimmed, trimming_leaves_what_is_between, views,
    without_nul, Edge,
};
use crate::tokenizer::{expansion, ScopeView};
use vstd::prelude::*;
use vstd::slice::slice_subrange;

verus! {

/// The names of the builtins.
pub open spec fn builtin_name(name: Seq<char>) -> bool {
    ||| name == "cd"@
    ||| name == "pwd"@
    ||| name == "exit"@
    ||| name == "export"@
    ||| name == "unset"@
    ||| name == "jobs"@
    ||| name == "echo"@
    ||| name == "help"@
    ||| name == "source"@
    ||| name == "."@
}

/// Whether `name` is the name of a builtin.
pub fn is_builtin(name: &str) -> (r: bool)
    ensures
        r == builtin_name(name@),
{
    same(name, "cd") || same(name, "pwd") || same(name, "exit") || same(name, "export") || same(
        name,
        "unset",
    ) || same(name, "jobs") || same(name, "echo") || same(name, "help") || same(name, "source")
        || same(name, ".")
}

/// What comes after the text of a builtin.
pub enum Action {
    /// The builtin is over, with this exit status.
    Done(i32),
    /// Change to this directory, and finish with `finish_cd`.
    ChangeDir(String),
    /// Find out the current directory, and finish with `finish_pwd`.
    FindDir,
    /// Read this file, and finish with `finish_source`.
    ReadFile(String),
}

/// The model of an `Action`.
#[verifier::ext_equal]
pub enum ActionView {
    Done(int),
    ChangeDir(Seq<char>),
    FindDir,
    ReadFile(Seq<char>),
}

impl View for Action {
    type V = ActionView;

    open spec fn view(&self) -> ActionView {
        match *self {
            Action::Done(status) => ActionView::Done(status as int),
            Action::ChangeDir(target) => ActionView::ChangeDir(target@),
            Action::FindDir => ActionView::FindDir,
            Action::ReadFile(path) => ActionView::ReadFile(path@),
        }
    }
}

/// What a builtin has written, and what is to be done next.
pub struct BuiltinRun {
    pub outputs: Vec<Output>,
    pub action: Action,
}

/// What a builtin leads to.
#[verifier::ext_equal]
pub struct Outcome {
    pub shell: ShellView,
    pub env: Vars,
    pub outputs: Seq<OutputView>,
    pub action: ActionView,
}

/// What is known once a builtin has been finished: the environment, what was
/// written, and the exit status.
#[verifier::ext_equal]
pub struct Finished {
    pub env: Vars,
    pub outputs: Seq<OutputView>,
    pub status: int,
}

/// What `help` prints.
pub const HELP: &'static str = "AuraShell — an AI-powered Unix shell\n\
\n\
Builtins:\n\
\x20 cd [dir|-]      change directory ('-' = previous)\n\
\x20 pwd             print working directory\n\
\x20 echo [-n] ARGS  print arguments\n\
\x20 export VAR=VAL  set environment variable\n\
\x20 unset VAR       remove environment variable\n\
\x20 jobs            list background jobs\n\
\x20 source <file>   load KEY=VALUE pairs from file into environment\n\
\x20 help            show this help\n\
\x20 exit [N]        exit the shell\n\
\n\
Features:\n\
\x20 pipes:        cmd1 | cmd2 | cmd3\n\
\x20 redirection:  cmd > out, cmd >> out, cmd < in\n\
\x20 chaining:     cmd1 && cmd2   (run if success)\n\
\x20               cmd1 || cmd2   (run if failure)\n\
\x20 background:   long_running &\n\
\x20 glob:         ls *.rs, cat src/*.toml\n\
\x20 expansion:    echo $HOME, echo \"${USER}!\"\n\
\x20 Ctrl-C kills the foreground job, not the shell.\n\
\n\
AI agents (requires GEMINI_API_KEY):\n\
\x20 ? <desc>        translate English to a shell command\n\
\x20 ?? <question>   multi-turn chat with memory (follow-ups work!)\n\
\x20 ?? reset        clear chat history\n\
\x20 ?? history      show chat history\n\
\x20 ?! <goal>       plan a multi-step task and execute step by step\n\
\x20 (auto)          error autopsy when a command fails\n\
\x20 (auto)          command-not-found suggestion (exit 127)\n";

// ---------------------------------------------------------------------------
// Names that the system takes
// ---------------------------------------------------------------------------

/// Whether a variable can have this name.
pub open spec fn is_variable_name(name: Seq<char>) -> bool {
    name.len() > 0 && !name.contains('=') && !has_nul(name)
}

/// Whether `export` can be given this argument.
pub open spec fn is_exportable(arg: Seq<char>) -> bool {
    let k = find(arg, '=');
    if k < arg.len() {
        is_variable_name(arg.take(k)) && !has_nul(arg.skip(k + 1))
    } else {
        is_variable_name(arg)
    }
}

/// Whether a command names only variables that can be there.
pub open spec fn names_variables(args: Seq<Seq<char>>) -> bool {
    &&& args.len() > 0 && args[0] == "export"@ ==> forall|i: int|
        1 <= i < args.len() ==> #[trigger] is_exportable(args[i])
    &&& args.len() > 0 && args[0] == "unset"@ ==> forall|i: int|
        1 <= i < args.len() ==> #[trigger] is_variable_name(args[i])
}

// ---------------------------------------------------------------------------
// What the builtins do
// ---------------------------------------------------------------------------

/// One argument of `export`: an assignment, or a name that becomes empty if it
/// was not set.
pub open spec fn export_one(env: Vars, arg: Seq<char>) -> Vars {
    let k = find(arg, '=');
    if k < arg.len() {
        assigned(env, arg.take(k), arg.skip(k + 1))
    } else if value_of(env, arg) is None {
        assigned(env, arg, seq![])
    } else {
        env
    }
}

/// The arguments of `export` up to `n`, in order.
pub open spec fn exported(env: Vars, args: Seq<Seq<char>>, n: int) -> Vars
    decreases n,
{
    if n <= 1 {
        env
    } else {
        export_one(exported(env, args, n - 1), args[n - 1])
    }
}

/// The arguments of `unset` up to `n`, in order.
pub open spec fn all_unset(env: Vars, args: Seq<Seq<char>>, n: int) -> Vars
    decreases n,
{
    if n <= 1 {
        env
    } else {
        without(all_unset(env, args, n - 1), args[n - 1])
    }
}

/// The line for one variable.
pub open spec fn variable_line(v: (Seq<char>, Seq<char>)) -> Seq<char> {
    v.0 + "="@ + v.1 + "\n"@
}

/// A line for every variable.
pub open spec fn variable_lines(env: Vars) -> Seq<OutputView> {
    Seq::new(env.len(), |i: int| OutputView::Stdout(variable_line(env[i])))
}

/// What `echo` prints: the arguments, and a newline unless the first is `-n`.
pub open spec fn echoed(args: Seq<Seq<char>>) -> Seq<char> {
    if args.len() > 1 && args[1] == "-n"@ {
        join(args.skip(2), " "@)
    } else {
        join(args.skip(1), " "@) + "\n"@
    }
}

/// Where `cd` leads, and what it prints before; or what it complains of.
pub open spec fn cd(args: Seq<Seq<char>>, env: Vars) -> (Seq<OutputView>, ActionView) {
    if args.len() < 2 {
        match value_of(env, "HOME"@) {
            Some(home) => (seq![], ActionView::ChangeDir(home)),
            None => (seq![OutputView::Stderr("cd: HOME not set\n"@)], ActionView::Done(1)),
        }
    } else if args[1] == "-"@ {
        match value_of(env, "OLDPWD"@) {
            Some(dir) => (seq![OutputView::Stdout(dir + "\n"@)], ActionView::ChangeDir(dir)),
            None => (seq![OutputView::Stderr("cd: OLDPWD not set\n"@)], ActionView::Done(1)),
        }
    } else {
        (seq![], ActionView::ChangeDir(args[1]))
    }
}

/// The exit code that `exit` asks for: its argument, 0 if that is no number,
/// or that of the last pipeline.
pub open spec fn exit_code(args: Seq<Seq<char>>, last: int) -> int {
    if args.len() >= 2 {
        match i32_denoted(args[1]) {
            Some(code) => code,
            None => 0,
        }
    } else {
        last
    }
}

/// What the command `args` leads to.
pub open spec fn builtin(args: Seq<Seq<char>>, shell: ShellView, env: Vars) -> Outcome {
    let same = Outcome { shell, env, outputs: seq![], action: ActionView::Done(0) };
    if args.len() == 0 {
        Outcome { action: ActionView::Done(1), ..same }
    } else if args[0] == "cd"@ {
        Outcome { outputs: cd(args, env).0, action: cd(args, env).1, ..same }
    } else if args[0] == "pwd"@ {
        Outcome { action: ActionView::FindDir, ..same }
    } else if args[0] == "exit"@ {
        let code = exit_code(args, shell.last_status);
        Outcome {
            shell: ShellView { exit_request: Some(code as i32), ..shell },
            action: ActionView::Done(code),
            ..same
        }
    } else if args[0] == "export"@ {
        if args.len() < 2 {
            Outcome { outputs: variable_lines(env), ..same }
        } else {
            Outcome { env: exported(env, args, args.len() as int), ..same }
        }
    } else if args[0] == "unset"@ {
        Outcome { env: all_unset(env, args, args.len() as int), ..same }
    } else if args[0] == "jobs"@ {
        Outcome { outputs: seq![OutputView::Stdout(listing(shell.jobs.jobs))], ..same }
    } else if args[0] == "echo"@ {
        Outcome { outputs: seq![OutputView::Stdout(echoed(args))], ..same }
    } else if args[0] == "help"@ {
        Outcome { outputs: seq![OutputView::Stdout(HELP@)], ..same }
    } else if args[0] == "source"@ || args[0] == "."@ {
        if args.len() < 2 {
            Outcome {
                outputs: seq![OutputView::Stderr("source: usage: source <file>\n"@)],
                action: ActionView::Done(1),
                ..same
            }
        } else {
            Outcome { action: ActionView::ReadFile(args[1]), ..same }
        }
    } else {
        Outcome { action: ActionView::Done(1), ..same }
    }
}

// ---------------------------------------------------------------------------
// Running builtins
// ---------------------------------------------------------------------------

/// Whether a variable can have the name `name`.
fn variable_name(name: &[char]) -> (r: bool)
    ensures
        r == is_variable_name(name@),
{
    let text = string_of(name);
    let k: usize = find_char(name, '=');
    proof {
        lemma_find(name@, '=');
        if name@.contains('=') {
            let i = choose|i: int| 0 <= i < name@.len() && name@[i] == '=';
            assert(name@[i] == '=');
        }
    }
    name.len() > 0 && k == name.len() && without_nul(text.as_str())
}

/// Whether `export` can be given the argument `arg`.
fn exportable(arg: &[char]) -> (r: bool)
    ensures
        r == is_exportable(arg@),
{
    let k: usize = find_char(arg, '=');
    if k < arg.len() {
        let value = slice_subrange(arg, k + 1, arg.len());
        assert(value@ =~= arg@.skip(k + 1));
        let name = slice_subrange(arg, 0, k);
        assert(name@ =~= arg@.take(k as int));
        variable_name(name) && without_nul(string_of(value).as_str())
    } else {
        variable_name(arg)
    }
}

/// Whether the command `args` names only variables that can be there. The
/// system cannot take another name, or a value with a NUL character in it.
pub fn variables_named(args: &[String]) -> (r: bool)
    ensures
        r == names_variables(views(args@)),
{
    if args.len() == 0 {
        return true;
    }
    let export: bool = same(args[0].as_str(), "export");
    let unset: bool = same(args[0].as_str(), "unset");
    assert(views(args@)[0] == args@[0]@);
    proof {
        reveal_strlit("export");
        reveal_strlit("unset");
        assert("export"@.len() != "unset"@.len());
    }
    if !export && !unset {
        return true;
    }
    let mut i: usize = 1;
    while i < args.len()
        invariant
            1 <= i <= args@.len(),
            export == (views(args@)[0] == "export"@),
            unset == (views(args@)[0] == "unset"@),
            export ==> !unset,
            export || unset,
            export ==> forall|j: int|
                1 <= j < i ==> #[trigger] is_exportable(views(args@)[j]),
            unset ==> forall|j: int|
                1 <= j < i ==> #[trigger] is_variable_name(views(args@)[j]),
        decreases args@.len() - i,
    {
        let cs: Vec<char> = chars_of(args[i].as_str());
        assert(views(args@)[i as int] == cs@);
        let good: bool = if export {
            exportable(cs.as_slice())
        } else {
            variable_name(cs.as_slice())
        };
        if !good {
            return false;
        }
        i += 1;
    }
    true
}

/// A builtin that is over without having written anything.
fn silent(status: i32) -> (r: BuiltinRun)
    ensures
        output_views(r.outputs@) == Seq::<OutputView>::empty(),
        r.action@ == ActionView::Done(status as int),
{
    let r = BuiltinRun { outputs: Vec::new(), action: Action::Done(status) };
    assert(output_views(r.outputs@) =~= Seq::<OutputView>::empty());
    r
}

/// A builtin that has written one piece of text.
fn written(output: Output, action: Action) -> (r: BuiltinRun)
    ensures
        output_views(r.outputs@) == seq![output@],
        r.action@ == action@,
{
    let mut outputs: Vec<Output> = Vec::new();
    outputs.push(output);
    assert(output_views(outputs@) =~= seq![output@]);
    BuiltinRun { outputs, action }
}

/// Runs `cd`, up to the change of directory.
pub fn builtin_cd(args: &[String], env: &Environment) -> (r: BuiltinRun)
    ensures
        output_views(r.outputs@) == cd(views(args@), env@).0,
        r.action@ == cd(views(args@), env@).1,
{
    if args.len() < 2 {
        match env.get("HOME") {
            Some(home) => {
                let mut r = silent(0);
                r.action = Action::ChangeDir(home.to_string());
                r
            },
            None => written(Output::Stderr("cd: HOME not set\n".to_string()), Action::Done(1)),
        }
    } else if same(args[1].as_str(), "-") {
        match env.get("OLDPWD") {
            Some(dir) => {
                let mut line = dir.to_string();
                line.append("\n");
                written(Output::Stdout(line), Action::ChangeDir(dir.to_string()))
            },
            None => written(Output::Stderr("cd: OLDPWD not set\n".to_string()), Action::Done(1)),
        }
    } else {
        let mut r = silent(0);
        r.action = Action::ChangeDir(args[1].clone());
        r
    }
}

fn builtin_exit(args: &[String], shell: &mut Shell) -> (code: i32)
    ensures
        code == exit_code(views(args@), old(shell)@.last_status),
        final(shell)@ == (ShellView { exit_request: Some(code), ..old(shell)@ }),
{
    let code: i32 = if args.len() >= 2 {
        let cs: Vec<char> = chars_of(args[1].as_str());
        match parse_i32(cs.as_slice()) {
            Some(v) => v,
            None => 0,
        }
    } else {
        last_exit_status(shell)
    };
    request_exit(shell, code);
    code
}

/// A line for every variable.
fn list_variables(env: &Environment) -> (r: Vec<Output>)
    ensures
        output_views(r@) == variable_lines(env@),
{
    let mut r: Vec<Output> = Vec::new();
    let mut i: usize = 0;
    while i < env.count()
        invariant
            i <= env@.len(),
            output_views(r@) =~= variable_lines(env@).take(i as int),
        decreases env@.len() - i,
    {
        let mut line = env.name_at(i).to_string();
        line.append("=");
        line.append(env.value_at(i));
        line.append("\n");
        let ghost before = output_views(r@);
        r.push(Output::Stdout(line));
        assert(output_views(r@) =~= before.push(OutputView::Stdout(line@)));
        i += 1;
    }
    assert(variable_lines(env@).take(i as int) =~= variable_lines(env@));
    r
}

fn builtin_export(args: &[String], env: &mut Environment)
    requires
        args@.len() > 0,
    ensures
        final(env)@ == exported(old(env)@, views(args@), args@.len() as int),
{
    let mut i: usize = 1;
    while i < args.len()
        invariant
            1 <= i <= args@.len(),
            env@ == exported(old(env)@, views(args@), i as int),
        decreases args@.len() - i,
    {
        let arg = args[i].as_str();
        let cs: Vec<char> = chars_of(arg);
        let k: usize = find_char(cs.as_slice(), '=');
        assert(views(args@)[i as int] == arg@);
        if k < cs.len() {
            let name = slice_subrange(cs.as_slice(), 0, k);
            let value = slice_subrange(cs.as_slice(), k + 1, cs.len());
            assert(name@ =~= arg@.take(k as int));
            assert(value@ =~= arg@.skip(k + 1));
            env.set(string_of(name).as_str(), string_of(value).as_str());
        } else if env.get(arg).is_none() {
            let empty = String::new();
            assert(empty@ =~= seq![]);
            env.set(arg, empty.as_str());
        }
        i += 1;
    }
}

fn builtin_unset(args: &[String], env: &mut Environment)
    requires
        args@.len() > 0,
    ensures
        final(env)@ == all_unset(old(env)@, views(args@), args@.len() as int),
{
    let mut i: usize = 1;
    while i < args.len()
        invariant
            1 <= i <= args@.len(),
            env@ == all_unset(old(env)@, views(args@), i as int),
        decreases args@.len() - i,
    {
        assert(views(args@)[i as int] == args@[i as int]@);
        env.remove(args[i].as_str());
        i += 1;
    }
}

fn builtin_echo(args: &[String]) -> (text: String)
    requires
        args@.len() > 0,
    ensures
        text@ == echoed(views(args@)),
{
    let ghost all = views(args@);
    if args.len() > 1 && same(args[1].as_str(), "-n") {
        let rest = slice_subrange(args, 2, args.len());
        assert(views(rest@) =~= all.skip(2));
        join_strings(rest, " ")
    } else {
        let rest = slice_subrange(args, 1, args.len());
        assert(views(rest@) =~= all.skip(1));
        let mut text = join_strings(rest, " ");
        text.append("\n");
        text
    }
}

/// Runs the builtin `args`, as far as it goes without the system.
pub fn run_builtin(args: &[String], shell: &mut Shell, env: &mut Environment) -> (r: BuiltinRun)
    requires
        names_variables(views(args@)),
    ensures
        ({
            let o = builtin(views(args@), old(shell)@, old(env)@);
            &&& final(shell)@ == o.shell
            &&& final(env)@ == o.env
            &&& output_views(r.outputs@) == o.outputs
            &&& r.action@ == o.action
        }),
{
    if args.len() == 0 {
        return silent(1);
    }
    let name = args[0].as_str();
    assert(views(args@)[0] == name@);
    if same(name, "cd") {
        builtin_cd(args, env)
    } else if same(name, "pwd") {
        let mut r = silent(0);
        r.action = Action::FindDir;
        r
    } else if same(name, "exit") {
        silent(builtin_exit(args, shell))
    } else if same(name, "export") {
        if args.len() < 2 {
            BuiltinRun { outputs: list_variables(env), action: Action::Done(0) }
        } else {
            builtin_export(args, env);
            silent(0)
        }
    } else if same(name, "unset") {
        builtin_unset(args, env);
        silent(0)
    } else if same(name, "jobs") {
        written(Output::Stdout(list_jobs(shell.jobs())), Action::Done(0))
    } else if same(name, "echo") {
        written(Output::Stdout(builtin_echo(args)), Action::Done(0))
    } else if same(name, "help") {
        written(Output::Stdout(HELP.to_string()), Action::Done(0))
    } else if same(name, "source") || same(name, ".") {
        if args.len() < 2 {
            written(
                Output::Stderr("source: usage: source <file>\n".to_string()),
                Action::Done(1),
            )
        } else {
            let mut r = silent(0);
            r.action = Action::ReadFile(args[1].clone());
            r
        }
    } else {
        silent(1)
    }
}

// ---------------------------------------------------------------------------
// Finishing builtins
// ---------------------------------------------------------------------------

/// What a builtin has written, with its exit status.
fn over(outputs: Vec<Output>, status: i32) -> (r: BuiltinRun)
    ensures
        output_views(r.outputs@) == output_views(outputs@),
        r.action@ == ActionView::Done(status as int),
{
    BuiltinRun { outputs, action: Action::Done(status) }
}

/// Whether `r` and the environment `env` are what `f` says.
pub open spec fn finishes(r: BuiltinRun, env: Vars, f: Finished) -> bool {
    &&& env == f.env
    &&& output_views(r.outputs@) == f.outputs
    &&& r.action@ == ActionView::Done(f.status)
}

/// `env` with `name` set to `value`, if there is one.
pub open spec fn assigned_if(env: Vars, name: Seq<char>, value: Option<Seq<char>>) -> Vars {
    match value {
        Some(v) => assigned(env, name, v),
        None => env,
    }
}

/// The end of `cd`. It remembers the directory that was left and the one that
/// was entered, as far as they are known.
pub open spec fn cd_finished(
    env: Vars,
    target: Seq<char>,
    left: Option<Seq<char>>,
    entered: Result<Option<Seq<char>>, Seq<char>>,
) -> Finished {
    match entered {
        Ok(dir) => Finished {
            env: assigned_if(assigned_if(env, "OLDPWD"@, left), "PWD"@, dir),
            outputs: seq![],
            status: 0,
        },
        Err(e) => Finished {
            env,
            outputs: seq![OutputView::Stderr("cd: "@ + target + ": "@ + e + "\n"@)],
            status: 1,
        },
    }
}

/// The characters of a directory, or of an error.
pub open spec fn entered_view(
    entered: Result<Option<String>, String>,
) -> Result<Option<Seq<char>>, Seq<char>> {
    match entered {
        Ok(dir) => Ok(opt_view(dir)),
        Err(e) => Err(e@),
    }
}

/// The characters of a result, or of an error.
pub open spec fn result_view(r: Result<String, String>) -> Result<Seq<char>, Seq<char>> {
    match r {
        Ok(text) => Ok(text@),
        Err(e) => Err(e@),
    }
}

/// Finishes `cd`: `left` is the directory before the change, and `entered` the
/// one after it, or why there was no change.
pub fn finish_cd(
    target: &str,
    left: Option<String>,
    entered: Result<Option<String>, String>,
    env: &mut Environment,
) -> (r: BuiltinRun)
    ensures
        finishes(
            r,
            final(env)@,
            cd_finished(old(env)@, target@, opt_view(left), entered_view(entered)),
        ),
{
    match entered {
        Ok(dir) => {
            if let Some(d) = left {
                env.set("OLDPWD", d.as_str());
            }
            if let Some(d) = dir {
                env.set("PWD", d.as_str());
            }
            silent(0)
        },
        Err(e) => {
            let mut line = "cd: ".to_string();
            line.append(target);
            line.append(": ");
            line.append(e.as_str());
            line.append("\n");
            written(Output::Stderr(line), Action::Done(1))
        },
    }
}

/// The end of `pwd`: what is written, and the exit status.
pub open spec fn pwd_finished(dir: Result<Seq<char>, Seq<char>>) -> (OutputView, int) {
    match dir {
        Ok(d) => (OutputView::Stdout(d + "\n"@), 0),
        Err(e) => (OutputView::Stderr("pwd: "@ + e + "\n"@), 1),
    }
}

/// Finishes `pwd`: `dir` is the current directory, or why it is not known.
pub fn finish_pwd(dir: Result<String, String>) -> (r: BuiltinRun)
    ensures
        output_views(r.outputs@) == seq![pwd_finished(result_view(dir)).0],
        r.action@ == ActionView::Done(pwd_finished(result_view(dir)).1),
{
    match dir {
        Ok(d) => {
            let mut line = d;
            line.append("\n");
            written(Output::Stdout(line), Action::Done(0))
        },
        Err(e) => {
            let mut line = "pwd: ".to_string();
            line.append(e.as_str());
            line.append("\n");
            written(Output::Stderr(line), Action::Done(1))
        },
    }
}

// ---------------------------------------------------------------------------
// Files of variables
// ---------------------------------------------------------------------------

/// What a line of a file of variables says.
pub enum SourceLine {
    /// Nothing: it is blank, or a comment.
    Nothing,
    /// This has no `=`.
    NoEquals(String),
    /// There is nothing before the `=`.
    NoKey,
    Variable(String, String),
}

/// The model of a `SourceLine`.
#[verifier::ext_equal]
pub enum SourceLineView {
    Nothing,
    NoEquals(Seq<char>),
    NoKey,
    Variable(Seq<char>, Seq<char>),
}

impl View for SourceLine {
    type V = SourceLineView;

    open spec fn view(&self) -> SourceLineView {
        match *self {
            SourceLine::Nothing => SourceLineView::Nothing,
            SourceLine::NoEquals(line) => SourceLineView::NoEquals(line@),
            SourceLine::NoKey => SourceLineView::NoKey,
            SourceLine::Variable(key, value) => SourceLineView::Variable(key@, value@),
        }
    }
}

/// A line without the word `export` at its start.
pub open spec fn without_export(line: Seq<char>) -> Seq<char> {
    trim(
        if starts_with(line, "export "@) {
            line.skip("export "@.len() as int)
        } else {
            line
        },
    )
}

/// A value without the quotes around it.
pub open spec fn unquoted(value: Seq<char>) -> Seq<char> {
    trim_edges(trim_edges(trim(value), Edge::Only('"')), Edge::Only('\''))
}

/// What a line says.
pub open spec fn source_line(raw: Seq<char>) -> SourceLineView {
    let stripped = trim(raw);
    let line = without_export(stripped);
    let k = find(line, '=');
    if stripped.len() == 0 || stripped[0] == '#' {
        SourceLineView::Nothing
    } else if k == line.len() {
        SourceLineView::NoEquals(line)
    } else if trim(line.take(k)).len() == 0 {
        SourceLineView::NoKey
    } else {
        SourceLineView::Variable(trim(line.take(k)), unquoted(line.skip(k + 1)))
    }
}

/// The beginning of a complaint about the line at `i`.
pub open spec fn place(path: Seq<char>, i: int) -> Seq<char> {
    "source: "@ + path + ":"@ + decimal(i + 1) + ": "@
}

/// What is written about the line at `i`.
pub open spec fn source_complaint(path: Seq<char>, i: int, l: SourceLineView) -> Seq<OutputView> {
    match l {
        SourceLineView::NoEquals(line) => seq![
            OutputView::Stderr(
                place(path, i) + "no '=' in "@ + quoted(line) + ", skipping\n"@,
            ),
        ],
        SourceLineView::NoKey => seq![
            OutputView::Stderr(place(path, i) + "empty key, skipping\n"@),
        ],
        _ => seq![],
    }
}

/// What is known in the middle of a file of variables.
#[verifier::ext_equal]
pub struct Sourced {
    pub env: Vars,
    pub outputs: Seq<OutputView>,
    /// how many variables have been set
    pub loaded: int,
}

/// What is known after the first `n` lines.
pub open spec fn sourced(env: Vars, path: Seq<char>, all: Seq<Seq<char>>, n: int) -> Sourced
    decreases n,
{
    if n <= 0 {
        Sourced { env, outputs: seq![], loaded: 0 }
    } else {
        let before = sourced(env, path, all, n - 1);
        let l = source_line(all[n - 1]);
        Sourced {
            env: match l {
                SourceLineView::Variable(key, value) => assigned(before.env, key, value),
                _ => before.env,
            },
            outputs: before.outputs + source_complaint(path, n - 1, l),
            loaded: before.loaded + if l is Variable {
                1int
            } else {
                0
            },
        }
    }
}

/// The line that says how many variables were set.
pub open spec fn loaded_line(path: Seq<char>, loaded: int) -> Seq<char> {
    "source: loaded "@ + decimal(loaded) + (if loaded == 1 {
        " variable"@
    } else {
        " variables"@
    }) + " from "@ + path + "\n"@
}

/// The end of `source`: every variable of the file is set.
pub open spec fn source_finished(
    env: Vars,
    path: Seq<char>,
    read: Result<Seq<char>, Seq<char>>,
) -> Finished {
    match read {
        Ok(text) => {
            let all = lines(text);
            let end = sourced(env, path, all, all.len() as int);
            Finished {
                env: end.env,
                outputs: end.outputs.push(OutputView::Stdout(loaded_line(path, end.loaded))),
                status: 0,
            }
        },
        Err(e) => Finished {
            env,
            outputs: seq![OutputView::Stderr("source: "@ + path + ": "@ + e + "\n"@)],
            status: 1,
        },
    }
}

/// Whether every variable of a file can be there.
pub open spec fn sources_variables(text: Seq<char>) -> bool {
    forall|i: int| 0 <= i < lines(text).len() ==> #[trigger] settable(source_line(lines(text)[i]))
}

/// Whether the system takes what a line says.
pub open spec fn settable(l: SourceLineView) -> bool {
    match l {
        SourceLineView::Variable(key, value) => !has_nul(key) && !has_nul(value),
        _ => true,
    }
}

/// What the line `raw` says.
fn read_source_line(raw: &[char]) -> (r: SourceLine)
    ensures
        r@ == source_line(raw@),
{
    let stripped = trimmed(raw, Edge::White);
    if stripped.len() == 0 || stripped[0] == '#' {
        return SourceLine::Nothing;
    }
    let prefix: Vec<char> = chars_of("export ");
    let rest = if has_prefix(stripped, prefix.as_slice()) {
        slice_subrange(stripped, prefix.len(), stripped.len())
    } else {
        stripped
    };
    assert(rest@ =~= if starts_with(stripped@, "export "@) {
        stripped@.skip("export "@.len() as int)
    } else {
        stripped@
    });
    let line = trimmed(rest, Edge::White);
    let k: usize = find_char(line, '=');
    if k == line.len() {
        return SourceLine::NoEquals(string_of(line));
    }
    let before = slice_subrange(line, 0, k);
    let after = slice_subrange(line, k + 1, line.len());
    assert(before@ =~= line@.take(k as int));
    assert(after@ =~= line@.skip(k + 1));
    let key = trimmed(before, Edge::White);
    if key.len() == 0 {
        return SourceLine::NoKey;
    }
    let value = trimmed(
        trimmed(trimmed(after, Edge::White), Edge::Only('"')),
        Edge::Only('\''),
    );
    SourceLine::Variable(string_of(key), string_of(value))
}

/// Whether every variable of the file `text` can be there. The system cannot
/// take a name or a value with a NUL character in it.
pub fn variables_sourced(text: &str) -> (r: bool)
    ensures
        r == sources_variables(text@),
{
    let cs: Vec<char> = chars_of(text);
    let all: Vec<Vec<char>> = lines_of(cs.as_slice());
    let mut i: usize = 0;
    while i < all.len()
        invariant
            i <= all@.len(),
            slices(all@) == lines(text@),
            forall|j: int|
                0 <= j < i ==> #[trigger] settable(source_line(lines(text@)[j])),
        decreases all@.len() - i,
    {
        assert(lines(text@)[i as int] == all@[i as int]@);
        if let SourceLine::Variable(key, value) = read_source_line(all[i].as_slice()) {
            if !without_nul(key.as_str()) || !without_nul(value.as_str()) {
                assert(!settable(source_line(lines(text@)[i as int])));
                return false;
            }
        }
        i += 1;
    }
    true
}

/// The beginning of a complaint about the line at `i`.
fn source_place(path: &str, i: usize) -> (r: String)
    requires
        i < usize::MAX,
    ensures
        r@ == place(path@, i as int),
{
    let mut r = "source: ".to_string();
    r.append(path);
    r.append(":");
    push_count(&mut r, i + 1);
    r.append(": ");
    r
}

/// Sets the variables of a file.
fn builtin_source(path: &str, text: &str, env: &mut Environment) -> (r: BuiltinRun)
    requires
        sources_variables(text@),
    ensures
        finishes(r, final(env)@, source_finished(old(env)@, path@, Ok(text@))),
{
    let ghost all_lines = lines(text@);
    let cs: Vec<char> = chars_of(text);
    let all: Vec<Vec<char>> = lines_of(cs.as_slice());
    let mut outputs: Vec<Output> = Vec::new();
    let mut loaded: usize = 0;
    let mut i: usize = 0;
    assert(output_views(outputs@) =~= seq![]);
    while i < all.len()
        invariant
            i <= all@.len(),
            slices(all@) == all_lines,
            loaded <= i,
            ({
                let now = sourced(old(env)@, path@, all_lines, i as int);
                &&& env@ == now.env
                &&& output_views(outputs@) == now.outputs
                &&& loaded == now.loaded
            }),
        decreases all@.len() - i,
    {
        assert(all_lines[i as int] == all@[i as int]@);
        let ghost before = output_views(outputs@);
        match read_source_line(all[i].as_slice()) {
            SourceLine::Nothing => {},
            SourceLine::NoEquals(line) => {
                let mut message = source_place(path, i);
                message.append("no '=' in ");
                message.append(quote(line.as_str()).as_str());
                message.append(", skipping\n");
                outputs.push(Output::Stderr(message));
                assert(output_views(outputs@) =~= before + seq![OutputView::Stderr(message@)]);
            },
            SourceLine::NoKey => {
                let mut message = source_place(path, i);
                message.append("empty key, skipping\n");
                outputs.push(Output::Stderr(message));
                assert(output_views(outputs@) =~= before + seq![OutputView::Stderr(message@)]);
            },
            SourceLine::Variable(key, value) => {
                env.set(key.as_str(), value.as_str());
                loaded += 1;
            },
        }
        i += 1;
        assert(output_views(outputs@) =~= sourced(
            old(env)@,
            path@,
            all_lines,
            i as int,
        ).outputs);
    }
    let mut line = "source: loaded ".to_string();
    push_count(&mut line, loaded);
    if loaded == 1 {
        line.append(" variable");
    } else {
        line.append(" variables");
    }
    line.append(" from ");
    line.append(path);
    line.append("\n");
    let ghost before = output_views(outputs@);
    outputs.push(Output::Stdout(line));
    assert(output_views(outputs@) =~= before.push(OutputView::Stdout(line@)));
    over(outputs, 0)
}

/// Finishes `source`: `read` is the content of the file, or why it could not be
/// read.
pub fn finish_source(path: &str, read: Result<String, String>, env: &mut Environment) -> (r:
    BuiltinRun)
    requires
        read matches Ok(text) ==> sources_variables(text@),
    ensures
        finishes(r, final(env)@, source_finished(old(env)@, path@, result_view(read))),
{
    match read {
        Ok(text) => builtin_source(path, text.as_str(), env),
        Err(e) => {
            let mut line = "source: ".to_string();
            line.append(path);
            line.append(": ");
            line.append(e.as_str());
            line.append("\n");
            written(Output::Stderr(line), Action::Done(1))
        },
    }
}

// ---------------------------------------------------------------------------
// Laws
// ---------------------------------------------------------------------------

/// Whether the argument `arg` of `export` assigns to `name`.
pub open spec fn assigns(arg: Seq<char>, name: Seq<char>) -> bool {
    find(arg, '=') < arg.len() && arg.take(find(arg, '=')) == name
}

/// The last assignment that `export` is given for a name is the one that holds.
pub proof fn exported_variables_are_read_back(env: Vars, args: Seq<Seq<char>>, n: int, i: int)
    requires
        1 <= i < n <= args.len(),
        find(args[i], '=') < args[i].len(),
        forall|j: int|
            i < j < n ==> !#[trigger] assigns(args[j], args[i].take(find(args[i], '='))),
    ensures
        value_of(exported(env, args, n), args[i].take(find(args[i], '='))) == Some(
            args[i].skip(find(args[i], '=') + 1),
        ),
    decreases n,
{
    let k = find(args[i], '=');
    let name = args[i].take(k);
    let before = exported(env, args, n - 1);
    let arg = args[n - 1];
    if n - 1 == i {
        assignment_is_read_back(before, name, args[i].skip(k + 1), name);
    } else {
        exported_variables_are_read_back(env, args, n - 1, i);
        assert(!assigns(arg, name));
        let q = find(arg, '=');
        if q < arg.len() {
            assignment_is_read_back(before, arg.take(q), arg.skip(q + 1), name);
        } else if value_of(before, arg) is None {
            assignment_is_read_back(before, arg, seq![], name);
        }
    }
}

/// A name that `export` is given without a value is set afterwards: it keeps
/// its value, or becomes empty.
pub proof fn exported_names_are_set(env: Vars, name: Seq<char>)
    requires
        find(name, '=') == name.len(),
    ensures
        value_of(export_one(env, name), name) == Some(
            match value_of(env, name) {
                Some(v) => v,
                None => seq![],
            },
        ),
{
    assignment_is_read_back(env, name, seq![], name);
}

/// `export` leaves every variable alone that its arguments do not name.
pub proof fn export_leaves_the_others(env: Vars, args: Seq<Seq<char>>, n: int, name: Seq<char>)
    requires
        n <= args.len(),
        forall|j: int| 1 <= j < n ==> !#[trigger] assigns(args[j], name) && args[j] != name,
    ensures
        value_of(exported(env, args, n), name) == value_of(env, name),
    decreases n,
{
    if n > 1 {
        let before = exported(env, args, n - 1);
        let arg = args[n - 1];
        assert forall|j: int| 1 <= j < n - 1 implies !#[trigger] assigns(args[j], name) && args[j]
            != name by {
            assert(1 <= j < n);
        }
        export_leaves_the_others(env, args, n - 1, name);
        assert(!assigns(arg, name));
        let q = find(arg, '=');
        if q < arg.len() {
            assignment_is_read_back(before, arg.take(q), arg.skip(q + 1), name);
        } else if value_of(before, arg) is None {
            assignment_is_read_back(before, arg, seq![], name);
        }
    }
}

/// After `export NAME=VALUE`, `$NAME` expands to the value.
pub proof fn exported_variables_expand(
    env: Vars,
    name: Seq<char>,
    value: Seq<char>,
    scope: ScopeView,
)
    requires
        is_variable_name(name),
        scope.vars == export_one(env, name + "="@ + value),
    ensures
        expansion(name, scope) == value,
{
    let arg = name + "="@ + value;
    reveal_strlit("=");
    assert(arg[name.len() as int] == '=');
    assert forall|j: int| 0 <= j < name.len() implies arg[j] != '=' by {
        assert(arg[j] == name[j]);
        assert(name.contains(name[j]));
    }
    lemma_find_is(arg, '=', name.len() as int);
    assert(arg.take(name.len() as int) =~= name);
    assert(arg.skip(name.len() as int + 1) =~= value);
    assignment_is_read_back(env, name, value, name);
}

/// What `unset` is given is not set any more, and nothing else is changed.
pub proof fn unset_variables_are_gone(env: Vars, args: Seq<Seq<char>>, n: int, name: Seq<char>)
    requires
        n <= args.len(),
    ensures
        value_of(all_unset(env, args, n), name) == (if exists|j: int|
            1 <= j < n && #[trigger] args[j] == name {
            None
        } else {
            value_of(env, name)
        }),
    decreases n,
{
    if n > 1 {
        let before = all_unset(env, args, n - 1);
        unset_variables_are_gone(env, args, n - 1, name);
        removal_unsets(before, args[n - 1], name);
        if args[n - 1] != name {
            if exists|j: int| 1 <= j < n && #[trigger] args[j] == name {
                let j = choose|j: int| 1 <= j < n && #[trigger] args[j] == name;
                assert(1 <= j < n - 1 && args[j] == name);
            }
            if exists|j: int| 1 <= j < n - 1 && #[trigger] args[j] == name {
                let j = choose|j: int| 1 <= j < n - 1 && #[trigger] args[j] == name;
                assert(1 <= j < n && args[j] == name);
            }
        } else {
            assert(1 <= n - 1 < n && args[n - 1] == name);
        }
    }
}

/// Whether a line sets `name`.
pub open spec fn sets(raw: Seq<char>, name: Seq<char>) -> bool {
    source_line(raw) matches SourceLineView::Variable(key, _) && key == name
}

/// The last line for a name is the one that holds, and a name without a line
/// stays as it was.
pub proof fn sourced_variables_are_read_back(
    env: Vars,
    path: Seq<char>,
    all: Seq<Seq<char>>,
    n: int,
    name: Seq<char>,
)
    requires
        0 <= n <= all.len(),
    ensures
        forall|i: int|
            #![trigger sets(all[i], name)]
            0 <= i < n && sets(all[i], name) && (forall|j: int|
                i < j < n ==> !#[trigger] sets(all[j], name)) ==> value_of(
                sourced(env, path, all, n).env,
                name,
            ) == Some(source_line(all[i])->Variable_1),
        (forall|j: int| 0 <= j < n ==> !#[trigger] sets(all[j], name)) ==> value_of(
            sourced(env, path, all, n).env,
            name,
        ) == value_of(env, name),
    decreases n,
{
    if n > 0 {
        let before = sourced(env, path, all, n - 1).env;
        sourced_variables_are_read_back(env, path, all, n - 1, name);
        if let SourceLineView::Variable(key, value) = source_line(all[n - 1]) {
            assignment_is_read_back(before, key, value, name);
        }
        assert forall|i: int|
            #![trigger sets(all[i], name)]
            0 <= i < n && sets(all[i], name) && (forall|j: int|
                i < j < n ==> !#[trigger] sets(all[j], name)) implies value_of(
            sourced(env, path, all, n).env,
            name,
        ) == Some(source_line(all[i])->Variable_1) by {
            if i < n - 1 {
                assert(!sets(all[n - 1], name));
            }
        }
        if forall|j: int| 0 <= j < n ==> !#[trigger] sets(all[j], name) {
            assert(!sets(all[n - 1], name));
        }
    }
}

/// The number of variables that `source` reports is that of the lines that
/// set one.
pub proof fn source_counts_variables(env: Vars, path: Seq<char>, all: Seq<Seq<char>>, n: int)
    requires
        0 <= n <= all.len(),
    ensures
        sourced(env, path, all, n).loaded == all.take(n).filter(
            |raw: Seq<char>| source_line(raw) is Variable,
        ).len(),
    decreases n,
{
    let p = |raw: Seq<char>| source_line(raw) is Variable;
    reveal(Seq::filter);
    if n > 0 {
        source_counts_variables(env, path, all, n - 1);
        assert(all.take(n).drop_last() =~= all.take(n - 1));
        assert(all.take(n).last() == all[n - 1]);
    } else {
        assert(all.take(n).len() == 0);
    }
}

/// The command `cd -`.
pub open spec fn cd_dash() -> Seq<Seq<char>> {
    seq!["cd"@, "-"@]
}

/// After a change from the directory `left`, `cd -` leads back and says where
/// to. Once it has led back from `entered`, the one is the current directory
/// and the other the previous one, and `cd -` leads to `entered` again.
pub proof fn cd_dash_leads_back(
    shell: ShellView,
    env: Vars,
    target: Seq<char>,
    left: Seq<char>,
    entered: Seq<char>,
)
    ensures
        ({
            let there = cd_finished(env, target, Some(left), Ok(Some(entered))).env;
            let back = cd_finished(there, left, Some(entered), Ok(Some(left)));
            &&& builtin(cd_dash(), shell, there) == (Outcome {
                shell,
                env: there,
                outputs: seq![OutputView::Stdout(left + "\n"@)],
                action: ActionView::ChangeDir(left),
            })
            &&& back.status == 0
            &&& back.outputs.len() == 0
            &&& value_of(back.env, "PWD"@) == Some(left)
            &&& value_of(back.env, "OLDPWD"@) == Some(entered)
            &&& builtin(cd_dash(), shell, back.env) == (Outcome {
                shell,
                env: back.env,
                outputs: seq![OutputView::Stdout(entered + "\n"@)],
                action: ActionView::ChangeDir(entered),
            })
        }),
{
    lemma_dirs_remembered(env, left, entered);
    let there = assigned(assigned(env, "OLDPWD"@, left), "PWD"@, entered);
    lemma_dirs_remembered(there, entered, left);
}

proof fn lemma_dirs_remembered(env: Vars, left: Seq<char>, entered: Seq<char>)
    ensures
        ({
            let after = assigned(assigned(env, "OLDPWD"@, left), "PWD"@, entered);
            value_of(after, "OLDPWD"@) == Some(left) && value_of(after, "PWD"@) == Some(entered)
        }),
{
    reveal_strlit("OLDPWD");
    reveal_strlit("PWD");
    assert("OLDPWD"@.len() != "PWD"@.len());
    let once = assigned(env, "OLDPWD"@, left);
    assignment_is_read_back(env, "OLDPWD"@, left, "OLDPWD"@);
    assignment_is_read_back(once, "PWD"@, entered, "OLDPWD"@);
}

/// Of the builtins only `exit` touches the state of the shell, and it only
/// asks the shell to end.
pub proof fn only_exit_ends_the_shell(args: Seq<Seq<char>>, shell: ShellView, env: Vars)
    ensures
        builtin(args, shell, env).shell == (ShellView {
            exit_request: builtin(args, shell, env).shell.exit_request,
            ..shell
        }),
        !(args.len() > 0 && args[0] == "exit"@) ==> builtin(args, shell, env).shell == shell,
{
}

/// `export` and `unset` take all their arguments, however many there are, one
/// after the other.
pub proof fn arguments_are_taken_in_order(
    args: Seq<Seq<char>>,
    arg: Seq<char>,
    shell: ShellView,
    env: Vars,
)
    requires
        args.len() > 0,
    ensures
        args[0] == "export"@ ==> builtin(args.push(arg), shell, env).env == export_one(
            builtin(args, shell, env).env,
            arg,
        ),
        args[0] == "unset"@ ==> builtin(args.push(arg), shell, env).env == without(
            builtin(args, shell, env).env,
            arg,
        ),
        args[0] == "export"@ || args[0] == "unset"@ ==> builtin(
            args.push(arg),
            shell,
            env,
        ).outputs.len() == 0 && builtin(args.push(arg), shell, env).action == ActionView::Done(0),
{
    lemma_names_differ();
    let more = args.push(arg);
    let n = args.len() as int;
    reveal_with_fuel(exported, 2);
    reveal_with_fuel(all_unset, 2);
    lemma_same_arguments(env, args, more, n);
    assert(more[0] == args[0]);
    assert(more[n] == arg);
}

/// The names of the builtins that are told apart.
proof fn lemma_names_differ()
    ensures
        "export"@ != "cd"@ && "export"@ != "pwd"@ && "export"@ != "exit"@,
        "unset"@ != "cd"@ && "unset"@ != "pwd"@ && "unset"@ != "exit"@ && "unset"@ != "export"@,
        "exit"@ != "cd"@ && "exit"@ != "pwd"@,
        "echo"@ != "cd"@ && "echo"@ != "pwd"@ && "echo"@ != "exit"@ && "echo"@ != "export"@,
        "echo"@ != "unset"@ && "echo"@ != "jobs"@,
        "jobs"@ != "cd"@ && "jobs"@ != "pwd"@ && "jobs"@ != "exit"@ && "jobs"@ != "export"@,
        "jobs"@ != "unset"@,
        "pwd"@ != "cd"@,
{
    reveal_strlit("export");
    reveal_strlit("unset");
    reveal_strlit("exit");
    reveal_strlit("echo");
    reveal_strlit("jobs");
    reveal_strlit("pwd");
    reveal_strlit("cd");
    assert("export"@.len() == 6 && "unset"@.len() == 5 && "pwd"@.len() == 3 && "cd"@.len() == 2);
    assert("exit"@.len() == 4 && "echo"@.len() == 4 && "jobs"@.len() == 4);
    assert("exit"@[1] == 'x' && "echo"@[1] == 'c' && "jobs"@[1] == 'o');
}

proof fn lemma_same_arguments(env: Vars, a: Seq<Seq<char>>, b: Seq<Seq<char>>, n: int)
    requires
        n <= a.len(),
        n <= b.len(),
        forall|i: int| 0 <= i < n ==> a[i] == b[i],
    ensures
        exported(env, a, n) == exported(env, b, n),
        all_unset(env, a, n) == all_unset(env, b, n),
    decreases n,
{
    if n > 1 {
        lemma_same_arguments(env, a, b, n - 1);
        assert(a[n - 1] == b[n - 1]);
    }
}

/// An argument of `export` with a `=` sets the name before the first one to all
/// that comes behind it; one without a `=` sets a name that was not set to
/// nothing, and leaves one that was.
pub proof fn export_assigns(env: Vars, name: Seq<char>, value: Seq<char>)
    requires
        !name.contains('='),
    ensures
        export_one(env, name + "="@ + value) == assigned(env, name, value),
        value_of(env, name) is None ==> export_one(env, name) == assigned(env, name, seq![]),
        value_of(env, name) is Some ==> export_one(env, name) == env,
{
    reveal_strlit("=");
    let arg = name + "="@ + value;
    assert forall|j: int| 0 <= j < name.len() implies name[j] != '=' by {
        assert(name.contains(name[j]));
    }
    assert forall|j: int| 0 <= j < name.len() implies arg[j] != '=' by {
        assert(arg[j] == name[j]);
    }
    lemma_find_is(arg, '=', name.len() as int);
    lemma_find_is(name, '=', name.len() as int);
    assert(arg.take(name.len() as int) =~= name);
    assert(arg.skip(name.len() as int + 1) =~= value);
}

/// `export` alone lists every variable, each in a line of its own that sets it
/// again if `export` is given what is on it.
pub proof fn export_lists_every_variable(shell: ShellView, env: Vars, other: Vars, i: int)
    requires
        0 <= i < env.len(),
    ensures
        builtin(seq!["export"@], shell, env).env == env,
        builtin(seq!["export"@], shell, env).outputs.len() == env.len(),
        builtin(seq!["export"@], shell, env).outputs[i] == OutputView::Stdout(
            env[i].0 + "="@ + env[i].1 + "\n"@,
        ),
        !env[i].0.contains('=') ==> export_one(other, env[i].0 + "="@ + env[i].1) == assigned(
            other,
            env[i].0,
            env[i].1,
        ),
{
    lemma_names_differ();
    if !env[i].0.contains('=') {
        export_assigns(other, env[i].0, env[i].1);
    }
}

/// `echo` writes its arguments with one blank between any two, and a line feed
/// behind them, which a `-n` in front of them leaves out.
pub proof fn echo_writes_its_arguments(words: Seq<Seq<char>>, shell: ShellView, env: Vars)
    ensures
        builtin(seq!["echo"@, "-n"@] + words, shell, env).outputs == seq![
            OutputView::Stdout(join(words, " "@)),
        ],
        !(words.len() > 0 && words[0] == "-n"@) ==> builtin(seq!["echo"@] + words, shell, env).outputs
            == seq![OutputView::Stdout(join(words, " "@) + "\n"@)],
        builtin(seq!["echo"@] + words, shell, env).env == env,
        builtin(seq!["echo"@] + words, shell, env).action == ActionView::Done(0),
{
    lemma_names_differ();
    let a = seq!["echo"@, "-n"@] + words;
    assert(a[0] == "echo"@ && a[1] == "-n"@);
    assert(a.skip(2) =~= words);
    let b = seq!["echo"@] + words;
    assert(b[0] == "echo"@);
    assert(b.skip(1) =~= words);
    assert(words.len() > 0 ==> b[1] == words[0]);
}

/// `exit` ends the shell: with the status of the last pipeline, or with the
/// number it is given, and with 0 if that is no number. What comes behind that
/// does not count.
pub proof fn exit_gives_its_number(
    v: int,
    word: Seq<char>,
    rest: Seq<Seq<char>>,
    shell: ShellView,
    env: Vars,
)
    requires
        i32::MIN <= v <= i32::MAX,
        i32::MIN <= shell.last_status <= i32::MAX,
    ensures
        builtin(seq!["exit"@], shell, env).action == ActionView::Done(shell.last_status),
        builtin(seq!["exit"@], shell, env).shell.exit_request == Some(shell.last_status as i32),
        builtin(seq!["exit"@, decimal(v)] + rest, shell, env).action == ActionView::Done(v),
        builtin(seq!["exit"@, decimal(v)] + rest, shell, env).shell.exit_request == Some(v as i32),
        i32_denoted(word) is None ==> builtin(seq!["exit"@, word] + rest, shell, env).action
            == ActionView::Done(0) && builtin(
            seq!["exit"@, word] + rest,
            shell,
            env,
        ).shell.exit_request == Some(0i32),
{
    lemma_names_differ();
    reading_undoes_writing(v);
    let a = seq!["exit"@, decimal(v)] + rest;
    assert(a[0] == "exit"@ && a[1] == decimal(v));
    let b = seq!["exit"@, word] + rest;
    assert(b[0] == "exit"@ && b[1] == word);
}

/// `cd` alone leads home, and with a directory other than `-` to that; it fails
/// if there is no home to go to, and what is behind a directory does not count.
pub proof fn cd_leads_where_it_is_told(
    dir: Seq<char>,
    rest: Seq<Seq<char>>,
    shell: ShellView,
    env: Vars,
)
    ensures
        value_of(env, "HOME"@) matches Some(home) ==> builtin(seq!["cd"@], shell, env).action
            == ActionView::ChangeDir(home) && builtin(seq!["cd"@], shell, env).outputs.len() == 0,
        value_of(env, "HOME"@) is None ==> builtin(seq!["cd"@], shell, env).action
            == ActionView::Done(1) && builtin(seq!["cd"@], shell, env).outputs.len() == 1,
        value_of(env, "OLDPWD"@) is None ==> builtin(cd_dash(), shell, env).action
            == ActionView::Done(1),
        dir != "-"@ ==> builtin(seq!["cd"@, dir] + rest, shell, env).action
            == ActionView::ChangeDir(dir) && builtin(
            seq!["cd"@, dir] + rest,
            shell,
            env,
        ).outputs.len() == 0,
        builtin(seq!["cd"@, dir] + rest, shell, env).env == env,
{
    let a = seq!["cd"@, dir] + rest;
    assert(a[0] == "cd"@ && a[1] == dir);
}

/// A change of directory is remembered as far as it is known; one that failed
/// changes nothing, and says why.
pub proof fn only_a_change_of_directory_is_remembered(
    env: Vars,
    target: Seq<char>,
    left: Option<Seq<char>>,
    entered: Option<Seq<char>>,
    error: Seq<char>,
    other: Seq<char>,
)
    requires
        other != "PWD"@,
        other != "OLDPWD"@,
    ensures
        ({
            let done = cd_finished(env, target, left, Ok(entered));
            let failed = cd_finished(env, target, left, Err(error));
            &&& done.status == 0 && done.outputs.len() == 0
            &&& value_of(done.env, "OLDPWD"@) == (match left {
                Some(d) => Some(d),
                None => value_of(env, "OLDPWD"@),
            })
            &&& value_of(done.env, "PWD"@) == (match entered {
                Some(d) => Some(d),
                None => value_of(env, "PWD"@),
            })
            &&& value_of(done.env, other) == value_of(env, other)
            &&& failed.env == env && failed.status == 1
            &&& failed.outputs == seq![
                OutputView::Stderr("cd: "@ + target + ": "@ + error + "\n"@),
            ]
        }),
{
    reveal_strlit("OLDPWD");
    reveal_strlit("PWD");
    assert("OLDPWD"@.len() != "PWD"@.len());
    let once = assigned_if(env, "OLDPWD"@, left);
    if let Some(d) = left {
        assignment_is_read_back(env, "OLDPWD"@, d, "PWD"@);
        assignment_is_read_back(env, "OLDPWD"@, d, other);
    }
    if let Some(d) = entered {
        assignment_is_read_back(once, "PWD"@, d, "OLDPWD"@);
        assignment_is_read_back(once, "PWD"@, d, other);
    }
}

/// Of the builtins only `export` and `unset` change the environment before the
/// system is asked for anything.
pub proof fn only_export_and_unset_change_variables(
    args: Seq<Seq<char>>,
    shell: ShellView,
    env: Vars,
)
    ensures
        !(args.len() > 0 && (args[0] == "export"@ || args[0] == "unset"@)) ==> builtin(
            args,
            shell,
            env,
        ).env == env,
        !(args.len() > 0 && builtin_name(args[0])) ==> builtin(args, shell, env).action
            == ActionView::Done(1) && builtin(args, shell, env).outputs.len() == 0,
        args.len() > 0 && args[0] == "jobs"@ ==> builtin(args, shell, env).outputs == seq![
            OutputView::Stdout(listing(shell.jobs.jobs)),
        ],
        args.len() > 0 && args[0] == "pwd"@ ==> builtin(args, shell, env).action
            == ActionView::FindDir,
{
    lemma_names_differ();
}

/// A file of variables is read line by line, to its last line: one more line
/// sets its variable, or is complained of under its number, or does nothing, and
/// all that came before stays.
pub proof fn files_are_sourced_line_by_line(
    env: Vars,
    path: Seq<char>,
    text: Seq<char>,
    longer: Seq<char>,
    line: Seq<char>,
)
    requires
        lines(longer) == lines(text).push(line),
    ensures
        ({
            let before = source_finished(env, path, Ok(text));
            let after = source_finished(env, path, Ok(longer));
            let at = "source: "@ + path + ":"@ + decimal(lines(text).len() as int + 1) + ": "@;
            &&& after.status == 0
            &&& after.env == (match source_line(line) {
                SourceLineView::Variable(key, value) => assigned(before.env, key, value),
                _ => before.env,
            })
            &&& after.outputs.drop_last() == before.outputs.drop_last() + (match source_line(line) {
                SourceLineView::NoEquals(l) => seq![
                    OutputView::Stderr(at + "no '=' in "@ + quoted(l) + ", skipping\n"@),
                ],
                SourceLineView::NoKey => seq![
                    OutputView::Stderr(at + "empty key, skipping\n"@),
                ],
                _ => seq![],
            })
        }),
{
    let a = lines(text);
    let b = lines(longer);
    let n = a.len() as int;
    lemma_same_lines(env, path, a, b, n);
    assert(b[n] == line);
    let before = source_finished(env, path, Ok(text));
    let after = source_finished(env, path, Ok(longer));
    assert(before.outputs.drop_last() =~= sourced(env, path, a, n).outputs);
    assert(after.outputs.drop_last() =~= sourced(env, path, b, n + 1).outputs);
}

proof fn lemma_same_lines(
    env: Vars,
    path: Seq<char>,
    a: Seq<Seq<char>>,
    b: Seq<Seq<char>>,
    n: int,
)
    requires
        n <= a.len(),
        n <= b.len(),
        forall|i: int| 0 <= i < n ==> a[i] == b[i],
    ensures
        sourced(env, path, a, n) == sourced(env, path, b, n),
    decreases n,
{
    if n > 0 {
        lemma_same_lines(env, path, a, b, n - 1);
        assert(a[n - 1] == b[n - 1]);
    }
}

/// What `source` says at its end is how many lines of the file set a variable.
pub proof fn source_says_how_many(env: Vars, path: Seq<char>, text: Seq<char>)
    ensures
        ({
            let n = lines(text).filter(|raw: Seq<char>| source_line(raw) is Variable).len();
            source_finished(env, path, Ok(text)).outputs.last() == OutputView::Stdout(
                "source: loaded "@ + decimal(n as int) + (if n == 1 {
                    " variable"@
                } else {
                    " variables"@
                }) + " from "@ + path + "\n"@,
            )
        }),
{
    let all = lines(text);
    source_counts_variables(env, path, all, all.len() as int);
    assert(all.take(all.len() as int) =~= all);
}

/// Whether `s` is made of white space.
pub open spec fn blank(s: Seq<char>) -> bool {
    forall|i: int| 0 <= i < s.len() ==> is_space(#[trigger] s[i])
}

/// Whether there is something, and no white space at its edges.
pub open spec fn tight(s: Seq<char>) -> bool {
    s.len() > 0 && !is_space(s[0]) && !is_space(s.last())
}

/// A line of a file of variables is read as it is written: white space around
/// the line, the name and the value does not count, nor do the word `export`
/// before the name and quotes of one kind around the value; a `=` in the value
/// belongs to it. (A name that is itself `export` with white space behind it is
/// taken for the word.)
pub proof fn source_lines_are_read_as_written(
    pads: Seq<Seq<char>>,
    marked: bool,
    key: Seq<char>,
    mark: Seq<char>,
    value: Seq<char>,
)
    requires
        pads.len() == 5,
        forall|i: int| 0 <= i < 5 ==> blank(#[trigger] pads[i]),
        tight(key),
        !key.contains('='),
        key[0] != '#',
        marked || !starts_with(key + pads[2] + "="@, "export "@),
        mark.len() == 0 || mark == "\""@ || mark == "'"@,
        value.len() > 0 ==> value[0] != '"' && value[0] != '\'' && value.last() != '"'
            && value.last() != '\'',
        mark.len() == 0 && value.len() > 0 ==> tight(value),
    ensures
        source_line(
            pads[0] + ((if marked {
                "export "@ + pads[1]
            } else {
                seq![]
            }) + (key + pads[2] + "="@ + (pads[3] + (mark + value + mark)))) + pads[4],
        ) == SourceLineView::Variable(key, value),
{
    reveal_strlit("export ");
    reveal_strlit("=");
    reveal_strlit("\"");
    reveal_strlit("'");
    let quoted_value = mark + value + mark;
    let behind = pads[3] + quoted_value;
    let core = key + pads[2] + "="@ + behind;
    let lead = if marked {
        "export "@ + pads[1]
    } else {
        seq![]
    };
    let inner = lead + core;
    let raw = pads[0] + inner + pads[4];
    assert(blank(pads[0]) && blank(pads[1]) && blank(pads[2]) && blank(pads[3]) && blank(pads[4]));
    let front = key + pads[2] + "="@;
    // Without a value, the white space behind the `=` is at the edge of the line.
    let tail = if quoted_value.len() == 0 {
        pads[3]
    } else {
        seq![]
    };
    let core2 = if quoted_value.len() == 0 {
        front
    } else {
        core
    };
    assert(core =~= core2 + tail);
    assert(blank(tail + pads[4])) by {
        assert forall|i: int| 0 <= i < (tail + pads[4]).len() implies is_space(
            #[trigger] (tail + pads[4])[i],
        ) by {
            if i < tail.len() {
                assert(is_space(tail[i]));
            } else {
                assert(is_space(pads[4][i - tail.len()]));
            }
        }
    }
    let stripped = lead + core2;
    assert(raw =~= pads[0] + stripped + (tail + pads[4]));
    assert(front.last() == '=');
    assert(front[0] == key[0]);
    if quoted_value.len() > 0 {
        assert(core.last() == quoted_value.last());
        if mark.len() == 0 {
            assert(quoted_value =~= value);
        } else {
            assert(quoted_value.last() == mark[0]);
        }
    }
    assert(core2[0] == key[0]);
    assert(stripped.last() == core2.last());
    assert(stripped[0] == if marked {
        'e'
    } else {
        key[0]
    });
    assert forall|i: int| 0 <= i < pads[0].len() implies Edge::White.holds(#[trigger] pads[0][i]) by {
        assert(is_space(pads[0][i]));
    }
    assert forall|i: int| 0 <= i < (tail + pads[4]).len() implies Edge::White.holds(
        #[trigger] (tail + pads[4])[i],
    ) by {
        assert(is_space((tail + pads[4])[i]));
    }
    trimming_leaves_what_is_between(pads[0], stripped, tail + pads[4], Edge::White);
    assert(trim(raw) == stripped);
    assert(core2.take(front.len() as int) =~= front);
    if starts_with(core2, "export "@) {
        assert forall|i: int| 0 <= i < 7 implies core2[i] == "export "@[i] by {
            assert(core2.take(7)[i] == core2[i]);
        }
        if front.len() < 7 {
            assert(core2[front.len() - 1] == front.last());
        } else {
            assert(front.take(7) =~= core2.take(7));
        }
    }
    lemma_without_export(stripped, pads[1], marked, core2);
    assert(without_export(stripped) == core2);
    assert(core2 =~= key + pads[2] + "="@ + core2.skip(front.len() as int));
    lemma_source_core(core2, key, pads[2], core2.skip(front.len() as int));
    if quoted_value.len() == 0 {
        assert(core2.skip(front.len() as int) =~= Seq::<char>::empty());
        assert(Seq::<char>::empty() =~= quoted_value);
        lemma_unquoted(Seq::empty(), mark, value);
        assert(Seq::<char>::empty() + quoted_value =~= core2.skip(front.len() as int));
    } else {
        assert(core2.skip(front.len() as int) =~= behind);
        lemma_unquoted(pads[3], mark, value);
    }
}

proof fn lemma_without_export(
    stripped: Seq<char>,
    pad: Seq<char>,
    marked: bool,
    core: Seq<char>,
)
    requires
        blank(pad),
        tight(core),
        stripped == (if marked {
            "export "@ + pad
        } else {
            seq![]
        }) + core,
        marked || !starts_with(core, "export "@),
    ensures
        without_export(stripped) == core,
{
    reveal_strlit("export ");
    if marked {
        let cut = stripped.skip(7);
        assert(stripped.take(7) =~= "export "@);
        assert(cut =~= pad + core + Seq::<char>::empty());
        assert forall|i: int| 0 <= i < pad.len() implies Edge::White.holds(#[trigger] pad[i]) by {
            assert(is_space(pad[i]));
        }
        trimming_leaves_what_is_between(pad, core, Seq::empty(), Edge::White);
    } else {
        assert(stripped =~= core);
        lemma_trim_nothing(core);
    }
}

proof fn lemma_source_core(line: Seq<char>, key: Seq<char>, pad: Seq<char>, behind: Seq<char>)
    requires
        line == key + pad + "="@ + behind,
        tight(key),
        blank(pad),
        !key.contains('='),
    ensures
        find(line, '=') == key.len() + pad.len(),
        find(line, '=') < line.len(),
        trim(line.take(find(line, '='))) == key,
        line.skip(find(line, '=') + 1) == behind,
{
    reveal_strlit("=");
    let k = (key.len() + pad.len()) as int;
    assert forall|j: int| 0 <= j < k implies line[j] != '=' by {
        if j < key.len() {
            assert(line[j] == key[j]);
            assert(key.contains(key[j]));
        } else {
            assert(line[j] == pad[j - key.len()]);
            assert(is_space(pad[j - key.len()]));
        }
    }
    lemma_find_is(line, '=', k);
    assert(line.take(k) =~= Seq::<char>::empty() + key + pad);
    assert forall|i: int| 0 <= i < pad.len() implies Edge::White.holds(#[trigger] pad[i]) by {
        assert(is_space(pad[i]));
    }
    trimming_leaves_what_is_between(Seq::empty(), key, pad, Edge::White);
    assert(line.skip(k + 1) =~= behind);
}

proof fn lemma_unquoted(pad: Seq<char>, mark: Seq<char>, value: Seq<char>)
    requires
        blank(pad),
        mark.len() == 0 || mark == "\""@ || mark == "'"@,
        value.len() > 0 ==> value[0] != '"' && value[0] != '\'' && value.last() != '"'
            && value.last() != '\'',
        mark.len() == 0 && value.len() > 0 ==> tight(value),
    ensures
        unquoted(pad + (mark + value + mark)) == value,
{
    reveal_strlit("\"");
    reveal_strlit("'");
    let q = mark + value + mark;
    let none = Seq::<char>::empty();
    assert forall|i: int| 0 <= i < pad.len() implies Edge::White.holds(#[trigger] pad[i]) by {
        assert(is_space(pad[i]));
    }
    if mark.len() > 0 {
        assert(q[0] == mark[0] && q.last() == mark[0]);
    } else {
        assert(q =~= value);
    }
    trimming_leaves_what_is_between(pad, q, none, Edge::White);
    assert(pad + q + none =~= pad + q);
    assert(none + value + none =~= value);
    assert(none + q + none =~= q);
    if mark == "\""@ {
        trimming_leaves_what_is_between(mark, value, mark, Edge::Only('"'));
        trimming_leaves_what_is_between(none, value, none, Edge::Only('\''));
    } else if mark.len() > 0 {
        trimming_leaves_what_is_between(none, q, none, Edge::Only('"'));
        trimming_leaves_what_is_between(mark, value, mark, Edge::Only('\''));
    } else {
        trimming_leaves_what_is_between(none, value, none, Edge::Only('"'));
        trimming_leaves_what_is_between(none, value, none, Edge::Only('\''));
    }
}

/// Lines that are blank, or comments, say nothing; what has no `=` is given back
/// as it is, and a `=` with nothing before it has no name.
pub proof fn other_source_lines_say_nothing(
    front: Seq<char>,
    rest: Seq<char>,
    line: Seq<char>,
    end: Seq<char>,
)
    requires
        blank(front),
        blank(end),
        rest.len() > 0 ==> !is_space(rest.last()),
        tight(line),
        line[0] != '#',
        !line.contains('='),
        !starts_with(line, "export "@),
    ensures
        source_line(front) == SourceLineView::Nothing,
        source_line(front + ("#"@ + rest) + end) == SourceLineView::Nothing,
        source_line(front + line + end) == SourceLineView::NoEquals(line),
        source_line(front + ("="@ + rest) + end) == SourceLineView::NoKey,
{
    reveal_strlit("#");
    reveal_strlit("=");
    reveal_strlit("export ");
    let none = Seq::<char>::empty();
    assert forall|i: int| 0 <= i < front.len() implies Edge::White.holds(#[trigger] front[i]) by {
        assert(is_space(front[i]));
    }
    assert forall|i: int| 0 <= i < end.len() implies Edge::White.holds(#[trigger] end[i]) by {
        assert(is_space(end[i]));
    }
    trimming_leaves_what_is_between(front, none, none, Edge::White);
    assert(front + none + none =~= front);
    let comment = "#"@ + rest;
    assert(comment[0] == '#');
    assert(rest.len() > 0 ==> comment.last() == rest.last());
    assert(rest.len() == 0 ==> comment.last() == '#');
    trimming_leaves_what_is_between(front, comment, end, Edge::White);
    trimming_leaves_what_is_between(front, line, end, Edge::White);
    lemma_trim_nothing(line);
    assert forall|j: int| 0 <= j < line.len() implies line[j] != '=' by {
        assert(line.contains(line[j]));
    }
    lemma_find_is(line, '=', line.len() as int);
    let keyless = "="@ + rest;
    assert(keyless[0] == '=');
    assert(rest.len() > 0 ==> keyless.last() == rest.last());
    assert(rest.len() == 0 ==> keyless.last() == '=');
    trimming_leaves_what_is_between(front, keyless, end, Edge::White);
    assert(!starts_with(keyless, "export "@)) by {
        if keyless.len() >= 7 {
            assert(keyless.take(7)[0] == '=');
            assert("export "@[0] == 'e');
        }
    }
    lemma_trim_nothing(keyless);
    lemma_find_is(keyless, '=', 0);
    assert(keyless.take(0) =~= none);
    assert(trim(none) == none);
}

/// `pwd` writes the directory, and `source` nothing but the reason if the file
/// cannot be read; either says what went wrong with status 1.
pub proof fn answers_of_the_system_are_passed_on(env: Vars, path: Seq<char>, text: Seq<char>)
    ensures
        pwd_finished(Ok(text)) == (OutputView::Stdout(text + "\n"@), 0int),
        pwd_finished(Err(text)) == (OutputView::Stderr("pwd: "@ + text + "\n"@), 1int),
        source_finished(env, path, Err(text)) == (Finished {
            env,
            outputs: seq![OutputView::Stderr("source: "@ + path + ": "@ + text + "\n"@)],
            status: 1,
        }),
{
}

} // verus!
