//! File descriptors: redirections, and the wiring of the children of a
//! pipeline.

use crate::builtins::{builtin_name, is_builtin};
use crate::parser::{Command, CommandView, Pipeline};
use crate::text::{has_nul, lemma_views_push, views, without_nul};
use vstd::prelude::*;

verus! {

pub const STDIN_FD: i32 = 0;

pub const STDOUT_FD: i32 = 1;

pub const STDERR_FD: i32 = 2;

/// How a file is opened for a redirection. A file that is written to is
/// created if it does not exist.
#[derive(Debug, Clone, Copy, PartialEq, Eq, Structural)]
pub enum OpenMode {
    Read,
    Truncate,
    Append,
}

/// One redirection.
#[derive(Debug)]
pub enum Redirection {
    /// Open `path`, and let `fd` stand for it.
    File { path: String, mode: OpenMode, fd: i32 },
    /// Let stderr stand for what stdout stands for.
    Merge,
}

/// The model of a `Redirection`.
pub enum Route {
    File { path: Seq<char>, mode: OpenMode, fd: int },
    Merge,
}

impl View for Redirection {
    type V = Route;

    open spec fn view(&self) -> Route {
        match *self {
            Redirection::File { path, mode, fd } => Route::File { path: path@, mode, fd: fd as int },
            Redirection::Merge => Route::Merge,
        }
    }
}

/// The models of a list of redirections.
pub open spec fn routes(list: Seq<Redirection>) -> Seq<Route> {
    Seq::new(list.len(), |i: int| list[i]@)
}

/// The mode of a file that is written to.
pub open spec fn write_mode(append: bool) -> OpenMode {
    if append {
        OpenMode::Append
    } else {
        OpenMode::Truncate
    }
}

/// The redirection of stdin.
pub open spec fn in_routes(c: CommandView) -> Seq<Route> {
    match c.infile {
        Some(path) => seq![Route::File { path, mode: OpenMode::Read, fd: 0 }],
        None => seq![],
    }
}

/// The redirection of stdout.
pub open spec fn out_routes(c: CommandView) -> Seq<Route> {
    match c.outfile {
        Some(path) => seq![Route::File { path, mode: write_mode(c.append), fd: 1 }],
        None => seq![],
    }
}

/// The redirection of stderr.
pub open spec fn err_routes(c: CommandView) -> Seq<Route> {
    if c.err_to_out {
        seq![Route::Merge]
    } else {
        match c.errfile {
            Some(path) => seq![Route::File { path, mode: write_mode(c.err_append), fd: 2 }],
            None => seq![],
        }
    }
}

/// The redirections of a command, in the order in which they are applied:
/// stdout comes before stderr, so that `> file 2>&1` sends both to `file`.
pub open spec fn command_routes(c: CommandView) -> Seq<Route> {
    in_routes(c) + out_routes(c) + err_routes(c)
}

/// The redirections of a command, in the order in which they are to be applied.
pub fn apply_redirections(cmd: &Command) -> (r: Vec<Redirection>)
    ensures
        routes(r@) == command_routes(cmd@),
{
    let mut r: Vec<Redirection> = Vec::new();
    if let Some(f) = &cmd.infile {
        r.push(Redirection::File { path: f.clone(), mode: OpenMode::Read, fd: STDIN_FD });
    }
    assert(routes(r@) =~= in_routes(cmd@));
    if let Some(f) = &cmd.outfile {
        let mode = if cmd.append {
            OpenMode::Append
        } else {
            OpenMode::Truncate
        };
        r.push(Redirection::File { path: f.clone(), mode, fd: STDOUT_FD });
    }
    assert(routes(r@) =~= in_routes(cmd@) + out_routes(cmd@));
    if cmd.err_to_out {
        r.push(Redirection::Merge);
    } else if let Some(f) = &cmd.errfile {
        let mode = if cmd.err_append {
            OpenMode::Append
        } else {
            OpenMode::Truncate
        };
        r.push(Redirection::File { path: f.clone(), mode, fd: STDERR_FD });
    }
    assert(routes(r@) =~= command_routes(cmd@));
    r
}

/// What comes after a redirection.
#[derive(Debug)]
pub enum RedirectStep {
    /// Apply the redirection at this position.
    Next(usize),
    /// All redirections have been applied.
    Done,
    /// A redirection has failed, and no other is to be applied.
    Failed(String),
}

/// The model of a `RedirectStep`.
#[verifier::ext_equal]
pub enum RedirectStepView {
    Next(int),
    Done,
    Failed(Seq<char>),
}

impl View for RedirectStep {
    type V = RedirectStepView;

    open spec fn view(&self) -> RedirectStepView {
        match *self {
            RedirectStep::Next(i) => RedirectStepView::Next(i as int),
            RedirectStep::Done => RedirectStepView::Done,
            RedirectStep::Failed(text) => RedirectStepView::Failed(text@),
        }
    }
}

/// The characters of a complaint, if there is one.
pub open spec fn outcome_view(outcome: Result<(), String>) -> Result<(), Seq<char>> {
    match outcome {
        Ok(_) => Ok(()),
        Err(text) => Err(text@),
    }
}

/// What comes before the redirection at `i` of `n`.
pub open spec fn redirection_at(n: int, i: int) -> RedirectStepView {
    if i < n {
        RedirectStepView::Next(i)
    } else {
        RedirectStepView::Done
    }
}

/// What comes after the redirection at `done` of `n`.
pub open spec fn after_redirection(
    n: int,
    done: int,
    outcome: Result<(), Seq<char>>,
) -> RedirectStepView {
    match outcome {
        Ok(_) => redirection_at(n, done + 1),
        Err(text) => RedirectStepView::Failed(text),
    }
}

/// The first of the redirections `list`.
pub fn first_redirection(list: &[Redirection]) -> (r: RedirectStep)
    ensures
        r@ == redirection_at(list@.len() as int, 0),
{
    if list.len() > 0 {
        RedirectStep::Next(0)
    } else {
        RedirectStep::Done
    }
}

/// What comes after the redirection at `done`, of which `outcome` has come.
pub fn next_redirection(list: &[Redirection], done: usize, outcome: Result<(), String>) -> (r:
    RedirectStep)
    requires
        done < list@.len(),
    ensures
        r@ == after_redirection(list@.len() as int, done as int, outcome_view(outcome)),
{
    let n: usize = list.len();
    match outcome {
        Ok(_) => if done + 1 < n {
            RedirectStep::Next(done + 1)
        } else {
            RedirectStep::Done
        },
        Err(text) => RedirectStep::Failed(text),
    }
}

/// What is said of a file that cannot be opened.
pub open spec fn open_complaint(path: Seq<char>, error: Seq<char>) -> Seq<char> {
    path + ": "@ + error
}

/// What is said of a descriptor that cannot be made to stand for another.
pub open spec fn dup_complaint(route: Route, error: Seq<char>) -> Seq<char> {
    (match route {
        Route::Merge => "dup2 2>&1: "@,
        Route::File { fd, .. } => if fd == 0 {
            "dup2 stdin: "@
        } else if fd == 1 {
            "dup2 stdout: "@
        } else {
            "dup2 stderr: "@
        },
    }) + error
}

/// What is said of a file that cannot be opened.
pub fn open_failed(path: &str, error: &str) -> (r: String)
    ensures
        r@ == open_complaint(path@, error@),
{
    let mut r = path.to_string();
    r.append(": ");
    r.append(error);
    r
}

/// What is said of a descriptor that cannot be made to stand for another.
pub fn dup_failed(redirection: &Redirection, error: &str) -> (r: String)
    ensures
        r@ == dup_complaint(redirection@, error@),
{
    let mut r = match redirection {
        Redirection::Merge => "dup2 2>&1: ".to_string(),
        Redirection::File { fd, .. } => if *fd == STDIN_FD {
            "dup2 stdin: ".to_string()
        } else if *fd == STDOUT_FD {
            "dup2 stdout: ".to_string()
        } else {
            "dup2 stderr: ".to_string()
        },
    };
    r.append(error);
    r
}

// ---------------------------------------------------------------------------
// The children of a pipeline
// ---------------------------------------------------------------------------

/// An operation on descriptors whose failure is passed over.
#[derive(Debug, Clone, Copy, PartialEq, Eq, Structural)]
pub enum FdOp {
    /// Let `to` stand for what `from` stands for.
    Dup2 { from: i32, to: i32 },
    Close { fd: i32 },
}

/// The closing of both ends of every pipe.
pub open spec fn close_ops(pipes: Seq<(i32, i32)>) -> Seq<FdOp>
    decreases pipes.len(),
{
    if pipes.len() == 0 {
        seq![]
    } else {
        close_ops(pipes.drop_last()) + seq![
            FdOp::Close { fd: pipes.last().0 },
            FdOp::Close { fd: pipes.last().1 },
        ]
    }
}

/// The stdin of the `i`-th command: it reads from the pipe in front of it.
pub open spec fn stdin_ops(i: int, pipes: Seq<(i32, i32)>) -> Seq<FdOp> {
    if i > 0 {
        seq![FdOp::Dup2 { from: pipes[i - 1].0, to: STDIN_FD }]
    } else {
        seq![]
    }
}

/// The stdout of the `i`-th of `n` commands: it writes to the pipe behind it.
pub open spec fn stdout_ops(n: int, i: int, pipes: Seq<(i32, i32)>) -> Seq<FdOp> {
    if i < n - 1 {
        seq![FdOp::Dup2 { from: pipes[i].1, to: STDOUT_FD }]
    } else {
        seq![]
    }
}

/// The stderr of a command whose complaints are captured.
pub open spec fn capture_ops(capture: Option<i32>) -> Seq<FdOp> {
    match capture {
        Some(w) => seq![FdOp::Dup2 { from: w, to: STDERR_FD }, FdOp::Close { fd: w }],
        None => seq![],
    }
}

/// What the `i`-th of `n` children does to its descriptors before its own
/// redirections are applied.
pub open spec fn wiring(
    n: int,
    i: int,
    pipes: Seq<(i32, i32)>,
    capture: Option<i32>,
) -> Seq<FdOp> {
    stdin_ops(i, pipes) + stdout_ops(n, i, pipes) + close_ops(pipes) + capture_ops(capture)
}

/// What a child runs.
#[derive(Debug)]
pub enum Program {
    Builtin,
    /// Replace the process by the program `args[0]`, to be searched for.
    Exec { args: Vec<String> },
    /// The name of the program cannot be passed to the system.
    Invalid,
}

/// The model of a `Program`.
pub enum ProgramView {
    Builtin,
    Exec { args: Seq<Seq<char>> },
    Invalid,
}

impl View for Program {
    type V = ProgramView;

    open spec fn view(&self) -> ProgramView {
        match *self {
            Program::Builtin => ProgramView::Builtin,
            Program::Exec { args } => ProgramView::Exec { args: views(args@) },
            Program::Invalid => ProgramView::Invalid,
        }
    }
}

/// The arguments as they are passed to the system: one that cannot be passed
/// becomes empty.
pub open spec fn passed_args(argv: Seq<Seq<char>>) -> Seq<Seq<char>> {
    Seq::new(
        argv.len(),
        |i: int|
            if has_nul(argv[i]) {
                seq![]
            } else {
                argv[i]
            },
    )
}

/// What the command `argv` runs in a child.
pub open spec fn program_of(argv: Seq<Seq<char>>) -> ProgramView {
    if builtin_name(argv[0]) {
        ProgramView::Builtin
    } else if has_nul(argv[0]) {
        ProgramView::Invalid
    } else {
        ProgramView::Exec { args: passed_args(argv) }
    }
}

/// What a child does: it joins the process group, wires its descriptors,
/// applies its redirections and runs its program.
#[derive(Debug)]
pub struct ChildPlan {
    pub group: i32,
    pub wiring: Vec<FdOp>,
    pub redirections: Vec<Redirection>,
    pub program: Program,
}

/// The closing of both ends of every pipe.
fn close_all_pipes(pipes: &[(i32, i32)], ops: &mut Vec<FdOp>)
    ensures
        final(ops)@ == old(ops)@ + close_ops(pipes@),
{
    let mut i: usize = 0;
    assert(ops@ =~= old(ops)@ + close_ops(pipes@.take(0)));
    while i < pipes.len()
        invariant
            i <= pipes@.len(),
            ops@ == old(ops)@ + close_ops(pipes@.take(i as int)),
        decreases pipes@.len() - i,
    {
        proof {
            let longer = pipes@.take(i + 1);
            assert(longer.drop_last() =~= pipes@.take(i as int));
            assert(longer.last() == pipes@[i as int]);
        }
        ops.push(FdOp::Close { fd: pipes[i].0 });
        ops.push(FdOp::Close { fd: pipes[i].1 });
        assert(ops@ =~= old(ops)@ + close_ops(pipes@.take(i + 1)));
        i += 1;
    }
    assert(pipes@.take(i as int) =~= pipes@);
}

/// What the `i`-th child of a pipeline does. `pgid` is the process group of
/// the pipeline, if there is one yet; the first child makes its own.
pub fn child_after_fork(
    p: &Pipeline,
    i: usize,
    pipes: &[(i32, i32)],
    pgid: Option<i32>,
    mypid: i32,
    capture: Option<i32>,
) -> (plan: ChildPlan)
    requires
        i < p@.commands.len(),
        p@.commands[i as int].argv.len() > 0,
        pipes@.len() + 1 == p@.commands.len(),
    ensures
        plan.group == (match pgid {
            Some(g) => g,
            None => mypid,
        }),
        plan.wiring@ == wiring(p@.commands.len() as int, i as int, pipes@, capture),
        routes(plan.redirections@) == command_routes(p@.commands[i as int]),
        plan.program@ == program_of(p@.commands[i as int].argv),
{
    let n: usize = p.commands.len();
    let cmd = &p.commands[i];
    assert(p@.commands[i as int] == cmd@);
    let group: i32 = match pgid {
        Some(g) => g,
        None => mypid,
    };
    let mut ops: Vec<FdOp> = Vec::new();
    if i > 0 {
        ops.push(FdOp::Dup2 { from: pipes[i - 1].0, to: STDIN_FD });
    }
    if i < n - 1 {
        ops.push(FdOp::Dup2 { from: pipes[i].1, to: STDOUT_FD });
    }
    assert(ops@ =~= stdin_ops(i as int, pipes@) + stdout_ops(n as int, i as int, pipes@));
    close_all_pipes(pipes, &mut ops);
    if let Some(w) = capture {
        ops.push(FdOp::Dup2 { from: w, to: STDERR_FD });
        ops.push(FdOp::Close { fd: w });
    }
    assert(ops@ =~= wiring(n as int, i as int, pipes@, capture));
    let program = choose_program(cmd.argv.as_slice());
    ChildPlan { group, wiring: ops, redirections: apply_redirections(cmd), program }
}

/// What the command `argv` runs in a child.
fn choose_program(argv: &[String]) -> (r: Program)
    requires
        argv@.len() > 0,
    ensures
        r@ == program_of(views(argv@)),
{
    let ghost all = views(argv@);
    if is_builtin(argv[0].as_str()) {
        return Program::Builtin;
    }
    if !without_nul(argv[0].as_str()) {
        return Program::Invalid;
    }
    let mut args: Vec<String> = Vec::new();
    let mut k: usize = 0;
    while k < argv.len()
        invariant
            k <= argv@.len() == all.len(),
            all == views(argv@),
            views(args@) =~= passed_args(all).take(k as int),
        decreases argv@.len() - k,
    {
        let a: String = if without_nul(argv[k].as_str()) {
            argv[k].clone()
        } else {
            String::new()
        };
        proof {
            lemma_views_push(args@, a);
            assert(all[k as int] == argv@[k as int]@);
        }
        args.push(a);
        k += 1;
    }
    assert(passed_args(all).take(k as int) =~= passed_args(all));
    Program::Exec { args }
}

/// The exit status of a child whose program cannot be run.
pub const NOT_RUN: i32 = 127;

/// The exit status of a child whose redirections fail.
pub const NOT_REDIRECTED: i32 = 1;

/// The line in which the shell complains.
pub open spec fn complaint_line(what: Seq<char>) -> Seq<char> {
    "msh: "@ + what + "\n"@
}

/// The line in which the shell complains of `what`.
pub fn complain(what: &str) -> (r: String)
    ensures
        r@ == complaint_line(what@),
{
    let mut r = "msh: ".to_string();
    r.append(what);
    r.append("\n");
    r
}

/// What a child says of a program that cannot be run.
pub fn exec_failed(name: &str, error: &str) -> (r: String)
    ensures
        r@ == complaint_line(open_complaint(name@, error@)),
{
    complain(open_failed(name, error).as_str())
}

/// How a child comes to its end.
#[derive(Debug)]
pub enum ChildOutcome {
    /// A redirection has failed.
    NotRedirected(String),
    /// The builtin has run, with this exit status.
    BuiltinRun(i32),
    /// The name of the program cannot be passed to the system.
    Invalid,
    /// The program cannot be run.
    NotExecuted { name: String, error: String },
}

/// The model of a `ChildOutcome`.
pub enum ChildOutcomeView {
    NotRedirected(Seq<char>),
    BuiltinRun(i32),
    Invalid,
    NotExecuted { name: Seq<char>, error: Seq<char> },
}

impl View for ChildOutcome {
    type V = ChildOutcomeView;

    open spec fn view(&self) -> ChildOutcomeView {
        match *self {
            ChildOutcome::NotRedirected(e) => ChildOutcomeView::NotRedirected(e@),
            ChildOutcome::BuiltinRun(rc) => ChildOutcomeView::BuiltinRun(rc),
            ChildOutcome::Invalid => ChildOutcomeView::Invalid,
            ChildOutcome::NotExecuted { name, error } => ChildOutcomeView::NotExecuted {
                name: name@,
                error: error@,
            },
        }
    }
}

/// What a child writes to stderr at its end, and its exit status.
pub open spec fn child_end(outcome: ChildOutcomeView) -> (Seq<char>, i32) {
    match outcome {
        ChildOutcomeView::NotRedirected(e) => (complaint_line(e), NOT_REDIRECTED),
        ChildOutcomeView::BuiltinRun(rc) => (seq![], rc),
        ChildOutcomeView::Invalid => (complaint_line("invalid program name"@), NOT_RUN),
        ChildOutcomeView::NotExecuted { name, error } => (
            complaint_line(open_complaint(name, error)),
            NOT_RUN,
        ),
    }
}

/// What a child writes to stderr at its end, and its exit status.
pub fn child_over(outcome: ChildOutcome) -> (r: (String, i32))
    ensures
        (r.0@, r.1) == child_end(outcome@),
{
    match outcome {
        ChildOutcome::NotRedirected(e) => (complain(e.as_str()), NOT_REDIRECTED),
        ChildOutcome::BuiltinRun(rc) => {
            let nothing = String::new();
            assert(nothing@ =~= seq![]);
            (nothing, rc)
        },
        ChildOutcome::Invalid => (complain("invalid program name"), NOT_RUN),
        ChildOutcome::NotExecuted { name, error } => (
            exec_failed(name.as_str(), error.as_str()),
            NOT_RUN,
        ),
    }
}

// ---------------------------------------------------------------------------
// Laws
// ---------------------------------------------------------------------------

/// How the redirections from `i` on of `n` go, if `outcomes[j]` is what comes of
/// the one at `j`: how many have been tried, and how it ends.
pub open spec fn redirections_tried(
    n: int,
    i: int,
    outcomes: Seq<Result<(), Seq<char>>>,
) -> (int, RedirectStepView)
    decreases n - i,
{
    if i < n {
        match after_redirection(n, i, outcomes[i]) {
            RedirectStepView::Next(_) => redirections_tried(n, i + 1, outcomes),
            end => (i + 1, end),
        }
    } else {
        (i, RedirectStepView::Done)
    }
}

/// The first redirection that fails is the last one that is tried, and its
/// complaint is what comes of them all; without a failure all are applied.
pub proof fn a_failure_ends_the_redirections(
    n: int,
    i: int,
    outcomes: Seq<Result<(), Seq<char>>>,
    k: int,
)
    requires
        0 <= i <= k <= n == outcomes.len(),
        forall|j: int| i <= j < k ==> (#[trigger] outcomes[j]) is Ok,
        k < n ==> outcomes[k] is Err,
    ensures
        redirections_tried(n, i, outcomes) == (if k < n {
            (k + 1, RedirectStepView::Failed(outcomes[k]->Err_0))
        } else {
            (n, RedirectStepView::Done)
        }),
    decreases n - i,
{
    if i < n {
        if i < k {
            assert(outcomes[i] is Ok);
            a_failure_ends_the_redirections(n, i + 1, outcomes, k);
        }
    }
}

/// What a descriptor stands for.
pub enum End {
    /// One of the streams that the process was started with.
    Inherited(int),
    File(Seq<char>, OpenMode),
    /// The end of the `n`-th pipe that is read from.
    ReadOf(int),
    /// The end of the `n`-th pipe that is written to.
    WriteOf(int),
    /// The end that captured complaints are written to.
    Capture,
}

/// What the descriptors of a process stand for.
pub type Fds = Map<int, End>;

/// `fds` after redirections, in order.
pub open spec fn redirected_fds(list: Seq<Route>, fds: Fds) -> Fds
    decreases list.len(),
{
    if list.len() == 0 {
        fds
    } else {
        let before = redirected_fds(list.drop_last(), fds);
        match list.last() {
            Route::File { path, mode, fd } => before.insert(fd, End::File(path, mode)),
            Route::Merge => before.insert(2, before[1]),
        }
    }
}

/// The redirections of a command do what they say: each stream goes to its
/// file, or stays; `2>&1` sends stderr where stdout goes after its own
/// redirection, so that `> file 2>&1` sends both to `file`; and no other
/// descriptor changes.
pub proof fn redirections_route_streams(c: CommandView, fds: Fds)
    requires
        fds.dom().contains(0),
        fds.dom().contains(1),
        fds.dom().contains(2),
    ensures
        ({
            let after = redirected_fds(command_routes(c), fds);
            &&& after[0] == (match c.infile {
                Some(f) => End::File(f, OpenMode::Read),
                None => fds[0],
            })
            &&& after[1] == (match c.outfile {
                Some(f) => End::File(
                    f,
                    if c.append {
                        OpenMode::Append
                    } else {
                        OpenMode::Truncate
                    },
                ),
                None => fds[1],
            })
            &&& after[2] == (if c.err_to_out {
                after[1]
            } else {
                match c.errfile {
                    Some(f) => End::File(
                        f,
                        if c.err_append {
                            OpenMode::Append
                        } else {
                            OpenMode::Truncate
                        },
                    ),
                    None => fds[2],
                }
            })
            &&& after.dom() == fds.dom()
            &&& forall|fd: int| #[trigger] fds.dom().contains(fd) && fd > 2 ==> after[fd] == fds[fd]
        }),
{
    let i = in_routes(c);
    let o = out_routes(c);
    let e = err_routes(c);
    lemma_redirected_one(Seq::empty(), i, fds);
    assert(Seq::empty() + i =~= i);
    lemma_redirected_one(i, o, fds);
    lemma_redirected_one(i + o, e, fds);
    let after = redirected_fds(command_routes(c), fds);
    assert(after.dom() =~= fds.dom());
}

/// What one more redirection, or none, does.
proof fn lemma_redirected_one(list: Seq<Route>, more: Seq<Route>, fds: Fds)
    requires
        more.len() <= 1,
    ensures
        redirected_fds(list + more, fds) == (if more.len() == 0 {
            redirected_fds(list, fds)
        } else {
            match more[0] {
                Route::File { path, mode, fd } => redirected_fds(list, fds).insert(
                    fd,
                    End::File(path, mode),
                ),
                Route::Merge => redirected_fds(list, fds).insert(2, redirected_fds(list, fds)[1]),
            }
        }),
{
    if more.len() == 0 {
        assert(list + more =~= list);
    } else {
        assert((list + more).drop_last() =~= list);
    }
}

/// `fds` after an operation.
pub open spec fn operated(op: FdOp, fds: Fds) -> Fds {
    match op {
        FdOp::Dup2 { from, to } => if fds.dom().contains(from as int) {
            fds.insert(to as int, fds[from as int])
        } else {
            fds
        },
        FdOp::Close { fd } => fds.remove(fd as int),
    }
}

/// `fds` after operations, in order.
pub open spec fn all_operated(ops: Seq<FdOp>, fds: Fds) -> Fds
    decreases ops.len(),
{
    if ops.len() == 0 {
        fds
    } else {
        operated(ops.last(), all_operated(ops.drop_last(), fds))
    }
}

proof fn lemma_operated_concat(a: Seq<FdOp>, b: Seq<FdOp>, fds: Fds)
    ensures
        all_operated(a + b, fds) == all_operated(b, all_operated(a, fds)),
    decreases b.len(),
{
    if b.len() == 0 {
        assert(a + b =~= a);
    } else {
        lemma_operated_concat(a, b.drop_last(), fds);
        assert((a + b).drop_last() =~= a + b.drop_last());
    }
}

/// Whether `fd` is an end of one of `pipes`.
pub open spec fn is_end_of(pipes: Seq<(i32, i32)>, fd: int) -> bool {
    exists|j: int|
        0 <= j < pipes.len() && ((#[trigger] pipes[j]).0 == fd || pipes[j].1 == fd)
}

proof fn lemma_closed(pipes: Seq<(i32, i32)>, fds: Fds)
    ensures
        forall|fd: int|
            #![trigger all_operated(close_ops(pipes), fds).dom().contains(fd)]
            all_operated(close_ops(pipes), fds).dom().contains(fd) == (fds.dom().contains(fd)
                && !is_end_of(pipes, fd)),
        forall|fd: int|
            #![trigger all_operated(close_ops(pipes), fds)[fd]]
            fds.dom().contains(fd) && !is_end_of(pipes, fd) ==> all_operated(
                close_ops(pipes),
                fds,
            )[fd] == fds[fd],
    decreases pipes.len(),
{
    if pipes.len() > 0 {
        let front = pipes.drop_last();
        let last = pipes.last();
        lemma_closed(front, fds);
        let two = seq![FdOp::Close { fd: last.0 }, FdOp::Close { fd: last.1 }];
        lemma_operated_concat(close_ops(front), two, fds);
        let before = all_operated(close_ops(front), fds);
        reveal_with_fuel(all_operated, 3);
        assert(two.drop_last().drop_last() =~= Seq::<FdOp>::empty());
        assert(all_operated(two, before) == before.remove(last.0 as int).remove(last.1 as int));
        assert forall|fd: int| is_end_of(pipes, fd) == (is_end_of(front, fd) || last.0 == fd
            || last.1 == fd) by {
            if is_end_of(front, fd) {
                let j = choose|j: int|
                    0 <= j < front.len() && ((#[trigger] front[j]).0 == fd || front[j].1 == fd);
                assert(pipes[j] == front[j]);
            }
            if is_end_of(pipes, fd) {
                let j = choose|j: int|
                    0 <= j < pipes.len() && ((#[trigger] pipes[j]).0 == fd || pipes[j].1 == fd);
                if j < front.len() {
                    assert(front[j] == pipes[j]);
                }
            }
            assert(pipes[pipes.len() - 1] == last);
        }
    }
}

/// The parent's descriptors when a child of a pipeline is made: the standard
/// streams, and both ends of every pipe under numbers of their own.
pub open spec fn pipes_open(pipes: Seq<(i32, i32)>, capture: Option<i32>, fds: Fds) -> bool {
    &&& fds.dom().contains(0) && fds.dom().contains(1) && fds.dom().contains(2)
    &&& forall|j: int|
        0 <= j < pipes.len() ==> {
            &&& (#[trigger] pipes[j]).0 > 2 && pipes[j].1 > 2
            &&& fds.dom().contains(pipes[j].0 as int) && fds[pipes[j].0 as int] == End::ReadOf(j)
            &&& fds.dom().contains(pipes[j].1 as int) && fds[pipes[j].1 as int] == End::WriteOf(j)
        }
    &&& capture matches Some(w) ==> {
        &&& w > 2
        &&& fds.dom().contains(w as int) && fds[w as int] == End::Capture
    }
}

/// Every command of a pipeline reads from the pipe in front of it and writes
/// to the pipe behind it, its complaints go to the capture if there is one, and
/// no end of a pipe stays open under another number.
pub proof fn children_are_wired(
    n: int,
    i: int,
    pipes: Seq<(i32, i32)>,
    capture: Option<i32>,
    fds: Fds,
)
    requires
        0 <= i < n,
        pipes.len() == n - 1,
        pipes_open(pipes, capture, fds),
    ensures
        ({
            let after = all_operated(wiring(n, i, pipes, capture), fds);
            &&& after.dom().contains(0) && after[0] == (if i > 0 {
                End::ReadOf(i - 1)
            } else {
                fds[0]
            })
            &&& after.dom().contains(1) && after[1] == (if i < n - 1 {
                End::WriteOf(i)
            } else {
                fds[1]
            })
            &&& after.dom().contains(2) && after[2] == (match capture {
                Some(_) => End::Capture,
                None => fds[2],
            })
            &&& forall|fd: int|
                fd > 2 ==> #[trigger] after.dom().contains(fd) == (fds.dom().contains(fd)
                    && !is_end_of(pipes, fd) && !(capture matches Some(w) && w == fd))
        }),
{
    let a = stdin_ops(i, pipes);
    let b = stdout_ops(n, i, pipes);
    let c = close_ops(pipes);
    let d = capture_ops(capture);
    lemma_operated_concat(a + b + c, d, fds);
    lemma_operated_concat(a + b, c, fds);
    lemma_operated_concat(a, b, fds);
    let f1 = all_operated(a, fds);
    let f2 = all_operated(b, f1);
    let f3 = all_operated(c, f2);
    let f4 = all_operated(d, f3);
    reveal_with_fuel(all_operated, 3);
    if i > 0 {
        assert(pipes[i - 1].0 > 2);
        assert(a.drop_last() =~= Seq::<FdOp>::empty());
        assert(f1 == fds.insert(0, End::ReadOf(i - 1)));
    } else {
        assert(f1 == fds);
    }
    if i < n - 1 {
        assert(pipes[i].1 > 2);
        assert(b.drop_last() =~= Seq::<FdOp>::empty());
        assert(f2 == f1.insert(1, End::WriteOf(i)));
    } else {
        assert(f2 == f1);
    }
    lemma_closed(pipes, f2);
    assert forall|fd: int| is_end_of(pipes, fd) implies fd > 2 by {
        let j = choose|j: int|
            0 <= j < pipes.len() && ((#[trigger] pipes[j]).0 == fd || pipes[j].1 == fd);
        assert(pipes[j].0 > 2);
    }
    match capture {
        Some(w) => {
            assert(!is_end_of(pipes, w as int)) by {
                if is_end_of(pipes, w as int) {
                    let j = choose|j: int|
                        0 <= j < pipes.len() && ((#[trigger] pipes[j]).0 == w || pipes[j].1 == w);
                    assert(pipes[j].0 > 2);
                }
            }
            assert(d.drop_last() =~= seq![FdOp::Dup2 { from: w, to: STDERR_FD }]);
            assert(d.drop_last().drop_last() =~= Seq::<FdOp>::empty());
            assert(f3.dom().contains(w as int));
            assert(f3[w as int] == End::Capture);
            assert(f4 == f3.insert(2, End::Capture).remove(w as int));
        },
        None => {
            assert(f4 == f3);
        },
    }
    assert(wiring(n, i, pipes, capture) == a + b + c + d);
    assert(f3.dom().contains(0) && f3.dom().contains(1) && f3.dom().contains(2));
    assert(f3[0] == f2[0] && f3[1] == f2[1] && f3[2] == f2[2]);
}

/// The redirections are applied one after the other, from the first on, until
/// one fails or none is left.
pub proof fn redirections_come_in_order(n: int, done: int, error: Seq<char>)
    requires
        0 <= done < n,
    ensures
        redirection_at(n, 0) == RedirectStepView::Next(0),
        redirection_at(0, 0) == RedirectStepView::Done,
        done + 1 < n ==> after_redirection(n, done, Ok(())) == RedirectStepView::Next(done + 1),
        done + 1 == n ==> after_redirection(n, done, Ok(())) == RedirectStepView::Done,
        after_redirection(n, done, Err(error)) == RedirectStepView::Failed(error),
{
}

/// A command that is no builtin is run with just the words it was given: as many,
/// in the same order, and each unchanged unless it cannot be passed at all. A
/// program whose name cannot be passed is not run.
pub proof fn programs_get_their_words(argv: Seq<Seq<char>>)
    requires
        argv.len() > 0,
    ensures
        program_of(argv) is Builtin <==> builtin_name(argv[0]),
        program_of(argv) is Invalid <==> !builtin_name(argv[0]) && argv[0].contains('\0'),
        program_of(argv) matches ProgramView::Exec { args } ==> {
            &&& args.len() == argv.len()
            &&& args[0] == argv[0]
            &&& forall|i: int|
                0 <= i < argv.len() && !argv[i].contains('\0') ==> #[trigger] args[i] == argv[i]
            &&& forall|i: int|
                0 <= i < argv.len() && argv[i].contains('\0') ==> (#[trigger] args[i]).len() == 0
        },
{
}

/// A child that cannot redirect its streams ends with status 1, and one that
/// cannot run its program with status 127; both say why. A builtin gives its own
/// status, and nothing is said.
pub proof fn children_say_why_they_fail(name: Seq<char>, error: Seq<char>, rc: i32)
    ensures
        child_end(ChildOutcomeView::NotRedirected(error)) == ("msh: "@ + error + "\n"@, 1i32),
        child_end(ChildOutcomeView::BuiltinRun(rc)) == (Seq::<char>::empty(), rc),
        child_end(ChildOutcomeView::NotExecuted { name, error }) == (
            "msh: "@ + (name + ": "@ + error) + "\n"@,
            127i32,
        ),
        child_end(ChildOutcomeView::Invalid).1 == 127,
{
}

/// What is said of a redirection that failed names the file, or the stream that
/// it is about, and gives the reason.
pub proof fn failed_redirections_say_why(path: Seq<char>, mode: OpenMode, error: Seq<char>)
    ensures
        open_complaint(path, error) == path + ": "@ + error,
        dup_complaint(Route::File { path, mode, fd: 0 }, error) == "dup2 stdin: "@ + error,
        dup_complaint(Route::File { path, mode, fd: 1 }, error) == "dup2 stdout: "@ + error,
        dup_complaint(Route::File { path, mode, fd: 2 }, error) == "dup2 stderr: "@ + error,
        dup_complaint(Route::Merge, error) == "dup2 2>&1: "@ + error,
{
}

} // verus!
