//! Process orchestration: which pipelines of a script run, and what is done,
//! in which order, to run one.
//!
//! A script and a pipeline are run step by step. A step is told what has come
//! of the last request, and gives the next one; whatever has no outcome that
//! matters is given along with it.

use crate::builtins::{builtin_name, is_builtin};
use crate::descriptors::{complain, complaint_line};
use crate::jobs::{
    add_job, drain_done, in_state, mark_pid_reaped, reaped, report, report_done, JobState, JobTable,
    JobView, TableView,
};
use crate::number::{decimal, push_decimal};
use crate::parser::{
    pipeline_well_formed, well_formed, CommandView, Connector, Pipeline, PipelineView, Script, ScriptView,
};
use crate::text::{
    chars_of, join, join_strings, joining_is_associative, lemma_views_push, opt_view, trim, trimmed,
    views, Edge,
};
use vstd::multiset::Multiset;
use vstd::prelude::*;

verus! {

// ---------------------------------------------------------------------------
// The state of the shell
// ---------------------------------------------------------------------------

/// What the shell remembers between commands.
pub struct Shell {
    last_status: i32,
    exit_request: Option<i32>,
    pgid: i32,
    interactive: bool,
    jobs: JobTable,
}

/// The model of a `Shell`.
#[verifier::ext_equal]
pub struct ShellView {
    pub last_status: int,
    pub exit_request: Option<i32>,
    pub pgid: int,
    pub interactive: bool,
    pub jobs: TableView,
}

impl View for Shell {
    type V = ShellView;

    closed spec fn view(&self) -> ShellView {
        ShellView {
            last_status: self.last_status as int,
            exit_request: self.exit_request,
            pgid: self.pgid as int,
            interactive: self.interactive,
            jobs: self.jobs@,
        }
    }
}

/// A signal that the shell treats in a way of its own.
#[derive(Debug, Clone, Copy, PartialEq, Eq, Structural)]
pub enum SignalName {
    Interrupt,
    Quit,
    TerminalStop,
    TerminalInput,
    TerminalOutput,
    Child,
}

/// The signals that an interactive shell ignores.
pub open spec fn ignored_signals() -> Seq<SignalName> {
    seq![
        SignalName::Interrupt,
        SignalName::Quit,
        SignalName::TerminalStop,
        SignalName::TerminalInput,
        SignalName::TerminalOutput,
    ]
}

impl Shell {
    /// A shell that has run nothing yet.
    pub fn new() -> (r: Shell)
        ensures
            r@ == (ShellView {
                last_status: 0,
                exit_request: None,
                pgid: 0,
                interactive: false,
                jobs: TableView { jobs: seq![], next_id: 1 },
            }),
    {
        Shell {
            last_status: 0,
            exit_request: None,
            pgid: 0,
            interactive: false,
            jobs: JobTable::new(),
        }
    }

    /// The background jobs.
    pub fn jobs(&self) -> (r: &JobTable)
        ensures
            r@ == self@.jobs,
    {
        &self.jobs
    }

    /// The number that the next background job gets.
    pub fn next_job(&self) -> (r: i32)
        ensures
            r == self@.jobs.next_id,
    {
        self.jobs.next_id()
    }
}

/// The exit status of the last pipeline.
pub fn last_exit_status(shell: &Shell) -> (r: i32)
    ensures
        r == shell@.last_status,
{
    shell.last_status
}

/// Sets the exit status of the last pipeline.
pub fn set_last_exit_status(shell: &mut Shell, v: i32)
    ensures
        final(shell)@ == (ShellView { last_status: v as int, ..old(shell)@ }),
{
    shell.last_status = v;
}

/// Asks the shell to end, with `code`, once the line under way is done.
pub fn request_exit(shell: &mut Shell, code: i32)
    ensures
        final(shell)@ == (ShellView { exit_request: Some(code), ..old(shell)@ }),
{
    shell.exit_request = Some(code);
}

/// The exit code that the shell has been asked to end with.
pub fn pending_exit(shell: &Shell) -> (r: Option<i32>)
    ensures
        r == shell@.exit_request,
{
    shell.exit_request
}

/// A step of the preparation of the shell.
#[derive(Debug, Clone, Copy, PartialEq, Eq, Structural)]
pub enum InitStep {
    /// Take note when a child ends.
    HandleChildSignal,
    /// Wait until the shell has the terminal, as `has_terminal` says.
    AwaitTerminal,
    /// Ignore a signal.
    Ignore(SignalName),
    /// Make the shell the leader of a process group of its own.
    LeadGroup { pid: i32 },
    /// Give the terminal to the process group of the shell.
    TakeTerminal { pgid: i32 },
}

/// What is done to prepare a shell with the process id `pid`. One that is
/// interactive leads a process group of its own, which has the terminal, and
/// ignores signals from the terminal.
pub open spec fn init_steps(interactive: bool, pid: i32) -> Seq<InitStep> {
    seq![InitStep::HandleChildSignal] + if interactive {
        seq![InitStep::AwaitTerminal] + Seq::new(
            ignored_signals().len(),
            |i: int| InitStep::Ignore(ignored_signals()[i]),
        ) + seq![InitStep::LeadGroup { pid }, InitStep::TakeTerminal { pgid: pid }]
    } else {
        seq![]
    }
}

/// Prepares the shell, and says what else is to be done to prepare it.
pub fn init_shell(shell: &mut Shell, interactive: bool, pid: i32) -> (steps: Vec<InitStep>)
    ensures
        final(shell)@ == (ShellView {
            interactive,
            pgid: if interactive {
                pid as int
            } else {
                old(shell)@.pgid
            },
            ..old(shell)@
        }),
        steps@ == init_steps(interactive, pid),
{
    shell.interactive = interactive;
    let mut steps: Vec<InitStep> = Vec::new();
    steps.push(InitStep::HandleChildSignal);
    if interactive {
        shell.pgid = pid;
        steps.push(InitStep::AwaitTerminal);
        steps.push(InitStep::Ignore(SignalName::Interrupt));
        steps.push(InitStep::Ignore(SignalName::Quit));
        steps.push(InitStep::Ignore(SignalName::TerminalStop));
        steps.push(InitStep::Ignore(SignalName::TerminalInput));
        steps.push(InitStep::Ignore(SignalName::TerminalOutput));
        steps.push(InitStep::LeadGroup { pid });
        steps.push(InitStep::TakeTerminal { pgid: pid });
    }
    assert(steps@ =~= init_steps(interactive, pid));
    steps
}

/// Whether the shell, of process group `own`, has the terminal, whose
/// foreground group is `foreground` if it has one.
pub fn has_terminal(own: i32, foreground: Option<i32>) -> (r: bool)
    ensures
        r == (foreground == Some(own)),
{
    match foreground {
        Some(g) => g == own,
        None => false,
    }
}

/// The signals that a child handles in the default way again.
pub fn child_signals() -> (r: Vec<SignalName>)
    ensures
        r@ == ignored_signals().push(SignalName::Child),
{
    let mut r: Vec<SignalName> = Vec::new();
    r.push(SignalName::Interrupt);
    r.push(SignalName::Quit);
    r.push(SignalName::TerminalStop);
    r.push(SignalName::TerminalInput);
    r.push(SignalName::TerminalOutput);
    r.push(SignalName::Child);
    assert(r@ =~= ignored_signals().push(SignalName::Child));
    r
}

// ---------------------------------------------------------------------------
// Waiting for children
// ---------------------------------------------------------------------------

/// What came of waiting for a child.
#[derive(Debug, Clone, Copy, PartialEq, Eq, Structural)]
pub enum WaitOutcome {
    Exited { pid: i32, code: i32 },
    Signaled { pid: i32, signal: i32 },
    /// No child has ended.
    StillAlive,
    /// A child has changed, but not ended.
    Changed,
    /// The wait was interrupted by a signal.
    Interrupted,
    Failed,
}

/// Whether there may be more children to reap.
pub open spec fn more_to_reap(outcome: WaitOutcome) -> bool {
    outcome is Exited || outcome is Signaled || outcome is Changed
}

/// The jobs after a child has been waited for.
pub open spec fn after_wait(jobs: Seq<JobView>, outcome: WaitOutcome) -> Seq<JobView> {
    match outcome {
        WaitOutcome::Exited { pid, .. } => reaped(jobs, pid),
        WaitOutcome::Signaled { pid, .. } => reaped(jobs, pid),
        _ => jobs,
    }
}

/// Takes note of a child that was waited for without blocking, and says
/// whether to wait for another.
pub fn reap_job(shell: &mut Shell, outcome: WaitOutcome) -> (more: bool)
    ensures
        more == more_to_reap(outcome),
        final(shell)@ == (ShellView {
            jobs: TableView {
                jobs: after_wait(old(shell)@.jobs.jobs, outcome),
                ..old(shell)@.jobs
            },
            ..old(shell)@
        }),
{
    match outcome {
        WaitOutcome::Exited { pid, .. } => {
            mark_pid_reaped(&mut shell.jobs, pid);
            true
        },
        WaitOutcome::Signaled { pid, .. } => {
            mark_pid_reaped(&mut shell.jobs, pid);
            true
        },
        WaitOutcome::Changed => true,
        _ => false,
    }
}

/// Takes the finished jobs out of the table, and reports them.
pub fn reap_jobs(shell: &mut Shell) -> (text: String)
    ensures
        text@ == report(in_state(old(shell)@.jobs.jobs, JobState::Done)),
        final(shell)@ == (ShellView {
            jobs: TableView {
                jobs: in_state(old(shell)@.jobs.jobs, JobState::Running),
                ..old(shell)@.jobs
            },
            ..old(shell)@
        }),
{
    let done = drain_done(&mut shell.jobs);
    report_done(done.as_slice())
}

// ---------------------------------------------------------------------------
// Summaries
// ---------------------------------------------------------------------------

/// The commands of a pipeline, each with its words.
pub open spec fn summary(p: PipelineView) -> Seq<char> {
    join(Seq::new(p.commands.len(), |i: int| join(p.commands[i].argv, " "@)), " | "@)
}

/// The text of a pipeline: its words, without redirections.
pub fn make_summary(p: &Pipeline) -> (r: String)
    ensures
        r@ == summary(p@),
{
    let ghost all = Seq::new(p@.commands.len(), |i: int| join(p@.commands[i].argv, " "@));
    let mut parts: Vec<String> = Vec::new();
    let mut i: usize = 0;
    while i < p.commands.len()
        invariant
            i <= p.commands@.len(),
            all == Seq::new(p@.commands.len(), |i: int| join(p@.commands[i].argv, " "@)),
            views(parts@) =~= all.take(i as int),
        decreases p.commands@.len() - i,
    {
        let part = join_strings(p.commands[i].argv.as_slice(), " ");
        assert(p@.commands[i as int] == p.commands@[i as int]@);
        proof {
            lemma_views_push(parts@, part);
        }
        parts.push(part);
        i += 1;
    }
    assert(all.take(i as int) =~= all);
    join_strings(parts.as_slice(), " | ")
}

// ---------------------------------------------------------------------------
// Pipelines
// ---------------------------------------------------------------------------

/// The result of running a single pipeline.
pub struct PipelineResult {
    pub status: i32,
    /// The text of the command and what it wrote to stderr, for an autopsy.
    /// Only there for a single external command in the foreground that failed
    /// and whose stderr was not redirected.
    pub autopsy: Option<(String, String)>,
}

/// The model of a `PipelineResult`.
#[verifier::ext_equal]
pub struct ResultView {
    pub status: int,
    pub autopsy: Option<(Seq<char>, Seq<char>)>,
}

/// The model of the material for an autopsy.
pub open spec fn autopsy_view(a: Option<(String, String)>) -> Option<(Seq<char>, Seq<char>)> {
    match a {
        Some((command, stderr)) => Some((command@, stderr@)),
        None => None,
    }
}

impl View for PipelineResult {
    type V = ResultView;

    open spec fn view(&self) -> ResultView {
        ResultView { status: self.status as int, autopsy: autopsy_view(self.autopsy) }
    }
}

/// Something to be done whose outcome does not matter.
pub enum Effect {
    Print(String),
    Eprint(String),
    /// Close descriptors, in order.
    Close(Vec<i32>),
    /// Hold back the signal that a child has ended.
    BlockChildSignal,
    /// Let signals through as before.
    RestoreSignals,
    /// Put a process into a process group.
    SetGroup { pid: i32, pgid: i32 },
    /// Give the terminal to a process group.
    Foreground { pgid: i32 },
    /// Bring the streams that were saved back to what they were.
    RestoreStreams,
}

/// The model of an `Effect`.
pub enum EffectView {
    Print(Seq<char>),
    Eprint(Seq<char>),
    Close(Seq<i32>),
    BlockChildSignal,
    RestoreSignals,
    SetGroup { pid: i32, pgid: i32 },
    Foreground { group: int },
    RestoreStreams,
}

impl View for Effect {
    type V = EffectView;

    open spec fn view(&self) -> EffectView {
        match *self {
            Effect::Print(s) => EffectView::Print(s@),
            Effect::Eprint(s) => EffectView::Eprint(s@),
            Effect::Close(fds) => EffectView::Close(fds@),
            Effect::BlockChildSignal => EffectView::BlockChildSignal,
            Effect::RestoreSignals => EffectView::RestoreSignals,
            Effect::SetGroup { pid, pgid } => EffectView::SetGroup { pid, pgid },
            Effect::Foreground { pgid } => EffectView::Foreground { group: pgid as int },
            Effect::RestoreStreams => EffectView::RestoreStreams,
        }
    }
}

/// The models of a list of effects.
pub open spec fn effect_views(list: Seq<Effect>) -> Seq<EffectView> {
    Seq::new(list.len(), |i: int| list[i]@)
}

/// Something to be done whose outcome is the next event.
pub enum Request {
    /// Save streams, and apply the redirections of the only command in the shell
    /// process.
    Redirect { save_in: bool, save_out: bool, save_err: bool },
    /// Run the only command in the shell process.
    Builtin,
    OpenPipe,
    /// Make the child for the command at `index`.
    Fork { index: usize, pgid: Option<i32>, capture: Option<i32> },
    Wait { pid: i32 },
    /// Read everything from a descriptor, and close it.
    Drain { fd: i32 },
    /// Nothing more: this is the result.
    Finish(PipelineResult),
}

/// The model of a `Request`.
pub enum RequestView {
    Redirect { save_in: bool, save_out: bool, save_err: bool },
    Builtin,
    OpenPipe,
    Fork { index: int, pgid: Option<i32>, capture: Option<i32> },
    Wait { pid: i32 },
    Drain { fd: i32 },
    Finish(ResultView),
}

impl View for Request {
    type V = RequestView;

    open spec fn view(&self) -> RequestView {
        match *self {
            Request::Redirect { save_in, save_out, save_err } => RequestView::Redirect {
                save_in,
                save_out,
                save_err,
            },
            Request::Builtin => RequestView::Builtin,
            Request::OpenPipe => RequestView::OpenPipe,
            Request::Fork { index, pgid, capture } => RequestView::Fork {
                index: index as int,
                pgid,
                capture,
            },
            Request::Wait { pid } => RequestView::Wait { pid },
            Request::Drain { fd } => RequestView::Drain { fd },
            Request::Finish(r) => RequestView::Finish(r@),
        }
    }
}

/// What has come of the last request.
pub enum Event {
    Start,
    /// The redirections of the builtin have been applied.
    Redirected,
    /// A redirection of the builtin has failed.
    NotRedirected(String),
    /// The builtin has run, with this exit status.
    BuiltinRun(i32),
    PipeOpened { read: i32, write: i32 },
    PipeFailed(String),
    Forked { pid: i32 },
    ForkFailed(String),
    Waited(WaitOutcome),
    Drained(String),
}

/// The model of an `Event`.
pub enum EventView {
    Start,
    Redirected,
    NotRedirected(Seq<char>),
    BuiltinRun(i32),
    PipeOpened { read: i32, write: i32 },
    PipeFailed(Seq<char>),
    Forked { pid: i32 },
    ForkFailed(Seq<char>),
    Waited(WaitOutcome),
    Drained(Seq<char>),
}

impl View for Event {
    type V = EventView;

    open spec fn view(&self) -> EventView {
        match *self {
            Event::Start => EventView::Start,
            Event::Redirected => EventView::Redirected,
            Event::NotRedirected(e) => EventView::NotRedirected(e@),
            Event::BuiltinRun(rc) => EventView::BuiltinRun(rc),
            Event::PipeOpened { read, write } => EventView::PipeOpened { read, write },
            Event::PipeFailed(e) => EventView::PipeFailed(e@),
            Event::Forked { pid } => EventView::Forked { pid },
            Event::ForkFailed(e) => EventView::ForkFailed(e@),
            Event::Waited(w) => EventView::Waited(w),
            Event::Drained(t) => EventView::Drained(t@),
        }
    }
}

/// What the run of a pipeline is waiting for.
#[derive(Debug, Clone, Copy, PartialEq, Eq, Structural)]
pub enum Phase {
    /// to be started
    Start,
    /// the redirections of the builtin
    Redirect,
    /// the builtin
    Builtin,
    /// the pipe for stderr
    Capture,
    /// the pipes between the commands
    Pipes,
    /// the children
    Forks,
    /// what is written to stderr
    Drain,
    /// the ends of the children
    Waits,
    /// nothing
    Finished,
}

/// A pipeline under way.
pub struct PipelineRun {
    phase: Phase,
    capture: Option<(i32, i32)>,
    pipes: Vec<(i32, i32)>,
    pids: Vec<i32>,
    captured: Option<String>,
    waited: usize,
    status: i32,
}

/// The model of a `PipelineRun`.
#[verifier::ext_equal]
pub struct RunView {
    pub phase: Phase,
    /// the pipe for stderr: the end to read from, and the end to write to
    pub capture: Option<(i32, i32)>,
    pub pipes: Seq<(i32, i32)>,
    pub pids: Seq<i32>,
    /// what was written to the stderr that is captured, once it is read
    pub captured: Option<Seq<char>>,
    /// how many children have been waited for
    pub waited: int,
    pub status: int,
}

impl View for PipelineRun {
    type V = RunView;

    closed spec fn view(&self) -> RunView {
        RunView {
            phase: self.phase,
            capture: self.capture,
            pipes: self.pipes@,
            pids: self.pids@,
            captured: opt_view(self.captured),
            waited: self.waited as int,
            status: self.status as int,
        }
    }
}

/// What a step leads to.
#[verifier::ext_equal]
pub struct Next {
    pub shell: ShellView,
    pub run: RunView,
    pub effects: Seq<EffectView>,
    pub request: RequestView,
}

/// What to do next: `effects`, and then `request`.
pub struct Step {
    pub effects: Vec<Effect>,
    pub request: Request,
}

/// A single builtin in the foreground runs in the shell process, so that what
/// it changes persists.
pub open spec fn runs_in_shell(p: PipelineView) -> bool {
    p.commands.len() == 1 && !p.background && builtin_name(p.commands[0].argv[0])
}

/// Stderr is captured for a single command in the foreground that does not
/// redirect it.
pub open spec fn captures_stderr(p: PipelineView) -> bool {
    p.commands.len() == 1 && !p.background && p.commands[0].errfile is None
        && !p.commands[0].err_to_out
}

/// Both ends of every pipe.
pub open spec fn pipe_fds(pipes: Seq<(i32, i32)>) -> Seq<i32>
    decreases pipes.len(),
{
    if pipes.len() == 0 {
        seq![]
    } else {
        pipe_fds(pipes.drop_last()) + seq![pipes.last().0, pipes.last().1]
    }
}

/// Both ends of the pipe for stderr.
pub open spec fn capture_fds(capture: Option<(i32, i32)>) -> Seq<i32> {
    match capture {
        Some((r, w)) => seq![r, w],
        None => seq![],
    }
}

/// The end of the run.
pub open spec fn finished(
    s: ShellView,
    r: RunView,
    effects: Seq<EffectView>,
    result: ResultView,
) -> Next {
    Next {
        shell: s,
        run: RunView { phase: Phase::Finished, ..r },
        effects,
        request: RequestView::Finish(result),
    }
}

/// Without material for an autopsy.
pub open spec fn plain_result(status: int) -> ResultView {
    ResultView { status, autopsy: None }
}

/// Pipes are opened until there is one between any two commands; then children
/// are made. The end of a child in the foreground must not be noticed before it
/// is waited for.
pub open spec fn open_pipes(p: PipelineView, s: ShellView, r: RunView) -> Next {
    if r.pipes.len() + 1 < p.commands.len() {
        Next {
            shell: s,
            run: RunView { phase: Phase::Pipes, ..r },
            effects: seq![],
            request: RequestView::OpenPipe,
        }
    } else {
        Next {
            shell: s,
            run: RunView { phase: Phase::Forks, ..r },
            effects: if p.background {
                seq![]
            } else {
                seq![EffectView::BlockChildSignal]
            },
            request: RequestView::Fork {
                index: 0,
                pgid: None,
                capture: match r.capture {
                    Some((_, w)) => Some(w),
                    None => None,
                },
            },
        }
    }
}

/// The start of a run.
pub open spec fn started(p: PipelineView, s: ShellView, r: RunView) -> Next {
    if p.commands.len() == 0 {
        finished(s, r, seq![], plain_result(0))
    } else if runs_in_shell(p) {
        let c = p.commands[0];
        Next {
            shell: s,
            run: RunView { phase: Phase::Redirect, ..r },
            effects: seq![],
            request: RequestView::Redirect {
                save_in: c.infile is Some,
                save_out: c.outfile is Some,
                save_err: c.errfile is Some || c.err_to_out,
            },
        }
    } else if captures_stderr(p) {
        Next {
            shell: s,
            run: RunView { phase: Phase::Capture, ..r },
            effects: seq![],
            request: RequestView::OpenPipe,
        }
    } else {
        open_pipes(p, s, r)
    }
}

/// A builtin runs once its redirections have been applied.
pub open spec fn redirected(s: ShellView, r: RunView) -> Next {
    Next {
        shell: s,
        run: RunView { phase: Phase::Builtin, ..r },
        effects: seq![],
        request: RequestView::Builtin,
    }
}

/// A builtin with a redirection that failed is not run, and its exit status is
/// 1.
pub open spec fn not_redirected(s: ShellView, r: RunView, error: Seq<char>) -> Next {
    finished(
        ShellView { last_status: 1, ..s },
        r,
        seq![EffectView::Eprint(complaint_line(error)), EffectView::RestoreStreams],
        plain_result(1),
    )
}

/// A builtin gives the exit status.
pub open spec fn builtin_over(s: ShellView, r: RunView, rc: int) -> Next {
    finished(
        ShellView { last_status: rc, ..s },
        r,
        seq![EffectView::RestoreStreams],
        plain_result(rc),
    )
}

/// A pipe between commands that could not be opened ends the run.
pub open spec fn pipe_failed(s: ShellView, r: RunView, error: Seq<char>) -> Next {
    finished(
        s,
        r,
        seq![
            EffectView::Eprint(complaint_line("pipe: "@ + error)),
            EffectView::Close(pipe_fds(r.pipes) + capture_fds(r.capture)),
        ],
        plain_result(1),
    )
}

/// A child that could not be made ends the run.
pub open spec fn fork_failed(
    p: PipelineView,
    s: ShellView,
    r: RunView,
    error: Seq<char>,
) -> Next {
    finished(
        s,
        r,
        seq![
            EffectView::Eprint(complaint_line("fork: "@ + error)),
            EffectView::Close(pipe_fds(r.pipes) + capture_fds(r.capture)),
        ] + if p.background {
            seq![]
        } else {
            seq![EffectView::RestoreSignals]
        },
        plain_result(1),
    )
}

/// The line that announces a background job.
pub open spec fn job_line(id: int, pgid: int) -> Seq<char> {
    "["@ + decimal(id) + "] "@ + decimal(pgid) + "\n"@
}

/// The ends of pipes that the parent gives up once all children are made. The
/// end of the capture that is read from stays.
pub open spec fn given_up(r: RunView) -> Seq<i32> {
    (match r.capture {
        Some((_, w)) => seq![w],
        None => seq![],
    }) + pipe_fds(r.pipes)
}

/// The end of the capture that is read from.
pub open spec fn kept_fds(r: RunView) -> Seq<i32> {
    match r.capture {
        Some((fd, _)) => seq![fd],
        None => seq![],
    }
}

/// All children are there, in the process group of the first one. In the
/// background they become a job, and that is all; in the foreground they get
/// the terminal, and are waited for. What they write to a stderr that is
/// captured is read first: a child that has filled the pipe could not end.
pub open spec fn all_forked(p: PipelineView, s: ShellView, r: RunView, last: EffectView) -> Next {
    let pgid = r.pids[0];
    let common = seq![last, EffectView::Close(given_up(r))];
    if p.background {
        let job = JobView {
            id: s.jobs.next_id,
            pgid: pgid as int,
            pids: r.pids,
            cmd: summary(p),
            state: JobState::Running,
        };
        finished(
            ShellView {
                last_status: 0,
                jobs: TableView { jobs: s.jobs.jobs.push(job), next_id: s.jobs.next_id + 1 },
                ..s
            },
            r,
            common + seq![
                EffectView::Print(job_line(job.id, job.pgid)),
                EffectView::Close(kept_fds(r)),
            ],
            plain_result(0),
        )
    } else {
        let effects = common + if s.interactive {
            seq![EffectView::Foreground { group: pgid as int }]
        } else {
            seq![]
        };
        match r.capture {
            Some((fd, _)) => Next {
                shell: s,
                run: RunView { phase: Phase::Drain, ..r },
                effects,
                request: RequestView::Drain { fd },
            },
            None => Next {
                shell: s,
                run: RunView { phase: Phase::Waits, ..r },
                effects,
                request: RequestView::Wait { pid: r.pids[0] },
            },
        }
    }
}

/// What was written to the stderr that is captured is there: the child can be
/// waited for.
pub open spec fn drained(s: ShellView, r: RunView, text: Seq<char>) -> Next {
    Next {
        shell: s,
        run: RunView { phase: Phase::Waits, captured: Some(text), ..r },
        effects: seq![],
        request: RequestView::Wait { pid: r.pids[0] },
    }
}

/// A child has been made: it joins the process group of the first one.
pub open spec fn forked(p: PipelineView, s: ShellView, r: RunView, pid: i32) -> Next {
    let r2 = RunView { pids: r.pids.push(pid), ..r };
    let pgid = r2.pids[0];
    let join_group = EffectView::SetGroup { pid, pgid };
    if r2.pids.len() < p.commands.len() {
        Next {
            shell: s,
            run: r2,
            effects: seq![join_group],
            request: RequestView::Fork {
                index: r2.pids.len() as int,
                pgid: Some(pgid),
                capture: None,
            },
        }
    } else {
        all_forked(p, s, r2, join_group)
    }
}

/// What a failed command wrote to the stderr that is captured: it is shown.
pub open spec fn shown(r: RunView) -> Seq<EffectView> {
    match r.captured {
        Some(text) if r.status != 0 && text.len() > 0 => seq![EffectView::Eprint(text)],
        _ => seq![],
    }
}

/// What a failed command wrote to the stderr that is captured, if it is not
/// blank, is material for an autopsy.
pub open spec fn material(p: PipelineView, r: RunView) -> Option<(Seq<char>, Seq<char>)> {
    match r.captured {
        Some(text) if r.status != 0 && trim(text).len() > 0 => Some((summary(p), text)),
        _ => None,
    }
}

/// All children have ended: the terminal and the signals are as before.
pub open spec fn all_waited(p: PipelineView, s: ShellView, r: RunView) -> Next {
    finished(
        ShellView { last_status: r.status, ..s },
        r,
        (if s.interactive {
            seq![EffectView::Foreground { group: s.pgid }]
        } else {
            seq![]
        }) + seq![EffectView::RestoreSignals] + shown(r),
        ResultView { status: r.status, autopsy: material(p, r) },
    )
}

/// Whether a child has to be waited for again.
pub open spec fn wait_again(outcome: WaitOutcome) -> bool {
    outcome is StillAlive || outcome is Changed || outcome is Interrupted
}

/// The exit status that a child has ended with: its own, or 128 and the number
/// of the signal that ended it.
pub open spec fn exit_status(outcome: WaitOutcome) -> Option<int> {
    match outcome {
        WaitOutcome::Exited { code, .. } => Some(code as int),
        WaitOutcome::Signaled { signal, .. } => Some(128 + signal),
        _ => None,
    }
}

/// A child has been waited for. The exit status of the last command is that of
/// the pipeline.
pub open spec fn waited(p: PipelineView, s: ShellView, r: RunView, outcome: WaitOutcome) -> Next {
    if wait_again(outcome) {
        Next {
            shell: s,
            run: r,
            effects: seq![],
            request: RequestView::Wait { pid: r.pids[r.waited] },
        }
    } else {
        let last = r.waited + 1 == r.pids.len();
        let r2 = RunView {
            waited: r.waited + 1,
            status: match exit_status(outcome) {
                Some(code) if last => code,
                _ => r.status,
            },
            ..r
        };
        if last {
            all_waited(p, s, r2)
        } else {
            Next {
                shell: s,
                run: r2,
                effects: seq![],
                request: RequestView::Wait { pid: r.pids[r.waited + 1] },
            }
        }
    }
}

/// What a step leads to.
pub open spec fn next(p: PipelineView, s: ShellView, r: RunView, e: EventView) -> Next {
    match e {
        EventView::Start => started(p, s, r),
        EventView::Redirected => redirected(s, r),
        EventView::NotRedirected(error) => not_redirected(s, r, error),
        EventView::BuiltinRun(rc) => builtin_over(s, r, rc as int),
        EventView::PipeOpened { read, write } => if r.phase == Phase::Capture {
            open_pipes(p, s, RunView { capture: Some((read, write)), ..r })
        } else {
            open_pipes(p, s, RunView { pipes: r.pipes.push((read, write)), ..r })
        },
        EventView::PipeFailed(error) => if r.phase == Phase::Capture {
            open_pipes(p, s, r)
        } else {
            pipe_failed(s, r, error)
        },
        EventView::Forked { pid } => forked(p, s, r, pid),
        EventView::ForkFailed(error) => fork_failed(p, s, r, error),
        EventView::Waited(outcome) => waited(p, s, r, outcome),
        EventView::Drained(text) => drained(s, r, text),
    }
}

/// Whether `e` can be the outcome of what a run in `phase` has asked for.
pub open spec fn answers(phase: Phase, e: EventView) -> bool {
    match e {
        EventView::Start => phase == Phase::Start,
        EventView::Redirected => phase == Phase::Redirect,
        EventView::NotRedirected(_) => phase == Phase::Redirect,
        EventView::BuiltinRun(_) => phase == Phase::Builtin,
        EventView::PipeOpened { .. } => phase == Phase::Capture || phase == Phase::Pipes,
        EventView::PipeFailed(_) => phase == Phase::Capture || phase == Phase::Pipes,
        EventView::Forked { .. } => phase == Phase::Forks,
        EventView::ForkFailed(_) => phase == Phase::Forks,
        EventView::Waited(outcome) => phase == Phase::Waits && (outcome matches WaitOutcome::Signaled {
            signal,
            ..
        } ==> signal <= i32::MAX - 128),
        EventView::Drained(_) => phase == Phase::Drain,
    }
}

/// A pipeline whose commands all have a first word.
pub open spec fn runnable(p: PipelineView) -> bool {
    forall|i: int| 0 <= i < p.commands.len() ==> (#[trigger] p.commands[i]).argv.len() > 0
}

/// A run of `p` that is as far as its phase says.
pub open spec fn run_valid(p: PipelineView, r: RunView) -> bool {
    let n = p.commands.len();
    let unbegun = r.pids.len() == 0 && r.waited == 0 && r.status == 0;
    let piped = r.pipes.len() + 1 == n;
    &&& runnable(p)
    &&& r.capture is Some ==> captures_stderr(p) && !runs_in_shell(p)
    &&& r.captured is Some ==> r.phase == Phase::Waits || r.phase == Phase::Finished
    &&& match r.phase {
        Phase::Start => r.capture is None && r.pipes.len() == 0 && unbegun,
        Phase::Redirect => runs_in_shell(p) && r.capture is None && r.pipes.len() == 0 && unbegun,
        Phase::Builtin => runs_in_shell(p) && r.capture is None && r.pipes.len() == 0 && unbegun,
        Phase::Capture => captures_stderr(p) && !runs_in_shell(p) && r.capture is None
            && r.pipes.len() == 0 && unbegun,
        Phase::Pipes => r.pipes.len() + 1 < n && unbegun,
        Phase::Forks => piped && r.pids.len() < n && r.waited == 0 && r.status == 0,
        Phase::Drain => !p.background && piped && r.capture is Some && r.pids.len() == n && r.waited
            == 0 && r.status == 0,
        Phase::Waits => !p.background && piped && r.pids.len() == n && 0 <= r.waited < n && r.status
            == 0 && (r.captured is Some <==> r.capture is Some),
        Phase::Finished => true,
    }
}

impl PipelineRun {
    /// A run that has not been started.
    pub fn new() -> (r: PipelineRun)
        ensures
            r@ == (RunView {
                phase: Phase::Start,
                capture: None,
                pipes: seq![],
                pids: seq![],
                captured: None,
                waited: 0,
                status: 0,
            }),
    {
        let r = PipelineRun {
            phase: Phase::Start,
            capture: None,
            pipes: Vec::new(),
            pids: Vec::new(),
            captured: None,
            waited: 0,
            status: 0,
        };
        assert(r@.pipes =~= seq![]);
        assert(r@.pids =~= seq![]);
        r
    }

    /// The pipes between the commands, which every child has to wire.
    pub fn pipes(&self) -> (r: &[(i32, i32)])
        ensures
            r@ == self@.pipes,
    {
        self.pipes.as_slice()
    }

    /// Whether `event` can be the outcome of what was asked for last.
    pub fn expects(&self, event: &Event) -> (r: bool)
        ensures
            r == answers(self@.phase, event@),
    {
        match event {
            Event::Start => self.phase == Phase::Start,
            Event::Redirected => self.phase == Phase::Redirect,
            Event::NotRedirected(_) => self.phase == Phase::Redirect,
            Event::BuiltinRun(_) => self.phase == Phase::Builtin,
            Event::PipeOpened { .. } => self.phase == Phase::Capture || self.phase == Phase::Pipes,
            Event::PipeFailed(_) => self.phase == Phase::Capture || self.phase == Phase::Pipes,
            Event::Forked { .. } => self.phase == Phase::Forks,
            Event::ForkFailed(_) => self.phase == Phase::Forks,
            Event::Waited(outcome) => self.phase == Phase::Waits && match outcome {
                WaitOutcome::Signaled { signal, .. } => *signal <= i32::MAX - 128,
                _ => true,
            },
            Event::Drained(_) => self.phase == Phase::Drain,
        }
    }

    /// Ends the run.
    fn finish(&mut self, status: i32, autopsy: Option<(String, String)>) -> (r: Request)
        ensures
            final(self)@ == (RunView { phase: Phase::Finished, ..old(self)@ }),
            r@ == RequestView::Finish(
                ResultView { status: status as int, autopsy: autopsy_view(autopsy) },
            ),
    {
        self.phase = Phase::Finished;
        Request::Finish(PipelineResult { status, autopsy })
    }

    /// Both ends of every pipe, appended to `fds`.
    fn push_pipe_fds(&self, fds: &mut Vec<i32>)
        ensures
            final(fds)@ == old(fds)@ + pipe_fds(self@.pipes),
    {
        let mut i: usize = 0;
        assert(fds@ =~= old(fds)@ + pipe_fds(self.pipes@.take(0)));
        while i < self.pipes.len()
            invariant
                i <= self.pipes@.len(),
                fds@ == old(fds)@ + pipe_fds(self.pipes@.take(i as int)),
            decreases self.pipes@.len() - i,
        {
            proof {
                let longer = self.pipes@.take(i + 1);
                assert(longer.drop_last() =~= self.pipes@.take(i as int));
                assert(longer.last() == self.pipes@[i as int]);
            }
            fds.push(self.pipes[i].0);
            fds.push(self.pipes[i].1);
            assert(fds@ =~= old(fds)@ + pipe_fds(self.pipes@.take(i + 1)));
            i += 1;
        }
        assert(self.pipes@.take(i as int) =~= self.pipes@);
    }

    /// All descriptors that the run holds, for when it fails.
    fn all_fds(&self) -> (r: Vec<i32>)
        ensures
            r@ == pipe_fds(self@.pipes) + capture_fds(self@.capture),
    {
        let mut fds: Vec<i32> = Vec::new();
        self.push_pipe_fds(&mut fds);
        if let Some((r, w)) = self.capture {
            fds.push(r);
            fds.push(w);
        }
        assert(fds@ =~= pipe_fds(self@.pipes) + capture_fds(self@.capture));
        fds
    }

    /// Opens the next pipe, or makes the first child.
    fn open_pipes(&mut self, p: &Pipeline) -> (step: Step)
        ensures
            forall|s: ShellView|
                step_is(#[trigger] open_pipes(p@, s, old(self)@), s, final(self)@, step),
    {
        if p.commands.len() > 0 && self.pipes.len() < p.commands.len() - 1 {
            self.phase = Phase::Pipes;
            let effects: Vec<Effect> = Vec::new();
            assert(effect_views(effects@) =~= seq![]);
            Step { effects, request: Request::OpenPipe }
        } else {
            self.phase = Phase::Forks;
            let mut effects: Vec<Effect> = Vec::new();
            if !p.background {
                effects.push(Effect::BlockChildSignal);
            }
            assert(effect_views(effects@) =~= if p@.background {
                seq![]
            } else {
                seq![EffectView::BlockChildSignal]
            });
            let capture: Option<i32> = match self.capture {
                Some((_, w)) => Some(w),
                None => None,
            };
            Step { effects, request: Request::Fork { index: 0, pgid: None, capture } }
        }
    }

    fn start(&mut self, p: &Pipeline) -> (step: Step)
        requires
            runnable(p@),
        ensures
            forall|s: ShellView|
                step_is(#[trigger] started(p@, s, old(self)@), s, final(self)@, step),
    {
        let effects: Vec<Effect> = Vec::new();
        assert(effect_views(effects@) =~= seq![]);
        let n: usize = p.commands.len();
        if n == 0 {
            let request = self.finish(0, None);
            return Step { effects, request };
        }
        let c = &p.commands[0];
        assert(p@.commands[0] == c@);
        assert(c@.argv.len() > 0);
        if n == 1 && !p.background && is_builtin(c.argv[0].as_str()) {
            self.phase = Phase::Redirect;
            return Step {
                effects,
                request: Request::Redirect {
                    save_in: c.infile.is_some(),
                    save_out: c.outfile.is_some(),
                    save_err: c.errfile.is_some() || c.err_to_out,
                },
            };
        }
        if n == 1 && !p.background && c.errfile.is_none() && !c.err_to_out {
            self.phase = Phase::Capture;
            return Step { effects, request: Request::OpenPipe };
        }
        self.open_pipes(p)
    }

    fn pipe_failed(&mut self, error: &str) -> (step: Step)
        ensures
            forall|s: ShellView|
                step_is(#[trigger] pipe_failed(s, old(self)@, error@), s, final(self)@, step),
    {
        let mut what = "pipe: ".to_string();
        what.append(error);
        let mut effects: Vec<Effect> = Vec::new();
        effects.push(Effect::Eprint(complain(what.as_str())));
        effects.push(Effect::Close(self.all_fds()));
        assert(effect_views(effects@) =~= seq![
            EffectView::Eprint(complaint_line("pipe: "@ + error@)),
            EffectView::Close(pipe_fds(self@.pipes) + capture_fds(self@.capture)),
        ]);
        let request = self.finish(1, None);
        Step { effects, request }
    }

    fn fork_failed(&mut self, p: &Pipeline, error: &str) -> (step: Step)
        ensures
            forall|s: ShellView|
                step_is(#[trigger] fork_failed(p@, s, old(self)@, error@), s, final(self)@, step),
    {
        let mut what = "fork: ".to_string();
        what.append(error);
        let mut effects: Vec<Effect> = Vec::new();
        effects.push(Effect::Eprint(complain(what.as_str())));
        effects.push(Effect::Close(self.all_fds()));
        if !p.background {
            effects.push(Effect::RestoreSignals);
        }
        assert(effect_views(effects@) =~= seq![
            EffectView::Eprint(complaint_line("fork: "@ + error@)),
            EffectView::Close(pipe_fds(self@.pipes) + capture_fds(self@.capture)),
        ] + if p@.background {
            seq![]
        } else {
            seq![EffectView::RestoreSignals]
        });
        let request = self.finish(1, None);
        Step { effects, request }
    }

    fn forked(&mut self, p: &Pipeline, shell: &mut Shell, pid: i32) -> (step: Step)
        requires
            run_valid(p@, old(self)@),
            old(self)@.phase == Phase::Forks,
            p@.background ==> old(shell)@.jobs.next_id < i32::MAX,
        ensures
            step_is(forked(p@, old(shell)@, old(self)@, pid), final(shell)@, final(self)@, step),
    {
        let ghost s = shell@;
        self.pids.push(pid);
        let ghost r = self@;
        let pgid: i32 = self.pids[0];
        let mut effects: Vec<Effect> = Vec::new();
        effects.push(Effect::SetGroup { pid, pgid });
        if self.pids.len() < p.commands.len() {
            assert(effect_views(effects@) =~= seq![EffectView::SetGroup { pid, pgid }]);
            return Step {
                effects,
                request: Request::Fork { index: self.pids.len(), pgid: Some(pgid), capture: None },
            };
        }
        let mut fds: Vec<i32> = Vec::new();
        if let Some((_, w)) = self.capture {
            fds.push(w);
        }
        assert(fds@ =~= match r.capture {
            Some((_, w)) => seq![w],
            None => seq![],
        });
        self.push_pipe_fds(&mut fds);
        effects.push(Effect::Close(fds));
        let ghost common = seq![
            EffectView::SetGroup { pid, pgid },
            EffectView::Close(given_up(r)),
        ];
        assert(effect_views(effects@) =~= common);
        if p.background {
            let cmd = make_summary(p);
            let mut pids: Vec<i32> = Vec::new();
            let mut i: usize = 0;
            while i < self.pids.len()
                invariant
                    i <= self.pids@.len(),
                    pids@ =~= self.pids@.take(i as int),
                decreases self.pids@.len() - i,
            {
                pids.push(self.pids[i]);
                i += 1;
            }
            assert(pids@ =~= r.pids);
            let id: i32 = add_job(&mut shell.jobs, pgid, pids, cmd);
            let mut line = "[".to_string();
            push_decimal(&mut line, id as i64);
            line.append("] ");
            push_decimal(&mut line, pgid as i64);
            line.append("\n");
            effects.push(Effect::Print(line));
            let mut kept: Vec<i32> = Vec::new();
            if let Some((fd, _)) = self.capture {
                kept.push(fd);
            }
            assert(kept@ =~= kept_fds(r));
            effects.push(Effect::Close(kept));
            assert(effect_views(effects@) =~= common + seq![
                EffectView::Print(job_line(s.jobs.next_id, pgid as int)),
                EffectView::Close(kept_fds(r)),
            ]);
            set_last_exit_status(shell, 0);
            let request = self.finish(0, None);
            Step { effects, request }
        } else {
            if shell.interactive {
                effects.push(Effect::Foreground { pgid });
            }
            assert(effect_views(effects@) =~= common + if s.interactive {
                seq![EffectView::Foreground { group: pgid as int }]
            } else {
                seq![]
            });
            match self.capture {
                Some((fd, _)) => {
                    self.phase = Phase::Drain;
                    Step { effects, request: Request::Drain { fd } }
                },
                None => {
                    self.phase = Phase::Waits;
                    Step { effects, request: Request::Wait { pid: pgid } }
                },
            }
        }
    }

    fn waited(&mut self, p: &Pipeline, shell: &mut Shell, outcome: WaitOutcome) -> (step: Step)
        requires
            run_valid(p@, old(self)@),
            answers(old(self)@.phase, EventView::Waited(outcome)),
        ensures
            step_is(
                waited(p@, old(shell)@, old(self)@, outcome),
                final(shell)@,
                final(self)@,
                step,
            ),
    {
        let ghost s = shell@;
        let mut effects: Vec<Effect> = Vec::new();
        assert(effect_views(effects@) =~= seq![]);
        let last: bool = self.waited == self.pids.len() - 1;
        match outcome {
            WaitOutcome::StillAlive | WaitOutcome::Changed | WaitOutcome::Interrupted => {
                let pid: i32 = self.pids[self.waited];
                return Step { effects, request: Request::Wait { pid } };
            },
            WaitOutcome::Exited { code, .. } => {
                if last {
                    self.status = code;
                }
            },
            WaitOutcome::Signaled { signal, .. } => {
                if last {
                    self.status = 128 + signal;
                }
            },
            WaitOutcome::Failed => {},
        }
        self.waited = self.waited + 1;
        if !last {
            let pid: i32 = self.pids[self.waited];
            return Step { effects, request: Request::Wait { pid } };
        }
        let ghost r = self@;
        if shell.interactive {
            effects.push(Effect::Foreground { pgid: shell.pgid });
        }
        effects.push(Effect::RestoreSignals);
        assert(effect_views(effects@) =~= (if s.interactive {
            seq![EffectView::Foreground { group: s.pgid }]
        } else {
            seq![]
        }) + seq![EffectView::RestoreSignals]);
        let ghost before = effect_views(effects@);
        set_last_exit_status(shell, self.status);
        let status: i32 = self.status;
        let mut autopsy: Option<(String, String)> = None;
        if let Some(text) = &self.captured {
            if status != 0 {
                let chars: Vec<char> = chars_of(text.as_str());
                if chars.len() > 0 {
                    effects.push(Effect::Eprint(text.clone()));
                }
                if trimmed(chars.as_slice(), Edge::White).len() > 0 {
                    autopsy = Some((make_summary(p), text.clone()));
                }
            }
        }
        assert(effect_views(effects@) =~= before + shown(r));
        assert(autopsy_view(autopsy) == material(p@, r));
        let request = self.finish(status, autopsy);
        Step { effects, request }
    }

    fn drained(&mut self, p: &Pipeline, text: String) -> (step: Step)
        requires
            run_valid(p@, old(self)@),
            old(self)@.phase == Phase::Drain,
        ensures
            forall|s: ShellView|
                step_is(#[trigger] drained(s, old(self)@, text@), s, final(self)@, step),
    {
        let effects: Vec<Effect> = Vec::new();
        assert(effect_views(effects@) =~= seq![]);
        self.captured = Some(text);
        self.phase = Phase::Waits;
        let pid: i32 = self.pids[0];
        Step { effects, request: Request::Wait { pid } }
    }
}

/// Whether the shell, the run and the step are what `n` says.
pub open spec fn step_is(n: Next, s: ShellView, r: RunView, step: Step) -> bool {
    &&& s == n.shell
    &&& r == n.run
    &&& effect_views(step.effects@) == n.effects
    &&& step.request@ == n.request
}

/// Takes the run of a pipeline one step further: `event` is what has come of
/// the last request.
pub fn execute_pipeline(
    p: &Pipeline,
    shell: &mut Shell,
    run: &mut PipelineRun,
    event: Event,
) -> (step: Step)
    requires
        run_valid(p@, old(run)@),
        answers(old(run)@.phase, event@),
        event@ is Forked && p@.background ==> old(shell)@.jobs.next_id < i32::MAX,
    ensures
        step_is(next(p@, old(shell)@, old(run)@, event@), final(shell)@, final(run)@, step),
        run_valid(p@, final(run)@),
{
    proof {
        runs_stay_valid(p@, shell@, run@, event@);
    }
    match event {
        Event::Start => {
            let ghost n = started(p@, shell@, run@);
            run.start(p)
        },
        Event::Redirected => {
            let effects: Vec<Effect> = Vec::new();
            assert(effect_views(effects@) =~= seq![]);
            run.phase = Phase::Builtin;
            Step { effects, request: Request::Builtin }
        },
        Event::NotRedirected(error) => {
            set_last_exit_status(shell, 1);
            let mut effects: Vec<Effect> = Vec::new();
            effects.push(Effect::Eprint(complain(error.as_str())));
            effects.push(Effect::RestoreStreams);
            assert(effect_views(effects@) =~= seq![
                EffectView::Eprint(complaint_line(error@)),
                EffectView::RestoreStreams,
            ]);
            let request = run.finish(1, None);
            Step { effects, request }
        },
        Event::BuiltinRun(rc) => {
            set_last_exit_status(shell, rc);
            let mut effects: Vec<Effect> = Vec::new();
            effects.push(Effect::RestoreStreams);
            assert(effect_views(effects@) =~= seq![EffectView::RestoreStreams]);
            let request = run.finish(rc, None);
            Step { effects, request }
        },
        Event::PipeOpened { read, write } => {
            if run.phase == Phase::Capture {
                run.capture = Some((read, write));
            } else {
                run.pipes.push((read, write));
            }
            let ghost n = open_pipes(p@, shell@, run@);
            run.open_pipes(p)
        },
        Event::PipeFailed(error) => {
            if run.phase == Phase::Capture {
                let ghost n = open_pipes(p@, shell@, run@);
                run.open_pipes(p)
            } else {
                let ghost n = pipe_failed(shell@, run@, error@);
                run.pipe_failed(error.as_str())
            }
        },
        Event::Forked { pid } => run.forked(p, shell, pid),
        Event::ForkFailed(error) => {
            let ghost n = fork_failed(p@, shell@, run@, error@);
            run.fork_failed(p, error.as_str())
        },
        Event::Waited(outcome) => run.waited(p, shell, outcome),
        Event::Drained(text) => {
            let ghost n = drained(shell@, run@, text@);
            run.drained(p, text)
        },
    }
}

// ---------------------------------------------------------------------------
// Laws of pipelines
// ---------------------------------------------------------------------------

/// A step takes a run from one valid state to another.
pub proof fn runs_stay_valid(p: PipelineView, s: ShellView, r: RunView, e: EventView)
    requires
        run_valid(p, r),
        answers(r.phase, e),
    ensures
        run_valid(p, next(p, s, r, e).run),
{
}

/// What a run leaves behind in the process of the shell: the descriptors that
/// it has opened, whether its streams are saved and redirected, whether the ends
/// of children are held back, and the process group that has the terminal.
pub struct Traces {
    pub open: Multiset<i32>,
    pub redirected: bool,
    pub blocked: bool,
    pub terminal: int,
}

/// What an effect does to the traces.
pub open spec fn traces_after_effect(e: EffectView, t: Traces) -> Traces {
    match e {
        EffectView::Close(fds) => Traces { open: t.open.sub(fds.to_multiset()), ..t },
        EffectView::BlockChildSignal => Traces { blocked: true, ..t },
        EffectView::RestoreSignals => Traces { blocked: false, ..t },
        EffectView::Foreground { group } => Traces { terminal: group, ..t },
        EffectView::RestoreStreams => Traces { redirected: false, ..t },
        _ => t,
    }
}

/// What effects do to the traces, in order.
pub open spec fn traces_after_effects(effects: Seq<EffectView>, t: Traces) -> Traces
    decreases effects.len(),
{
    if effects.len() == 0 {
        t
    } else {
        traces_after_effect(effects.last(), traces_after_effects(effects.drop_last(), t))
    }
}

/// What an event brings: a pipe has two ends.
pub open spec fn traces_after_event(e: EventView, t: Traces) -> Traces {
    match e {
        EventView::PipeOpened { read, write } => Traces {
            open: t.open.insert(read).insert(write),
            ..t
        },
        _ => t,
    }
}

/// What a step does to the traces: streams may be redirected, and a descriptor
/// that is drained is closed.
pub open spec fn traces_after_step(n: Next, t: Traces) -> Traces {
    let u = traces_after_effects(n.effects, t);
    match n.request {
        RequestView::Redirect { .. } => Traces { redirected: true, ..u },
        RequestView::Drain { fd } => Traces { open: u.open.remove(fd), ..u },
        _ => u,
    }
}

/// Whether effects close only what is open.
pub open spec fn closes_what_is_open(effects: Seq<EffectView>, t: Traces) -> bool
    decreases effects.len(),
{
    effects.len() > 0 ==> {
        &&& closes_what_is_open(effects.drop_last(), t)
        &&& effects.last() matches EffectView::Close(fds) ==> fds.to_multiset().subset_of(
            traces_after_effects(effects.drop_last(), t).open,
        )
    }
}

/// Whether a step closes only what is open.
pub open spec fn step_closes_what_is_open(n: Next, t: Traces) -> bool {
    &&& closes_what_is_open(n.effects, t)
    &&& n.request matches RequestView::Drain { fd } ==> traces_after_effects(
        n.effects,
        t,
    ).open.count(fd) > 0
}

/// The descriptors that a run holds.
pub open spec fn held(r: RunView) -> Multiset<i32> {
    match r.phase {
        Phase::Pipes => (pipe_fds(r.pipes) + capture_fds(r.capture)).to_multiset(),
        Phase::Forks => (pipe_fds(r.pipes) + capture_fds(r.capture)).to_multiset(),
        _ => Multiset::empty(),
    }
}

/// The traces that belong to a state of a run.
pub open spec fn traces_of(p: PipelineView, s: ShellView, r: RunView) -> Traces {
    Traces {
        open: held(r),
        redirected: r.phase == Phase::Redirect || r.phase == Phase::Builtin,
        blocked: !p.background && (r.phase == Phase::Forks || r.phase == Phase::Drain || r.phase
            == Phase::Waits),
        terminal: if s.interactive && (r.phase == Phase::Drain || r.phase == Phase::Waits) {
            r.pids[0] as int
        } else {
            s.pgid
        },
    }
}

/// Every step takes the traces of its state to those of the next state, and
/// closes only what is open.
pub proof fn steps_account_for_their_traces(
    p: PipelineView,
    s: ShellView,
    r: RunView,
    e: EventView,
)
    requires
        run_valid(p, r),
        answers(r.phase, e),
    ensures
        ({
            let n = next(p, s, r, e);
            let t = traces_after_event(e, traces_of(p, s, r));
            &&& traces_after_step(n, t) == traces_of(p, n.shell, n.run)
            &&& step_closes_what_is_open(n, t)
        }),
{
    broadcast use vstd::seq_lib::group_to_multiset_ensures;

    reveal_with_fuel(traces_after_effects, 5);
    reveal_with_fuel(closes_what_is_open, 5);
    let n = next(p, s, r, e);
    let t0 = traces_of(p, s, r);
    let t = traces_after_event(e, t0);
    let u = traces_of(p, n.shell, n.run);
    lemma_effects_unfolded(n.effects, t);
    match e {
        EventView::PipeOpened { read, write } => {
            if r.phase == Phase::Capture {
                assert(pipe_fds(r.pipes) + seq![read, write] =~= seq![read].push(write));
                assert(seq![read] =~= Seq::<i32>::empty().push(read));
                assert(held(n.run) =~= t.open);
            } else {
                let all = r.pipes.push((read, write));
                assert(all.drop_last() =~= r.pipes);
                vstd::seq_lib::lemma_multiset_commutative(pipe_fds(r.pipes), capture_fds(r.capture));
                vstd::seq_lib::lemma_multiset_commutative(pipe_fds(all), capture_fds(r.capture));
                assert(pipe_fds(all) =~= pipe_fds(r.pipes).push(read).push(write));
                assert(held(n.run) =~= t.open);
            }
        },
        EventView::PipeFailed(_) => {
            if r.phase == Phase::Capture {
                assert((pipe_fds(r.pipes) + capture_fds(r.capture)) =~= Seq::<i32>::empty());
                assert(held(n.run) =~= t.open);
            } else {
                assert(t.open.sub((pipe_fds(r.pipes) + capture_fds(r.capture)).to_multiset())
                    =~= Multiset::empty());
            }
        },
        EventView::ForkFailed(_) => {
            assert(t.open.sub((pipe_fds(r.pipes) + capture_fds(r.capture)).to_multiset())
                =~= Multiset::empty());
        },
        EventView::Forked { pid } => {
            let r2 = RunView { pids: r.pids.push(pid), ..r };
            if r2.pids.len() >= p.commands.len() {
                let all = (pipe_fds(r.pipes) + capture_fds(r.capture)).to_multiset();
                vstd::seq_lib::lemma_multiset_commutative(pipe_fds(r.pipes), capture_fds(r.capture));
                match r.capture {
                    Some((fd, w)) => {
                        vstd::seq_lib::lemma_multiset_commutative(seq![w], pipe_fds(r.pipes));
                        assert(capture_fds(r.capture) =~= seq![fd].push(w));
                        assert(seq![fd] =~= Seq::<i32>::empty().push(fd));
                        assert(seq![w] =~= Seq::<i32>::empty().push(w));
                    },
                    None => {
                        assert(given_up(r2) =~= pipe_fds(r.pipes));
                        assert(capture_fds(r.capture) =~= Seq::<i32>::empty());
                    },
                }
                assert(all.sub(given_up(r2).to_multiset()) =~= kept_fds(r2).to_multiset());
                assert(kept_fds(r2).to_multiset().sub(kept_fds(r2).to_multiset())
                    =~= Multiset::empty());
                if n.request is Drain {
                    let fd = n.request->fd;
                    assert(kept_fds(r2) =~= Seq::<i32>::empty().push(fd));
                    assert(kept_fds(r2).to_multiset().remove(fd) =~= Multiset::empty());
                } else {
                    assert(r.capture is None ==> kept_fds(r2) =~= Seq::<i32>::empty());
                }
            }
        },
        _ => {
            assert((pipe_fds(r.pipes) + capture_fds(r.capture)) =~= Seq::<i32>::empty()
                || e is Drained || e is Waited);
        },
    }
    assert(traces_after_step(n, t).open =~= u.open);
}

proof fn lemma_effects_unfolded(effects: Seq<EffectView>, t: Traces)
    ensures
        effects.len() == 0 ==> traces_after_effects(effects, t) == t,
        effects.len() == 1 ==> traces_after_effects(effects, t) == traces_after_effect(
            effects[0],
            t,
        ),
        effects.len() == 2 ==> traces_after_effects(effects, t) == traces_after_effect(
            effects[1],
            traces_after_effect(effects[0], t),
        ),
        effects.len() == 3 ==> traces_after_effects(effects, t) == traces_after_effect(
            effects[2],
            traces_after_effect(effects[1], traces_after_effect(effects[0], t)),
        ),
        effects.len() == 4 ==> traces_after_effects(effects, t) == traces_after_effect(
            effects[3],
            traces_after_effect(
                effects[2],
                traces_after_effect(effects[1], traces_after_effect(effects[0], t)),
            ),
        ),
{
    reveal_with_fuel(traces_after_effects, 5);
}

/// A run of a pipeline from a state on: the events that come, one by one.
pub open spec fn events_answer(
    p: PipelineView,
    s: ShellView,
    r: RunView,
    events: Seq<EventView>,
) -> bool
    decreases events.len(),
{
    events.len() > 0 ==> {
        let n = next(p, s, r, events[0]);
        answers(r.phase, events[0]) && events_answer(p, n.shell, n.run, events.skip(1))
    }
}

/// The state of a run after events.
pub open spec fn state_after(
    p: PipelineView,
    s: ShellView,
    r: RunView,
    events: Seq<EventView>,
) -> (ShellView, RunView)
    decreases events.len(),
{
    if events.len() == 0 {
        (s, r)
    } else {
        let n = next(p, s, r, events[0]);
        state_after(p, n.shell, n.run, events.skip(1))
    }
}

/// The traces of a run after events.
pub open spec fn traces_after(
    p: PipelineView,
    s: ShellView,
    r: RunView,
    events: Seq<EventView>,
    t: Traces,
) -> Traces
    decreases events.len(),
{
    if events.len() == 0 {
        t
    } else {
        let n = next(p, s, r, events[0]);
        traces_after(
            p,
            n.shell,
            n.run,
            events.skip(1),
            traces_after_step(n, traces_after_event(events[0], t)),
        )
    }
}

/// However a run goes, once it has finished every descriptor that it opened is
/// closed, the streams are what they were, signals are let through again, and
/// the shell has the terminal.
pub proof fn finished_runs_leave_no_traces(
    p: PipelineView,
    s: ShellView,
    r: RunView,
    events: Seq<EventView>,
)
    requires
        run_valid(p, r),
        events_answer(p, s, r, events),
    ensures
        ({
            let (s2, r2) = state_after(p, s, r, events);
            let t = traces_after(p, s, r, events, traces_of(p, s, r));
            &&& t == traces_of(p, s2, r2)
            &&& r2.phase == Phase::Finished ==> t.open == Multiset::<i32>::empty()
                && !t.redirected && !t.blocked && t.terminal == s.pgid
        }),
    decreases events.len(),
{
    if events.len() > 0 {
        let e = events[0];
        let n = next(p, s, r, e);
        runs_stay_valid(p, s, r, e);
        steps_account_for_their_traces(p, s, r, e);
        finished_runs_leave_no_traces(p, n.shell, n.run, events.skip(1));
        assert(n.shell.pgid == s.pgid);
    }
}

/// The state of a run after its children have been waited for.
pub open spec fn after_waits(
    p: PipelineView,
    s: ShellView,
    r: RunView,
    outcomes: Seq<WaitOutcome>,
) -> (ShellView, RunView)
    decreases outcomes.len(),
{
    if outcomes.len() == 0 {
        (s, r)
    } else {
        let n = waited(p, s, r, outcomes[0]);
        after_waits(p, n.shell, n.run, outcomes.skip(1))
    }
}

/// The exit status of a pipeline is that of its last command, whatever becomes
/// of the others, and it is what the shell remembers. (A child that cannot be
/// waited for counts as a success.)
pub proof fn last_command_gives_the_status(
    p: PipelineView,
    s: ShellView,
    r: RunView,
    outcomes: Seq<WaitOutcome>,
)
    requires
        r.phase == Phase::Waits,
        0 <= r.waited,
        r.waited + outcomes.len() == r.pids.len(),
        outcomes.len() > 0,
        r.status == 0,
        forall|i: int| 0 <= i < outcomes.len() ==> !wait_again(#[trigger] outcomes[i]),
    ensures
        ({
            let (s2, r2) = after_waits(p, s, r, outcomes);
            &&& r2.status == (match exit_status(outcomes.last()) {
                Some(code) => code,
                None => 0,
            })
            &&& s2.last_status == r2.status
            &&& r2.waited == r.pids.len()
        }),
    decreases outcomes.len(),
{
    reveal_with_fuel(after_waits, 2);
    let n = waited(p, s, r, outcomes[0]);
    let rest = outcomes.skip(1);
    assert(!wait_again(outcomes[0]));
    if rest.len() > 0 {
        assert forall|i: int| 0 <= i < rest.len() implies !wait_again(#[trigger] rest[i]) by {
            assert(rest[i] == outcomes[i + 1]);
        }
        assert(rest.last() == outcomes.last());
        last_command_gives_the_status(p, n.shell, n.run, rest);
    } else {
        assert(outcomes.last() == outcomes[0]);
    }
}

/// Waiting again changes nothing.
pub proof fn interrupted_waits_change_nothing(
    p: PipelineView,
    s: ShellView,
    r: RunView,
    outcome: WaitOutcome,
)
    requires
        r.phase == Phase::Waits,
        0 <= r.waited < r.pids.len(),
        wait_again(outcome),
    ensures
        waited(p, s, r, outcome) == (Next {
            shell: s,
            run: r,
            effects: seq![],
            request: RequestView::Wait { pid: r.pids[r.waited] },
        }),
{
}

/// There is material for an autopsy exactly if a single external command in
/// the foreground, whose stderr was not redirected, has failed and has written
/// something to it that is not blank.
pub proof fn autopsies_are_of_failed_single_commands(
    p: PipelineView,
    s: ShellView,
    r: RunView,
    e: EventView,
)
    requires
        run_valid(p, r),
        answers(r.phase, e),
    ensures
        next(p, s, r, e).request matches RequestView::Finish(result) ==> {
            &&& result.autopsy is Some ==> captures_stderr(p) && !runs_in_shell(p)
            &&& result.autopsy == (match r.captured {
                Some(stderr) if result.status != 0 && trim(stderr).len() > 0 => Some(
                    (summary(p), stderr),
                ),
                _ => None,
            })
        },
{
}

/// A child whose stderr is captured is waited for only once everything that it
/// wrote has been read. So a child that fills the pipe is not waited for while
/// it waits for a reader.
pub proof fn stderr_is_read_before_waiting(p: PipelineView, s: ShellView, r: RunView, e: EventView)
    requires
        run_valid(p, r),
        answers(r.phase, e),
    ensures
        next(p, s, r, e).request is Wait && next(p, s, r, e).run.capture is Some ==> next(
            p,
            s,
            r,
            e,
        ).run.captured is Some,
        next(p, s, r, e).request matches RequestView::Drain { fd } ==> {
            &&& next(p, s, r, e).run.pids.len() == p.commands.len()
            &&& next(p, s, r, e).effects.contains(
                EffectView::Close(given_up(next(p, s, r, e).run)),
            )
            &&& next(p, s, r, e).run.capture matches Some((from, _)) && from == fd
        },
{
    let n = next(p, s, r, e);
    if n.request is Drain {
        assert(n.effects[1] == EffectView::Close(given_up(n.run)));
    }
}

/// However much a single command in the foreground writes to the stderr that is
/// captured, once it has exited its status and what it wrote are the result;
/// what a failed one wrote is shown.
pub proof fn captured_commands_come_to_their_end(
    p: PipelineView,
    s: ShellView,
    r: RunView,
    text: Seq<char>,
    pid: i32,
    code: i32,
)
    requires
        run_valid(p, r),
        r.phase == Phase::Drain,
    ensures
        ({
            let read = next(p, s, r, EventView::Drained(text));
            let e = EventView::Waited(WaitOutcome::Exited { pid, code });
            let over = next(p, read.shell, read.run, e);
            &&& read.request == RequestView::Wait { pid: r.pids[0] }
            &&& answers(read.run.phase, e)
            &&& over.request == RequestView::Finish(
                ResultView {
                    status: code as int,
                    autopsy: if code != 0 && trim(text).len() > 0 {
                        Some((summary(p), text))
                    } else {
                        None
                    },
                },
            )
            &&& over.shell.last_status == code
            &&& over.effects.contains(EffectView::Eprint(text)) <==> code != 0 && text.len() > 0
        }),
{
    let read = next(p, s, r, EventView::Drained(text));
    let over = next(p, read.shell, read.run, EventView::Waited(WaitOutcome::Exited { pid, code }));
    if code != 0 && text.len() > 0 {
        assert(over.effects.last() == EffectView::Eprint(text));
    }
}

/// A builtin is run only once all its redirections have been applied; with one
/// that failed it ends with a complaint and status 1.
pub proof fn builtins_run_only_if_redirected(
    p: PipelineView,
    s: ShellView,
    r: RunView,
    e: EventView,
)
    requires
        run_valid(p, r),
        answers(r.phase, e),
    ensures
        next(p, s, r, e).request is Builtin <==> e is Redirected,
        e matches EventView::NotRedirected(error) ==> {
            &&& next(p, s, r, e).request == RequestView::Finish(plain_result(1))
            &&& next(p, s, r, e).effects[0] == EffectView::Eprint(complaint_line(error))
        },
{
}

/// A background pipeline becomes a job with all its children, and its status
/// is zero, without any of them being waited for.
pub proof fn background_pipelines_become_jobs(
    p: PipelineView,
    s: ShellView,
    r: RunView,
    pid: i32,
)
    requires
        run_valid(p, r),
        r.phase == Phase::Forks,
        p.background,
        r.pids.len() + 1 == p.commands.len(),
    ensures
        ({
            let n = next(p, s, r, EventView::Forked { pid });
            &&& n.request == RequestView::Finish(plain_result(0))
            &&& n.shell.last_status == 0
            &&& n.shell.jobs.jobs == s.jobs.jobs.push(
                JobView {
                    id: s.jobs.next_id,
                    pgid: n.run.pids[0] as int,
                    pids: r.pids.push(pid),
                    cmd: summary(p),
                    state: JobState::Running,
                },
            )
            &&& n.shell.jobs.next_id == s.jobs.next_id + 1
            &&& n.effects.contains(
                EffectView::Print(
                    "["@ + decimal(s.jobs.next_id) + "] "@ + decimal(n.run.pids[0] as int) + "\n"@,
                ),
            )
        }),
{
    let n = next(p, s, r, EventView::Forked { pid });
    assert(n.effects[2] == EffectView::Print(job_line(s.jobs.next_id, n.run.pids[0] as int)));
}

/// A pipeline starts in one of five ways. One without commands is over. A single
/// builtin in the foreground is redirected in the shell, with just those streams
/// saved that it redirects. For a single other command in the foreground that
/// leaves stderr alone a pipe to capture it is opened. Any other single command
/// is given its child, and for more commands a pipe is opened.
pub proof fn pipelines_start_by_their_kind(p: PipelineView, s: ShellView, r: RunView)
    requires
        run_valid(p, r),
        r.phase == Phase::Start,
    ensures
        ({
            let n = next(p, s, r, EventView::Start);
            let c = p.commands[0];
            let alone = p.commands.len() == 1 && !p.background;
            let builtin = builtin_name(c.argv[0]);
            &&& n.shell == s
            &&& p.commands.len() == 0 ==> n.request == RequestView::Finish(
                ResultView { status: 0, autopsy: None },
            )
            &&& alone && builtin ==> n.request == (RequestView::Redirect {
                save_in: c.infile is Some,
                save_out: c.outfile is Some,
                save_err: c.errfile is Some || c.err_to_out,
            })
            &&& alone && !builtin && c.errfile is None && !c.err_to_out ==> n.request is OpenPipe
                && n.run.phase == Phase::Capture
            &&& alone && !builtin && (c.errfile is Some || c.err_to_out) ==> n.request is Fork
            &&& p.commands.len() == 1 && p.background ==> n.request is Fork
            &&& p.commands.len() > 1 ==> n.request is OpenPipe && n.run.phase == Phase::Pipes
        }),
{
}

/// A pipe that is opened is the one that captures stderr, or the next one
/// between the commands; there is one between any two neighbours before the
/// first child is made, and nothing but the opening of a pipe changes them.
pub proof fn pipes_are_opened_in_order(p: PipelineView, s: ShellView, r: RunView, e: EventView)
    requires
        run_valid(p, r),
        answers(r.phase, e),
    ensures
        ({
            let n = next(p, s, r, e);
            &&& e matches EventView::PipeOpened { read, write } ==> if r.phase == Phase::Capture {
                n.run.capture == Some((read, write)) && n.run.pipes == r.pipes
            } else {
                n.run.pipes == r.pipes.push((read, write)) && n.run.capture == r.capture
            }
            &&& !(e is PipeOpened) ==> n.run.pipes == r.pipes && n.run.capture == r.capture
            &&& n.request is OpenPipe ==> n.run.phase == Phase::Capture || n.run.pipes.len() + 1
                < p.commands.len()
            &&& n.request is Fork ==> n.run.pipes.len() + 1 == p.commands.len()
            &&& e is PipeOpened ==> n.request is OpenPipe || n.request is Fork
            &&& e is PipeFailed && r.phase == Phase::Pipes ==> n.request == RequestView::Finish(
                ResultView { status: 1, autopsy: None },
            )
            &&& e is PipeFailed && r.phase == Phase::Capture ==> n.request is Fork
        }),
{
}

/// The child that is asked for is always that of the command whose number is
/// that of the children so far. It joins the group of the first one, and only
/// the first one is given the end of the pipe that captures stderr.
pub proof fn each_command_gets_its_child(p: PipelineView, s: ShellView, r: RunView, e: EventView)
    requires
        run_valid(p, r),
        answers(r.phase, e),
    ensures
        ({
            let n = next(p, s, r, e);
            &&& n.request matches RequestView::Fork { index, pgid, capture } ==> {
                &&& index == n.run.pids.len()
                &&& index < p.commands.len()
                &&& pgid == (if n.run.pids.len() == 0 {
                    None
                } else {
                    Some(n.run.pids[0])
                })
                &&& capture == (match n.run.capture {
                    Some((_, write)) if index == 0 => Some(write),
                    _ => None,
                })
            }
            &&& e matches EventView::Forked { pid } ==> {
                &&& n.run.pids == r.pids.push(pid)
                &&& n.effects[0] == (EffectView::SetGroup { pid, pgid: n.run.pids[0] })
                &&& n.request is Fork <==> n.run.pids.len() < p.commands.len()
            }
            &&& !(e is Forked) ==> n.run.pids == r.pids
            &&& e is ForkFailed ==> n.request == RequestView::Finish(
                ResultView { status: 1, autopsy: None },
            )
        }),
{
}

/// The numbers of the commands for which a run asks for children, in order.
pub open spec fn children_asked(
    p: PipelineView,
    s: ShellView,
    r: RunView,
    events: Seq<EventView>,
) -> Seq<int>
    decreases events.len(),
{
    if events.len() == 0 {
        seq![]
    } else {
        let n = next(p, s, r, events[0]);
        (match n.request {
            RequestView::Fork { index, .. } => seq![index],
            _ => seq![],
        }) + children_asked(p, n.shell, n.run, events.skip(1))
    }
}

/// The number of children that a run has asked for.
spec fn asked_so_far(r: RunView) -> int {
    r.pids.len() + if r.phase == Phase::Forks {
        1int
    } else {
        0
    }
}

/// Over a whole run, however it goes, a child is asked for each command from the
/// first on, once and in order; once children are waited for, or a job is made
/// of them, every command has had one.
pub proof fn children_are_made_in_order(p: PipelineView, s: ShellView, r: RunView, events: Seq<EventView>)
    requires
        run_valid(p, r),
        r.phase == Phase::Start,
        events_answer(p, s, r, events),
    ensures
        ({
            let asked = children_asked(p, s, r, events);
            let (_, end) = state_after(p, s, r, events);
            &&& forall|i: int| 0 <= i < asked.len() ==> asked[i] == i
            &&& asked.len() <= p.commands.len()
            &&& end.pids.len() <= asked.len() <= end.pids.len() + 1
            &&& end.phase == Phase::Drain || end.phase == Phase::Waits ==> asked.len()
                == p.commands.len() == end.pids.len()
        }),
{
    lemma_children_asked(p, s, r, events);
}

proof fn lemma_children_asked(p: PipelineView, s: ShellView, r: RunView, events: Seq<EventView>)
    requires
        run_valid(p, r),
        events_answer(p, s, r, events),
    ensures
        ({
            let asked = children_asked(p, s, r, events);
            let (_, end) = state_after(p, s, r, events);
            &&& forall|i: int| 0 <= i < asked.len() ==> asked[i] == asked_so_far(r) + i
            &&& asked.len() > 0 ==> asked_so_far(r) + asked.len() <= p.commands.len()
            &&& end.pids.len() <= asked_so_far(r) + asked.len() <= end.pids.len() + 1
            &&& end.phase != Phase::Finished ==> asked_so_far(r) + asked.len() == asked_so_far(end)
            &&& run_valid(p, end)
            &&& r.phase == Phase::Finished ==> events.len() == 0
        }),
    decreases events.len(),
{
    if events.len() > 0 {
        let e = events[0];
        let n = next(p, s, r, e);
        runs_stay_valid(p, s, r, e);
        lemma_children_asked(p, n.shell, n.run, events.skip(1));
        each_command_gets_its_child(p, s, r, e);
        let rest = children_asked(p, n.shell, n.run, events.skip(1));
        let asked = children_asked(p, s, r, events);
        assert(asked_so_far(n.run) == asked_so_far(r) + (asked.len() - rest.len()) || (n.run.phase
            == Phase::Finished && rest.len() == 0));
        assert forall|i: int| 0 <= i < asked.len() implies asked[i] == asked_so_far(r) + i by {
            let d = asked.len() - rest.len();
            if i >= d {
                assert(asked[i] == rest[i - d]);
            }
        }
    }
}

/// The children in the foreground are waited for one after the other, from the
/// first on, each until it has ended; the run is over when the last one has,
/// and not before. The status is that of the last one: what it exited with, or
/// 128 and the signal that ended it.
pub proof fn children_are_waited_for_in_order(
    p: PipelineView,
    s: ShellView,
    r: RunView,
    e: EventView,
)
    requires
        run_valid(p, r),
        answers(r.phase, e),
    ensures
        ({
            let n = next(p, s, r, e);
            &&& n.request matches RequestView::Wait { pid } ==> {
                &&& !p.background
                &&& n.run.pids.len() == p.commands.len()
                &&& 0 <= n.run.waited < n.run.pids.len()
                &&& pid == n.run.pids[n.run.waited]
            }
            &&& e matches EventView::Waited(outcome) ==> {
                let ended = outcome is Exited || outcome is Signaled || outcome is Failed;
                let last = r.waited + 1 == p.commands.len();
                &&& n.run.waited == r.waited + if ended {
                    1int
                } else {
                    0
                }
                &&& n.request is Finish <==> ended && last
                &&& !(ended && last) ==> n.request is Wait && n.shell == s
                &&& ended && last ==> {
                    let status = match outcome {
                        WaitOutcome::Exited { code, .. } => code as int,
                        WaitOutcome::Signaled { signal, .. } => 128 + signal,
                        _ => 0,
                    };
                    &&& n.request->Finish_0.status == status
                    &&& n.shell == (ShellView { last_status: status, ..s })
                }
            }
            &&& !(e is Waited) ==> n.run.waited == r.waited
            &&& e is Forked && !p.background && n.run.pids.len() == p.commands.len() ==> {
                &&& n.run.waited == 0
                &&& n.request is Wait || n.request is Drain
                &&& s.interactive ==> n.effects.last() == (EffectView::Foreground {
                    group: n.run.pids[0] as int,
                })
            }
        }),
{
}

/// A child that has ended is taken from the jobs, however it ended, and another
/// is looked for; without one that has ended or changed there is none left.
pub proof fn children_that_ended_are_reaped(jobs: Seq<JobView>, pid: i32, code: i32, signal: i32)
    ensures
        after_wait(jobs, WaitOutcome::Exited { pid, code }) == reaped(jobs, pid),
        after_wait(jobs, WaitOutcome::Signaled { pid, signal }) == reaped(jobs, pid),
        after_wait(jobs, WaitOutcome::Changed) == jobs,
        after_wait(jobs, WaitOutcome::StillAlive) == jobs,
        more_to_reap(WaitOutcome::Exited { pid, code }),
        more_to_reap(WaitOutcome::Signaled { pid, signal }),
        more_to_reap(WaitOutcome::Changed),
        !more_to_reap(WaitOutcome::StillAlive),
        !more_to_reap(WaitOutcome::Interrupted),
        !more_to_reap(WaitOutcome::Failed),
{
}

/// An interactive shell ignores each signal that children handle in the default
/// way again, but for the end of a child, and leads its own group, which has
/// the terminal; a shell that is not touches none of these.
pub proof fn shells_are_prepared_by_their_kind(pid: i32, name: SignalName)
    ensures
        init_steps(true, pid).contains(InitStep::Ignore(name)) <==> name != SignalName::Child,
        init_steps(true, pid).contains(InitStep::LeadGroup { pid }),
        init_steps(true, pid).last() == (InitStep::TakeTerminal { pgid: pid }),
        init_steps(true, pid)[0] == InitStep::HandleChildSignal,
        init_steps(false, pid) == seq![InitStep::HandleChildSignal],
{
    let all = init_steps(true, pid);
    let sigs = ignored_signals();
    assert(all.len() == 9);
    assert forall|i: int| 0 <= i < 5 implies all[i + 2] == InitStep::Ignore(#[trigger] sigs[i]) by {}
    assert(all[7] == InitStep::LeadGroup { pid });
    match name {
        SignalName::Interrupt => { assert(all[2] == InitStep::Ignore(sigs[0])); },
        SignalName::Quit => { assert(all[3] == InitStep::Ignore(sigs[1])); },
        SignalName::TerminalStop => { assert(all[4] == InitStep::Ignore(sigs[2])); },
        SignalName::TerminalInput => { assert(all[5] == InitStep::Ignore(sigs[3])); },
        SignalName::TerminalOutput => { assert(all[6] == InitStep::Ignore(sigs[4])); },
        SignalName::Child => {
            assert forall|i: int| 0 <= i < all.len() implies all[i] != InitStep::Ignore(name) by {
                if 2 <= i < 7 {
                    assert(all[i] == InitStep::Ignore(sigs[i - 2]));
                }
            }
        },
    }
    assert(init_steps(false, pid) =~= seq![InitStep::HandleChildSignal]);
}

/// The text of a pipeline is that of its front, a bar, and that of its end, for
/// any division of its commands in two; that of one command is its words with
/// blanks between them.
pub proof fn summaries_are_put_together(front: Seq<CommandView>, end: Seq<CommandView>, background: bool)
    ensures
        front.len() > 0 && end.len() > 0 ==> summary(
            PipelineView { commands: front + end, background },
        ) == summary(PipelineView { commands: front, background }) + " | "@ + summary(
            PipelineView { commands: end, background },
        ),
        front.len() == 1 ==> summary(PipelineView { commands: front, background }) == join(
            front[0].argv,
            " "@,
        ),
{
    let a = Seq::new(front.len(), |i: int| join(front[i].argv, " "@));
    let b = Seq::new(end.len(), |i: int| join(end[i].argv, " "@));
    let all = front + end;
    assert(Seq::new(all.len(), |i: int| join(all[i].argv, " "@)) =~= a + b);
    joining_is_associative(a, b, " | "@);
}

/// A builtin that has run gives its exit status to the pipeline and to the
/// shell, whatever it is.
pub proof fn builtins_give_their_status(p: PipelineView, s: ShellView, r: RunView, rc: i32)
    requires
        run_valid(p, r),
        r.phase == Phase::Builtin,
    ensures
        ({
            let n = next(p, s, r, EventView::BuiltinRun(rc));
            &&& n.request == RequestView::Finish(ResultView { status: rc as int, autopsy: None })
            &&& n.shell == (ShellView { last_status: rc as int, ..s })
            &&& n.effects == seq![EffectView::RestoreStreams]
        }),
{
}

/// A run that cannot go on because the system has no pipe or no child for it
/// says so, with the reason that the system gives, and leaves the shell as it
/// is.
pub proof fn failed_runs_say_why(p: PipelineView, s: ShellView, r: RunView, error: Seq<char>)
    requires
        run_valid(p, r),
    ensures
        r.phase == Phase::Pipes ==> {
            let n = next(p, s, r, EventView::PipeFailed(error));
            &&& n.effects[0] == EffectView::Eprint("msh: "@ + ("pipe: "@ + error) + "\n"@)
            &&& n.shell == s
        },
        r.phase == Phase::Forks ==> {
            let n = next(p, s, r, EventView::ForkFailed(error));
            &&& n.effects[0] == EffectView::Eprint("msh: "@ + ("fork: "@ + error) + "\n"@)
            &&& n.shell == s
        },
{
}

// ---------------------------------------------------------------------------
// Scripts
// ---------------------------------------------------------------------------

/// Whether the pipeline at `i` is passed over after an exit status of `status`.
pub open spec fn passed_over(sc: ScriptView, i: int, status: int) -> bool {
    i > 0 && match sc.connectors[i - 1] {
        Connector::Semi => false,
        Connector::And => status != 0,
        Connector::Or => status == 0,
    }
}

/// What is known in the middle of a script.
#[verifier::ext_equal]
pub struct ScriptState {
    pub status: int,
    /// from the most recent failure that has material for an autopsy
    pub autopsy: Option<(Seq<char>, Seq<char>)>,
}

/// What is known after a pipeline with result `r`.
pub open spec fn after_result(s: ScriptState, r: ResultView) -> ScriptState {
    ScriptState {
        status: r.status,
        autopsy: if r.status != 0 && r.autopsy is Some {
            r.autopsy
        } else {
            s.autopsy
        },
    }
}

/// What is known before the pipeline at `i`, if `results[j]` is what the
/// pipeline at `j` results in when it is run.
pub open spec fn script_state(sc: ScriptView, results: Seq<ResultView>, i: int) -> ScriptState
    decreases i,
{
    if i <= 0 {
        ScriptState { status: 0, autopsy: None }
    } else {
        let before = script_state(sc, results, i - 1);
        if passed_over(sc, i - 1, before.status) {
            before
        } else {
            after_result(before, results[i - 1])
        }
    }
}

/// The first pipeline from `i` on that is not passed over, or their number.
pub open spec fn next_to_run(sc: ScriptView, i: int, status: int) -> int
    decreases sc.pipelines.len() - i,
{
    if i < sc.pipelines.len() && passed_over(sc, i, status) {
        next_to_run(sc, i + 1, status)
    } else {
        i
    }
}

/// A script under way.
pub struct ScriptRun {
    at: usize,
    status: i32,
    autopsy: Option<(String, String)>,
}

/// The model of a `ScriptRun`: the position of the pipeline that is being run,
/// and what is known before it.
#[verifier::ext_equal]
pub struct ScriptRunView {
    pub at: int,
    pub state: ScriptState,
}

impl View for ScriptRun {
    type V = ScriptRunView;

    closed spec fn view(&self) -> ScriptRunView {
        ScriptRunView {
            at: self.at as int,
            state: ScriptState { status: self.status as int, autopsy: autopsy_view(self.autopsy) },
        }
    }
}

/// What to do next in a script.
pub enum ScriptStep {
    /// Run the pipeline at this position.
    Run(usize),
    /// The script is over: its exit status, and the material for an autopsy.
    Done(i32, Option<(String, String)>),
}

/// There is a connector between any two neighbours.
pub open spec fn connected(sc: ScriptView) -> bool {
    sc.pipelines.len() <= sc.connectors.len() + 1
}

/// Whether `step` is what comes next in `sc` for a run in state `r`.
pub open spec fn script_step_is(sc: ScriptView, r: ScriptRunView, step: ScriptStep) -> bool {
    match step {
        ScriptStep::Run(i) => i == r.at && r.at < sc.pipelines.len(),
        ScriptStep::Done(status, autopsy) => {
            &&& r.at == sc.pipelines.len()
            &&& status == r.state.status
            &&& autopsy_view(autopsy) == r.state.autopsy
        },
    }
}

impl ScriptRun {
    /// Passes over what is not to be run.
    fn skip(&mut self, script: &Script)
        requires
            connected(script@),
            0 <= old(self)@.at <= script@.pipelines.len(),
        ensures
            final(self)@ == (ScriptRunView {
                at: next_to_run(script@, old(self)@.at, old(self)@.state.status),
                ..old(self)@
            }),
            0 <= final(self)@.at <= script@.pipelines.len(),
        decreases script@.pipelines.len() - old(self)@.at,
    {
        if self.at < script.pipelines.len() && self.at > 0 {
            let over: bool = match script.connectors[self.at - 1] {
                Connector::Semi => false,
                Connector::And => self.status != 0,
                Connector::Or => self.status == 0,
            };
            if over {
                self.at = self.at + 1;
                self.skip(script);
            }
        }
    }

    /// What comes next.
    fn ask(&self, script: &Script) -> (step: ScriptStep)
        requires
            0 <= self@.at <= script@.pipelines.len(),
        ensures
            script_step_is(script@, self@, step),
    {
        if self.at < script.pipelines.len() {
            ScriptStep::Run(self.at)
        } else {
            let autopsy = match &self.autopsy {
                Some((command, stderr)) => Some((command.clone(), stderr.clone())),
                None => None,
            };
            ScriptStep::Done(self.status, autopsy)
        }
    }
}

/// Begins a script. The first pipeline is always run.
pub fn start_script(script: &Script) -> (r: (ScriptRun, ScriptStep))
    ensures
        r.0@ == (ScriptRunView { at: 0, state: ScriptState { status: 0, autopsy: None } }),
        script_step_is(script@, r.0@, r.1),
{
    let run = ScriptRun { at: 0, status: 0, autopsy: None };
    let step = run.ask(script);
    (run, step)
}

/// Takes a script one step further: `result` is that of the pipeline that was
/// to be run.
pub fn execute_script(
    script: &Script,
    shell: &mut Shell,
    run: &mut ScriptRun,
    result: PipelineResult,
) -> (step: ScriptStep)
    requires
        connected(script@),
        0 <= old(run)@.at < script@.pipelines.len(),
    ensures
        final(shell)@ == (ShellView { last_status: result@.status, ..old(shell)@ }),
        ({
            let state = after_result(old(run)@.state, result@);
            let here = ScriptRunView {
                at: next_to_run(script@, old(run)@.at + 1, state.status),
                state,
            };
            &&& final(run)@ == here
            &&& script_step_is(script@, here, step)
        }),
{
    set_last_exit_status(shell, result.status);
    run.status = result.status;
    if result.status != 0 && result.autopsy.is_some() {
        run.autopsy = result.autopsy;
    }
    let count: usize = script.pipelines.len();
    assert(run.at < count);
    run.at = run.at + 1;
    run.skip(script);
    run.ask(script)
}

// ---------------------------------------------------------------------------
// Laws of scripts
// ---------------------------------------------------------------------------

/// The state in which a script ends that is run step by step from `r` on.
pub open spec fn stepped(sc: ScriptView, results: Seq<ResultView>, r: ScriptRunView) -> ScriptRunView
    decreases sc.pipelines.len() - r.at,
    via stepped_decreases
{
    if 0 <= r.at < sc.pipelines.len() {
        let state = after_result(r.state, results[r.at]);
        stepped(
            sc,
            results,
            ScriptRunView { at: next_to_run(sc, r.at + 1, state.status), state },
        )
    } else {
        r
    }
}

#[via_fn]
proof fn stepped_decreases(sc: ScriptView, results: Seq<ResultView>, r: ScriptRunView) {
    if 0 <= r.at < sc.pipelines.len() {
        let state = after_result(r.state, results[r.at]);
        lemma_next_to_run(sc, r.at + 1, state.status);
    }
}

proof fn lemma_next_to_run(sc: ScriptView, i: int, status: int)
    requires
        0 <= i <= sc.pipelines.len(),
    ensures
        i <= next_to_run(sc, i, status) <= sc.pipelines.len(),
        forall|j: int| i <= j < next_to_run(sc, i, status) ==> #[trigger] passed_over(sc, j, status),
        next_to_run(sc, i, status) < sc.pipelines.len() ==> !passed_over(
            sc,
            next_to_run(sc, i, status),
            status,
        ),
    decreases sc.pipelines.len() - i,
{
    if i < sc.pipelines.len() && passed_over(sc, i, status) {
        lemma_next_to_run(sc, i + 1, status);
    }
}

/// Passing over pipelines changes nothing of what is known.
proof fn lemma_passed_over(sc: ScriptView, results: Seq<ResultView>, i: int, k: int)
    requires
        0 <= i <= k,
        forall|j: int|
            i <= j < k ==> #[trigger] passed_over(sc, j, script_state(sc, results, i).status),
    ensures
        script_state(sc, results, k) == script_state(sc, results, i),
    decreases k - i,
{
    if i < k {
        lemma_passed_over(sc, results, i, k - 1);
        assert(passed_over(sc, k - 1, script_state(sc, results, i).status));
    }
}

/// A script that comes out of parsing can be run: it has its connectors, and
/// each of its pipelines can be run.
pub proof fn parsed_scripts_can_be_run(sc: ScriptView)
    requires
        well_formed(sc),
    ensures
        connected(sc),
        forall|i: int| 0 <= i < sc.pipelines.len() ==> runnable(#[trigger] sc.pipelines[i]),
{
    assert forall|i: int| 0 <= i < sc.pipelines.len() implies runnable(
        #[trigger] sc.pipelines[i],
    ) by {
        assert(pipeline_well_formed(sc.pipelines[i]));
    }
}

/// A script that is run step by step comes out as its connectors say: each
/// pipeline is run, or passed over, by what is known before it; `;` always
/// goes on, `&&` only after a success, `||` only after a failure.
pub proof fn scripts_run_as_connected(sc: ScriptView, results: Seq<ResultView>)
    requires
        results.len() == sc.pipelines.len(),
    ensures
        stepped(
            sc,
            results,
            ScriptRunView { at: 0, state: ScriptState { status: 0, autopsy: None } },
        ) == (ScriptRunView {
            at: sc.pipelines.len() as int,
            state: script_state(sc, results, sc.pipelines.len() as int),
        }),
{
    lemma_stepped(
        sc,
        results,
        ScriptRunView { at: 0, state: ScriptState { status: 0, autopsy: None } },
    );
}

proof fn lemma_stepped(sc: ScriptView, results: Seq<ResultView>, r: ScriptRunView)
    requires
        results.len() == sc.pipelines.len(),
        0 <= r.at <= sc.pipelines.len(),
        r.state == script_state(sc, results, r.at),
        r.at < sc.pipelines.len() ==> !passed_over(sc, r.at, r.state.status),
    ensures
        stepped(sc, results, r) == (ScriptRunView {
            at: sc.pipelines.len() as int,
            state: script_state(sc, results, sc.pipelines.len() as int),
        }),
    decreases sc.pipelines.len() - r.at,
{
    if r.at < sc.pipelines.len() {
        let state = after_result(r.state, results[r.at]);
        let k = next_to_run(sc, r.at + 1, state.status);
        lemma_next_to_run(sc, r.at + 1, state.status);
        assert(script_state(sc, results, r.at + 1) == state);
        lemma_passed_over(sc, results, r.at + 1, k);
        lemma_stepped(sc, results, ScriptRunView { at: k, state });
    }
}

/// `a && b` runs `b` only if `a` succeeds, `a || b` only if `a` fails, and
/// `a ; b` in any case; the status is that of the last one that has run.
pub proof fn two_pipelines_run_as_connected(sc: ScriptView, results: Seq<ResultView>)
    requires
        sc.pipelines.len() == 2,
        sc.connectors.len() > 0,
        results.len() == 2,
    ensures
        script_state(sc, results, 2).status == (match sc.connectors[0] {
            Connector::Semi => results[1].status,
            Connector::And => if results[0].status == 0 {
                results[1].status
            } else {
                results[0].status
            },
            Connector::Or => if results[0].status == 0 {
                0
            } else {
                results[1].status
            },
        }),
{
    reveal_with_fuel(script_state, 3);
}

/// Whether the pipeline at `i` was run and failed with material for an autopsy.
pub open spec fn leaves_material(sc: ScriptView, results: Seq<ResultView>, i: int) -> bool {
    !passed_over(sc, i, script_state(sc, results, i).status) && results[i].status != 0
        && results[i].autopsy is Some
}

/// The material for an autopsy is that of the most recent pipeline that was run
/// and failed with some, whatever has come after it; there is none if there was
/// no such pipeline.
pub proof fn the_last_failure_is_kept(sc: ScriptView, results: Seq<ResultView>, n: int)
    requires
        0 <= n <= sc.pipelines.len(),
    ensures
        forall|i: int|
            #![trigger leaves_material(sc, results, i)]
            0 <= i < n && leaves_material(sc, results, i) && (forall|j: int|
                i < j < n ==> !#[trigger] leaves_material(sc, results, j)) ==> script_state(
                sc,
                results,
                n,
            ).autopsy == results[i].autopsy,
        (forall|j: int| 0 <= j < n ==> !#[trigger] leaves_material(sc, results, j))
            ==> script_state(sc, results, n).autopsy is None,
    decreases n,
{
    if n > 0 {
        the_last_failure_is_kept(sc, results, n - 1);
        assert forall|i: int|
            #![trigger leaves_material(sc, results, i)]
            0 <= i < n && leaves_material(sc, results, i) && (forall|j: int|
                i < j < n ==> !#[trigger] leaves_material(sc, results, j)) implies script_state(
            sc,
            results,
            n,
        ).autopsy == results[i].autopsy by {
            if i < n - 1 {
                assert(!leaves_material(sc, results, n - 1));
            }
        }
        if forall|j: int| 0 <= j < n ==> !#[trigger] leaves_material(sc, results, j) {
            assert(!leaves_material(sc, results, n - 1));
        }
    }
}

/// The exit status before the pipeline at `i`: that of the last one before it
/// that is run, or zero if there is none.
pub open spec fn status_before(sc: ScriptView, results: Seq<ResultView>, i: int) -> int
    decreases i,
{
    if i <= 0 {
        0
    } else if i == 1 || (match sc.connectors[i - 2] {
        Connector::Semi => true,
        Connector::And => status_before(sc, results, i - 1) == 0,
        Connector::Or => status_before(sc, results, i - 1) != 0,
    }) {
        results[i - 1].status
    } else {
        status_before(sc, results, i - 1)
    }
}

/// Whether the pipeline at `i` is to be run: the first one is; behind `;` always,
/// behind `&&` exactly after a success, and behind `||` exactly after a failure.
pub open spec fn to_be_run(sc: ScriptView, results: Seq<ResultView>, i: int) -> bool {
    i == 0 || match sc.connectors[i - 1] {
        Connector::Semi => true,
        Connector::And => status_before(sc, results, i) == 0,
        Connector::Or => status_before(sc, results, i) != 0,
    }
}

/// The material for an autopsy before the pipeline at `i`: that of the last one
/// before it that is run and fails with some.
pub open spec fn material_before(sc: ScriptView, results: Seq<ResultView>, i: int) -> Option<
    (Seq<char>, Seq<char>),
>
    decreases i,
{
    if i <= 0 {
        None
    } else if to_be_run(sc, results, i - 1) && results[i - 1].status != 0
        && results[i - 1].autopsy is Some {
        results[i - 1].autopsy
    } else {
        material_before(sc, results, i - 1)
    }
}

/// The pipelines that are run from a state of a script on, in order.
pub open spec fn pipelines_run(
    sc: ScriptView,
    results: Seq<ResultView>,
    r: ScriptRunView,
) -> Seq<int>
    decreases sc.pipelines.len() - r.at,
    via pipelines_run_decreases
{
    if 0 <= r.at < sc.pipelines.len() {
        let state = after_result(r.state, results[r.at]);
        seq![r.at] + pipelines_run(
            sc,
            results,
            ScriptRunView { at: next_to_run(sc, r.at + 1, state.status), state },
        )
    } else {
        seq![]
    }
}

#[via_fn]
proof fn pipelines_run_decreases(sc: ScriptView, results: Seq<ResultView>, r: ScriptRunView) {
    if 0 <= r.at < sc.pipelines.len() {
        let state = after_result(r.state, results[r.at]);
        lemma_next_to_run(sc, r.at + 1, state.status);
    }
}

/// Behind any number of others, the pipeline at `i` is the next one to be run
/// exactly if its connector says so; else it is the turn of the one behind it.
pub proof fn connectors_decide_one_by_one(sc: ScriptView, i: int, status: int)
    requires
        0 < i < sc.pipelines.len(),
    ensures
        next_to_run(sc, i, status) == i <==> (match sc.connectors[i - 1] {
            Connector::Semi => true,
            Connector::And => status == 0,
            Connector::Or => status != 0,
        }),
        next_to_run(sc, i, status) != i ==> next_to_run(sc, i, status) == next_to_run(
            sc,
            i + 1,
            status,
        ),
{
    if passed_over(sc, i, status) {
        lemma_next_to_run(sc, i + 1, status);
    }
}

/// Of a script with any number of pipelines exactly those are run that are to
/// be run, each once and in order, and its outcome is that of the last of them.
pub proof fn exactly_what_is_to_be_run_is_run(sc: ScriptView, results: Seq<ResultView>)
    requires
        results.len() == sc.pipelines.len(),
    ensures
        ({
            let start = ScriptRunView { at: 0, state: ScriptState { status: 0, autopsy: None } };
            let ran = pipelines_run(sc, results, start);
            let n = sc.pipelines.len() as int;
            &&& forall|i: int|
                #![trigger ran.contains(i)]
                ran.contains(i) <==> 0 <= i < n && to_be_run(sc, results, i)
            &&& forall|a: int, b: int| 0 <= a < b < ran.len() ==> ran[a] < ran[b]
            &&& stepped(sc, results, start).state == (ScriptState {
                status: status_before(sc, results, n),
                autopsy: material_before(sc, results, n),
            })
        }),
{
    let start = ScriptRunView { at: 0, state: ScriptState { status: 0, autopsy: None } };
    let n = sc.pipelines.len() as int;
    scripts_run_as_connected(sc, results);
    lemma_state_before(sc, results, n);
    lemma_pipelines_run(sc, results, start);
}

proof fn lemma_state_before(sc: ScriptView, results: Seq<ResultView>, i: int)
    requires
        0 <= i <= sc.pipelines.len(),
    ensures
        script_state(sc, results, i) == (ScriptState {
            status: status_before(sc, results, i),
            autopsy: material_before(sc, results, i),
        }),
    decreases i,
{
    if i > 0 {
        lemma_state_before(sc, results, i - 1);
        assert(passed_over(sc, i - 1, status_before(sc, results, i - 1)) == !to_be_run(
            sc,
            results,
            i - 1,
        ));
    }
}

proof fn lemma_pipelines_run(sc: ScriptView, results: Seq<ResultView>, r: ScriptRunView)
    requires
        results.len() == sc.pipelines.len(),
        0 <= r.at <= sc.pipelines.len(),
        r.state == script_state(sc, results, r.at),
        r.at < sc.pipelines.len() ==> to_be_run(sc, results, r.at),
    ensures
        ({
            let ran = pipelines_run(sc, results, r);
            &&& forall|i: int|
                #![trigger ran.contains(i)]
                ran.contains(i) <==> r.at <= i < sc.pipelines.len() && to_be_run(sc, results, i)
            &&& forall|a: int, b: int| 0 <= a < b < ran.len() ==> ran[a] < ran[b]
        }),
    decreases sc.pipelines.len() - r.at,
{
    let n = sc.pipelines.len() as int;
    let ran = pipelines_run(sc, results, r);
    if r.at < n {
        let state = after_result(r.state, results[r.at]);
        let k = next_to_run(sc, r.at + 1, state.status);
        let next = ScriptRunView { at: k, state };
        let rest = pipelines_run(sc, results, next);
        lemma_next_to_run(sc, r.at + 1, state.status);
        lemma_state_before(sc, results, r.at);
        assert(script_state(sc, results, r.at + 1) == state) by {
            assert(!passed_over(sc, r.at, r.state.status));
        }
        lemma_passed_over(sc, results, r.at + 1, k);
        assert forall|j: int| r.at < j < n && (j < k || j == k) implies to_be_run(sc, results, j)
            == (j == k) by {
            assert forall|m: int|
                r.at + 1 <= m < j implies #[trigger] passed_over(sc, m, state.status) by {}
            lemma_passed_over(sc, results, r.at + 1, j);
            lemma_state_before(sc, results, j);
            if j < k {
                assert(passed_over(sc, j, state.status));
            }
        }
        lemma_pipelines_run(sc, results, next);
        assert(ran =~= seq![r.at] + rest);
        assert forall|i: int| #![trigger ran.contains(i)] ran.contains(i) <==> r.at <= i < n
            && to_be_run(sc, results, i) by {
            if ran.contains(i) {
                let q = choose|q: int| 0 <= q < ran.len() && ran[q] == i;
                if q > 0 {
                    assert(rest[q - 1] == i);
                    assert(rest.contains(i));
                }
            }
            if r.at <= i < n && to_be_run(sc, results, i) {
                if i == r.at {
                    assert(ran[0] == i);
                } else {
                    assert(rest.contains(i));
                    let q = choose|q: int| 0 <= q < rest.len() && rest[q] == i;
                    assert(ran[q + 1] == i);
                }
            }
        }
        assert forall|a: int, b: int| 0 <= a < b < ran.len() implies ran[a] < ran[b] by {
            assert(ran[b] == rest[b - 1]);
            assert(rest.contains(rest[b - 1]));
            if a > 0 {
                assert(ran[a] == rest[a - 1]);
            }
        }
    } else {
        assert(ran =~= seq![]);
    }
}

} // verus!
