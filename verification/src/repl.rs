//! The read-eval-print loop: what a line of input means, and the dialogs that
//! it can lead to.
//!
//! A dialog is taken further by what has come of its last demand, and makes the
//! next one; what is to be written comes along with it.

use crate::agent::{
    analyze_error, answer_view, answered, asks, chat_request, error_message, failure_report,
    history_text, plan, plan_task, read_plan, single_request, steps_view, translate_intent,
    AgentError, AgentErrorView, ApiRequest, ApiRequestView, ChatAgent, History, ANALYZE_PROMPT,
    CHAT_MAX_TOKENS, CHAT_PROMPT, MAX_TOKENS, PLAN_MAX_TOKENS, PLAN_PROMPT, TRANSLATE_PROMPT,
};
use crate::environment::{value_of, Environment};
use crate::executor::autopsy_view;
use crate::number::{decimal, push_count, push_decimal};
use crate::output::{lemma_output_push, output_views, Output, OutputView};
use crate::parser::{parse, script, well_formed, Script};
use crate::text::{
    a_prefix_has_something_behind_it, all_ascii, ascii_small, chars_of, first_word, first_word_of,
    has_prefix, is_blank, is_space, lowercase, opt_view, same, starts_with, string_of,
    the_first_word_stands_between_blanks, to_lowercase, trim, trim_end, trimmed, trimmed_end, views,
    Edge,
};
use crate::tokenizer::{lex, tokenize, Scope};
use vstd::prelude::*;
use vstd::slice::slice_subrange;

verus! {

// ---------------------------------------------------------------------------
// Paths and prompts
// ---------------------------------------------------------------------------

/// A file in a directory.
pub open spec fn file_in(dir: Seq<char>, name: Seq<char>) -> Seq<char> {
    if dir.len() == 0 || dir.last() == '/' {
        dir + name
    } else {
        dir + "/"@ + name
    }
}

/// Where the history of the line editor is kept: in the home directory.
pub fn history_path(env: &Environment) -> (r: Option<String>)
    ensures
        opt_view(r) == (match value_of(env@, "HOME"@) {
            Some(home) => Some(file_in(home, ".aura_history"@)),
            None => None,
        }),
{
    match env.get("HOME") {
        Some(home) => {
            let cs: Vec<char> = chars_of(home);
            let mut path = home.to_string();
            if cs.len() > 0 && cs[cs.len() - 1] != '/' {
                path.append("/");
            }
            path.append(".aura_history");
            Some(path)
        },
        None => None,
    }
}

/// A directory as it is shown: a tilde stands for the home directory.
pub open spec fn shown_dir(cwd: Seq<char>, home: Option<Seq<char>>) -> Seq<char> {
    match home {
        Some(h) => if h.len() > 0 && starts_with(cwd, h) {
            "~"@ + cwd.skip(h.len() as int)
        } else {
            cwd
        },
        None => cwd,
    }
}

/// The prompt in the directory `cwd`, or in one that is not known.
pub fn make_prompt(cwd: Option<&str>, env: &Environment) -> (r: String)
    ensures
        r@ == shown_dir(
            match cwd {
                Some(d) => d@,
                None => "?"@,
            },
            value_of(env@, "HOME"@),
        ) + " ❯ "@,
{
    let dir = match cwd {
        Some(d) => d,
        None => "?",
    };
    let mut prompt = dir.to_string();
    if let Some(home) = env.get("HOME") {
        let h: Vec<char> = chars_of(home);
        let d: Vec<char> = chars_of(dir);
        if h.len() > 0 && has_prefix(d.as_slice(), h.as_slice()) {
            let rest = slice_subrange(d.as_slice(), h.len(), d.len());
            assert(rest@ =~= dir@.skip(home@.len() as int));
            prompt = "~".to_string();
            prompt.append(string_of(rest).as_str());
        }
    }
    prompt.append(" ❯ ");
    prompt
}

/// The line that the editor has read, without line feeds at its end, unless
/// that leaves nothing.
pub fn input_line(read: &str) -> (r: Option<String>)
    ensures
        opt_view(r) == (if trim_end(read@, Edge::Only('\n')).len() == 0 {
            None
        } else {
            Some(trim_end(read@, Edge::Only('\n')))
        }),
{
    let cs: Vec<char> = chars_of(read);
    let line = trimmed_end(cs.as_slice(), '\n');
    if line.len() == 0 {
        None
    } else {
        Some(string_of(line))
    }
}

// ---------------------------------------------------------------------------
// Commands
// ---------------------------------------------------------------------------

/// What a line is as a command.
#[derive(Debug)]
pub enum Input {
    /// There is nothing to run.
    Nothing,
    /// Run this.
    Run(Script),
    /// Write this complaint.
    Invalid(String),
}

/// The complaint about a line that is no script.
pub open spec fn syntax_complaint(e: Seq<char>) -> Seq<char> {
    "aura: "@ + e + "\n"@
}

/// What `line` is as a command.
pub fn execute_str(line: &str, scope: &Scope) -> (r: Input)
    ensures
        match script(lex(line@, scope@)) {
            Ok(s) => if s.pipelines.len() == 0 {
                r is Nothing
            } else {
                r matches Input::Run(t) && t@ == s && well_formed(s)
            },
            Err(e) => r matches Input::Invalid(text) && text@ == syntax_complaint(e),
        },
{
    match parse(tokenize(line, scope)) {
        Ok(Some(s)) => Input::Run(s),
        Ok(None) => Input::Nothing,
        Err(e) => {
            let mut text = "aura: ".to_string();
            text.append(e.as_str());
            text.append("\n");
            Input::Invalid(text)
        },
    }
}

/// The exit status of a line that runs nothing: success if it is empty, and a
/// failure if it is no script. A line that runs something has no status yet.
pub fn idle_status(input: &Input) -> (r: Option<i32>)
    ensures
        r == (match *input {
            Input::Nothing => Some(0i32),
            Input::Run(_) => None,
            Input::Invalid(_) => Some(1i32),
        }),
{
    match input {
        Input::Nothing => Some(0),
        Input::Run(_) => None,
        Input::Invalid(_) => Some(1),
    }
}

// ---------------------------------------------------------------------------
// Dialogs
// ---------------------------------------------------------------------------

pub const YELLOW: &'static str = "\x1b[33m";

pub const CYAN: &'static str = "\x1b[36m";

pub const GREEN: &'static str = "\x1b[32m";

pub const BOLD: &'static str = "\x1b[1m";

pub const RESET: &'static str = "\x1b[0m";

/// Wipes what was written while an answer was awaited.
pub const WIPE: &'static str = "\r                                                            \r";

/// A question to the language model.
#[derive(Debug)]
pub enum Question {
    /// Which command does this?
    Translate(String),
    /// Why did this command fail, which wrote this?
    Explain(String, String),
    /// Which commands reach this goal?
    Plan(String),
    /// The next thing to say in the conversation.
    Chat(String),
}

/// The model of a `Question`.
#[verifier::ext_equal]
pub enum QuestionView {
    Translate(Seq<char>),
    Explain(Seq<char>, Seq<char>),
    Plan(Seq<char>),
    Chat(Seq<char>),
}

impl View for Question {
    type V = QuestionView;

    open spec fn view(&self) -> QuestionView {
        match *self {
            Question::Translate(input) => QuestionView::Translate(input@),
            Question::Explain(command, stderr) => QuestionView::Explain(command@, stderr@),
            Question::Plan(goal) => QuestionView::Plan(goal@),
            Question::Chat(input) => QuestionView::Chat(input@),
        }
    }
}

/// What a dialog needs next.
#[derive(Debug)]
pub enum Demand {
    /// An answer of the language model.
    Ask(Question),
    /// A line from the user.
    ReadLine,
    /// The exit status of this command line, and the material for an autopsy.
    Execute(String),
    /// Nothing: the dialog is over.
    Finish,
}

/// The model of a `Demand`.
#[verifier::ext_equal]
pub enum DemandView {
    Ask(QuestionView),
    ReadLine,
    Execute(Seq<char>),
    Finish,
}

impl View for Demand {
    type V = DemandView;

    open spec fn view(&self) -> DemandView {
        match *self {
            Demand::Ask(q) => DemandView::Ask(q@),
            Demand::ReadLine => DemandView::ReadLine,
            Demand::Execute(command) => DemandView::Execute(command@),
            Demand::Finish => DemandView::Finish,
        }
    }
}

/// What has come of a demand.
#[derive(Debug)]
pub enum Response {
    Answer(Result<String, AgentError>),
    /// A line, or none if there are no more.
    Line(Option<String>),
    Executed(i32, Option<(String, String)>),
}

/// The model of a `Response`.
pub enum ResponseView {
    Answer(Result<Seq<char>, AgentErrorView>),
    Line(Option<Seq<char>>),
    Executed(int, Option<(Seq<char>, Seq<char>)>),
}

impl View for Response {
    type V = ResponseView;

    open spec fn view(&self) -> ResponseView {
        match *self {
            Response::Answer(a) => ResponseView::Answer(answer_view(a)),
            Response::Line(line) => ResponseView::Line(opt_view(line)),
            Response::Executed(status, autopsy) => ResponseView::Executed(
                status as int,
                autopsy_view(autopsy),
            ),
        }
    }
}

/// Where a dialog is.
#[derive(Debug)]
pub enum Dialog {
    /// A command line is being run.
    Command { line: String },
    /// A command was not found: an explanation is awaited.
    Suggestion,
    /// A command failed: an explanation is awaited.
    Autopsy,
    /// The command for a description is awaited.
    Translation,
    /// The user is asked whether to run this.
    Confirmation { command: String },
    /// The command for a description is being run.
    Confirmed,
    /// The answer to this is awaited.
    Chat { input: String },
    /// The user may go on with the conversation.
    FollowUp,
    /// A plan is awaited.
    Planning,
    /// The user is asked about a step.
    Step { steps: Vec<String>, at: usize },
    /// A step is being run.
    StepRun { steps: Vec<String>, at: usize },
    /// A step failed: an explanation is awaited.
    StepAutopsy { steps: Vec<String>, at: usize, status: i32 },
    /// A step failed: the user is asked whether to go on.
    StepFailed { steps: Vec<String>, at: usize },
    Over,
}

/// The model of a `Dialog`.
#[verifier::ext_equal]
pub enum DialogView {
    Command { line: Seq<char> },
    Suggestion,
    Autopsy,
    Translation,
    Confirmation { command: Seq<char> },
    Confirmed,
    Chat { input: Seq<char> },
    FollowUp,
    Planning,
    Step { steps: Seq<Seq<char>>, at: int },
    StepRun { steps: Seq<Seq<char>>, at: int },
    StepAutopsy { steps: Seq<Seq<char>>, at: int, status: int },
    StepFailed { steps: Seq<Seq<char>>, at: int },
    Over,
}

impl View for Dialog {
    type V = DialogView;

    open spec fn view(&self) -> DialogView {
        match *self {
            Dialog::Command { line } => DialogView::Command { line: line@ },
            Dialog::Suggestion => DialogView::Suggestion,
            Dialog::Autopsy => DialogView::Autopsy,
            Dialog::Translation => DialogView::Translation,
            Dialog::Confirmation { command } => DialogView::Confirmation { command: command@ },
            Dialog::Confirmed => DialogView::Confirmed,
            Dialog::Chat { input } => DialogView::Chat { input: input@ },
            Dialog::FollowUp => DialogView::FollowUp,
            Dialog::Planning => DialogView::Planning,
            Dialog::Step { steps, at } => DialogView::Step { steps: views(steps@), at: at as int },
            Dialog::StepRun { steps, at } => DialogView::StepRun {
                steps: views(steps@),
                at: at as int,
            },
            Dialog::StepAutopsy { steps, at, status } => DialogView::StepAutopsy {
                steps: views(steps@),
                at: at as int,
                status: status as int,
            },
            Dialog::StepFailed { steps, at } => DialogView::StepFailed {
                steps: views(steps@),
                at: at as int,
            },
            Dialog::Over => DialogView::Over,
        }
    }
}

/// Where a dialog is, what is to be written, and what is needed next.
#[derive(Debug)]
pub struct Stage {
    pub dialog: Dialog,
    pub outputs: Vec<Output>,
    pub demand: Demand,
}

/// The model of a `Stage`.
#[verifier::ext_equal]
pub struct StageView {
    pub dialog: DialogView,
    pub outputs: Seq<OutputView>,
    pub demand: DemandView,
}

impl View for Stage {
    type V = StageView;

    open spec fn view(&self) -> StageView {
        StageView {
            dialog: self.dialog@,
            outputs: output_views(self.outputs@),
            demand: self.demand@,
        }
    }
}

/// `text` in a colour.
pub open spec fn painted(colour: Seq<char>, text: Seq<char>) -> Seq<char> {
    colour + text + RESET@
}

/// The end of a dialog.
pub open spec fn over(outputs: Seq<OutputView>) -> StageView {
    StageView { dialog: DialogView::Over, outputs, demand: DemandView::Finish }
}

/// An explanation as it is shown.
pub open spec fn autopsy_line(explanation: Seq<char>) -> Seq<char> {
    YELLOW@ + BOLD@ + "✦ Autopsy:"@ + RESET@ + " "@ + YELLOW@ + explanation + RESET@ + "\n"@
}

/// What is shown of the answer to a question about a failed command.
pub open spec fn autopsy_outputs(answer: Result<Seq<char>, AgentErrorView>) -> Seq<OutputView> {
    seq![
        OutputView::Stderr(WIPE@),
        OutputView::Stderr(
            match answer {
                Ok(explanation) => autopsy_line(explanation),
                Err(e) => painted(YELLOW@, "aura: autopsy unavailable: "@ + error_message(e))
                    + "\n"@,
            },
        ),
    ]
}

/// What is shown while an explanation is awaited.
pub open spec fn analyzing() -> OutputView {
    OutputView::Stderr(YELLOW@ + BOLD@ + "✦ Autopsy: analyzing..."@ + RESET@)
}

/// Goes on to an explanation if there is material for one.
pub open spec fn explained(autopsy: Option<(Seq<char>, Seq<char>)>) -> StageView {
    match autopsy {
        Some((command, stderr)) => StageView {
            dialog: DialogView::Autopsy,
            outputs: seq![analyzing()],
            demand: DemandView::Ask(QuestionView::Explain(command, stderr)),
        },
        None => over(seq![]),
    }
}

/// After a command line has been run. A command that was not found is asked
/// about by its name.
pub open spec fn command_run(
    line: Seq<char>,
    status: int,
    autopsy: Option<(Seq<char>, Seq<char>)>,
) -> StageView {
    if status == 127 {
        let name = match first_word(line) {
            Some(w) => w,
            None => line,
        };
        StageView {
            dialog: DialogView::Suggestion,
            outputs: seq![
                OutputView::Stderr(painted(YELLOW@, "⟳  looking up suggestion..."@)),
            ],
            demand: DemandView::Ask(QuestionView::Explain(name, name + ": command not found"@)),
        }
    } else {
        explained(autopsy)
    }
}

/// What is shown of a suggestion, or of the lack of one.
pub open spec fn suggestion_outputs(answer: Result<Seq<char>, AgentErrorView>) -> Seq<OutputView> {
    seq![
        OutputView::Stderr(WIPE@),
        OutputView::Stderr(
            match answer {
                Ok(explanation) => autopsy_line(explanation),
                Err(e) => painted(YELLOW@, "aura: suggestion unavailable: "@ + error_message(e))
                    + "\n"@,
            },
        ),
    ]
}

/// What a line of the user says: nothing if there is none.
pub open spec fn said(line: Option<Seq<char>>) -> Seq<char> {
    lowercase(
        trim(
            match line {
                Some(s) => s,
                None => seq![],
            },
        ),
    )
}

/// Whether a line says yes.
pub open spec fn is_yes(line: Option<Seq<char>>) -> bool {
    said(line).len() == 0 || said(line) == "y"@
}

/// The command for a description: the user is asked whether to run it.
pub open spec fn translated(answer: Result<Seq<char>, AgentErrorView>) -> StageView {
    match answer {
        Ok(command) => StageView {
            dialog: DialogView::Confirmation { command },
            outputs: seq![
                OutputView::Stderr(WIPE@),
                OutputView::Stderr(CYAN@ + BOLD@ + "→  "@ + RESET@ + command + "\n"@),
                OutputView::Stderr(painted(CYAN@, "[Y/n]: "@)),
            ],
            demand: DemandView::ReadLine,
        },
        Err(e) => over(
            seq![
                OutputView::Stderr(WIPE@),
                OutputView::Stderr(painted(YELLOW@, "aura: "@ + error_message(e)) + "\n"@),
            ],
        ),
    }
}

/// The user has been asked whether to run `command`.
pub open spec fn confirmed(command: Seq<char>, line: Option<Seq<char>>) -> StageView {
    if is_yes(line) {
        StageView {
            dialog: DialogView::Confirmed,
            outputs: seq![],
            demand: DemandView::Execute(command),
        }
    } else {
        over(seq![])
    }
}

/// Says something in the conversation.
pub open spec fn chatting(input: Seq<char>) -> StageView {
    StageView {
        dialog: DialogView::Chat { input },
        outputs: seq![OutputView::Stderr(painted(GREEN@, "⟳  thinking..."@))],
        demand: DemandView::Ask(QuestionView::Chat(input)),
    }
}

/// The answer in the conversation: it can go on, unless there is none.
pub open spec fn chatted(answer: Result<Seq<char>, AgentErrorView>) -> StageView {
    match answer {
        Ok(text) => StageView {
            dialog: DialogView::FollowUp,
            outputs: seq![
                OutputView::Stderr(WIPE@),
                OutputView::Stdout(painted(GREEN@, text) + "\n"@),
                OutputView::Stderr(painted(GREEN@, "chat> "@)),
            ],
            demand: DemandView::ReadLine,
        },
        Err(e) => over(
            seq![
                OutputView::Stderr(WIPE@),
                OutputView::Stderr(
                    painted(YELLOW@, "aura: chat error: "@ + error_message(e)) + "\n"@,
                ),
            ],
        ),
    }
}

/// The user may have gone on with the conversation.
pub open spec fn followed_up(line: Option<Seq<char>>) -> StageView {
    match line {
        Some(s) => if trim(s).len() == 0 || trim(s) == "exit"@ || trim(s) == "quit"@ {
            over(seq![])
        } else {
            chatting(trim(s))
        },
        None => over(seq![]),
    }
}

/// The position of a step among all.
pub open spec fn step_count(steps: Seq<Seq<char>>, at: int) -> Seq<char> {
    decimal(at + 1) + "/"@ + decimal(steps.len() as int)
}

/// The question about a step.
pub open spec fn step_prompt(steps: Seq<Seq<char>>, at: int) -> OutputView {
    OutputView::Stderr(
        CYAN@ + "Step "@ + step_count(steps, at) + ": "@ + RESET@ + steps[at] + " "@ + CYAN@
            + "[Y/n/skip/abort]: "@ + RESET@,
    )
}

/// Goes on to the step at `at`, if there is one.
pub open spec fn next_step(
    outputs: Seq<OutputView>,
    steps: Seq<Seq<char>>,
    at: int,
) -> StageView {
    if at < steps.len() {
        StageView {
            dialog: DialogView::Step { steps, at },
            outputs: outputs.push(step_prompt(steps, at)),
            demand: DemandView::ReadLine,
        }
    } else {
        over(outputs.push(OutputView::Stderr(painted(GREEN@, "✓ Plan complete"@) + "\n"@)))
    }
}

/// The lines for the first `n` steps of a plan.
pub open spec fn plan_lines(steps: Seq<Seq<char>>, n: int) -> Seq<OutputView>
    decreases n,
{
    if n <= 0 {
        seq![]
    } else {
        plan_lines(steps, n - 1).push(
            OutputView::Stderr(
                "  "@ + CYAN@ + decimal(n) + ". "@ + RESET@ + steps[n - 1] + "\n"@,
            ),
        )
    }
}

/// The line above the steps of a plan.
pub open spec fn plan_title(steps: Seq<Seq<char>>) -> OutputView {
    OutputView::Stderr(
        CYAN@ + BOLD@ + "Plan ("@ + decimal(steps.len() as int) + (if steps.len() == 1 {
            " step"@
        } else {
            " steps"@
        }) + "):"@ + RESET@ + "\n"@,
    )
}

/// The plan: it is shown, and the user is asked about its first step.
pub open spec fn planned(answer: Result<Seq<Seq<char>>, AgentErrorView>) -> StageView {
    match answer {
        Ok(steps) => next_step(
            (seq![OutputView::Stderr(WIPE@), plan_title(steps)] + plan_lines(
                steps,
                steps.len() as int,
            )).push(OutputView::Stderr("\n"@)),
            steps,
            0,
        ),
        Err(e) => over(
            seq![
                OutputView::Stderr(WIPE@),
                OutputView::Stderr(
                    painted(YELLOW@, "aura: planner error: "@ + error_message(e)) + "\n"@,
                ),
            ],
        ),
    }
}

/// The plan is given up at a step.
pub open spec fn aborted(steps: Seq<Seq<char>>, at: int) -> StageView {
    over(
        seq![
            OutputView::Stderr(
                painted(YELLOW@, "✗ Aborted at step "@ + step_count(steps, at)) + "\n"@,
            ),
        ],
    )
}

/// The user has been asked about a step.
pub open spec fn step_decided(
    steps: Seq<Seq<char>>,
    at: int,
    line: Option<Seq<char>>,
) -> StageView {
    let a = said(line);
    if a == "abort"@ || a == "a"@ {
        aborted(steps, at)
    } else if a == "skip"@ || a == "s"@ {
        next_step(
            seq![OutputView::Stderr(painted(YELLOW@, "  skipped"@) + "\n"@)],
            steps,
            at + 1,
        )
    } else if is_yes(line) {
        StageView {
            dialog: DialogView::StepRun { steps, at },
            outputs: seq![],
            demand: DemandView::Execute(steps[at]),
        }
    } else {
        next_step(
            seq![
                OutputView::Stderr(
                    painted(YELLOW@, "  skipped (unrecognised input)"@) + "\n"@,
                ),
            ],
            steps,
            at + 1,
        )
    }
}

/// A step is done. After a failure the user is asked whether to go on, unless
/// it was the last step.
pub open spec fn step_done(
    outputs: Seq<OutputView>,
    steps: Seq<Seq<char>>,
    at: int,
    status: int,
) -> StageView {
    if status != 0 && at + 1 < steps.len() {
        StageView {
            dialog: DialogView::StepFailed { steps, at },
            outputs: outputs.push(
                OutputView::Stderr(
                    painted(
                        YELLOW@,
                        "Step "@ + decimal(at + 1) + " failed (exit "@ + decimal(status)
                            + "). Continue? [Y/n]: "@,
                    ),
                ),
            ),
            demand: DemandView::ReadLine,
        }
    } else {
        next_step(outputs, steps, at + 1)
    }
}

/// A step has been run.
pub open spec fn step_run(
    steps: Seq<Seq<char>>,
    at: int,
    status: int,
    autopsy: Option<(Seq<char>, Seq<char>)>,
) -> StageView {
    match autopsy {
        Some((command, stderr)) => StageView {
            dialog: DialogView::StepAutopsy { steps, at, status },
            outputs: seq![analyzing()],
            demand: DemandView::Ask(QuestionView::Explain(command, stderr)),
        },
        None => step_done(seq![], steps, at, status),
    }
}

/// The user has been asked whether to go on after a failure.
pub open spec fn failure_decided(
    steps: Seq<Seq<char>>,
    at: int,
    line: Option<Seq<char>>,
) -> StageView {
    if said(line) == "n"@ || said(line) == "no"@ {
        aborted(steps, at)
    } else {
        next_step(seq![], steps, at + 1)
    }
}

/// Whether `r` is what the dialog `d` waits for.
pub open spec fn awaits(d: DialogView, r: ResponseView) -> bool {
    match d {
        DialogView::Command { .. } => r is Executed,
        DialogView::Suggestion => r is Answer,
        DialogView::Autopsy => r is Answer,
        DialogView::Translation => r is Answer,
        DialogView::Confirmation { .. } => r is Line,
        DialogView::Confirmed => r is Executed,
        DialogView::Chat { .. } => r is Answer,
        DialogView::FollowUp => r is Line,
        DialogView::Planning => r is Answer,
        DialogView::Step { .. } => r is Line,
        DialogView::StepRun { .. } => r is Executed,
        DialogView::StepAutopsy { .. } => r is Answer,
        DialogView::StepFailed { .. } => r is Line,
        DialogView::Over => false,
    }
}

/// A dialog about a plan is at one of its steps.
pub open spec fn sound(d: DialogView) -> bool {
    match d {
        DialogView::Step { steps, at } => 0 <= at < steps.len(),
        DialogView::StepRun { steps, at } => 0 <= at < steps.len(),
        DialogView::StepAutopsy { steps, at, .. } => 0 <= at < steps.len(),
        DialogView::StepFailed { steps, at } => 0 <= at < steps.len(),
        _ => true,
    }
}

/// What follows from a response.
pub open spec fn resumed(d: DialogView, r: ResponseView) -> StageView {
    match (d, r) {
        (DialogView::Command { line }, ResponseView::Executed(status, autopsy)) => command_run(
            line,
            status,
            autopsy,
        ),
        (DialogView::Suggestion, ResponseView::Answer(a)) => over(suggestion_outputs(a)),
        (DialogView::Autopsy, ResponseView::Answer(a)) => over(autopsy_outputs(a)),
        (DialogView::Translation, ResponseView::Answer(a)) => translated(a),
        (DialogView::Confirmation { command }, ResponseView::Line(line)) => confirmed(
            command,
            line,
        ),
        (DialogView::Confirmed, ResponseView::Executed(_, autopsy)) => explained(autopsy),
        (DialogView::Chat { .. }, ResponseView::Answer(a)) => chatted(a),
        (DialogView::FollowUp, ResponseView::Line(line)) => followed_up(line),
        (DialogView::Planning, ResponseView::Answer(a)) => planned(
            match a {
                Ok(raw) => plan(raw),
                Err(e) => Err(e),
            },
        ),
        (DialogView::Step { steps, at }, ResponseView::Line(line)) => step_decided(
            steps,
            at,
            line,
        ),
        (DialogView::StepRun { steps, at }, ResponseView::Executed(status, autopsy)) => step_run(
            steps,
            at,
            status,
            autopsy,
        ),
        (DialogView::StepAutopsy { steps, at, status }, ResponseView::Answer(a)) => step_done(
            autopsy_outputs(a),
            steps,
            at,
            status,
        ),
        (DialogView::StepFailed { steps, at }, ResponseView::Line(line)) => failure_decided(
            steps,
            at,
            line,
        ),
        _ => over(seq![]),
    }
}

/// What becomes of the conversation by a response.
pub open spec fn history_after(history: History, d: DialogView, r: ResponseView) -> History {
    match (d, r) {
        (DialogView::Chat { input }, ResponseView::Answer(a)) => answered(history, input, a),
        _ => history,
    }
}

/// What a line of input leads to. `??` is for the conversation, `?!` for plans,
/// `?` for the command that a description stands for; all else is a command
/// line.
pub open spec fn begun(line: Seq<char>, history: History) -> StageView {
    if starts_with(line, "??"@) {
        let query = trim(line.skip(2));
        if query == "reset"@ {
            over(seq![OutputView::Stdout(painted(CYAN@, "chat history cleared"@) + "\n"@)])
        } else if query == "history"@ {
            over(seq![OutputView::Stdout(history_text(history))])
        } else if query.len() == 0 {
            over(
                seq![
                    OutputView::Stderr(
                        "aura: ?? requires a message, e.g.  ?? how do I find large files\n"@,
                    ),
                ],
            )
        } else {
            chatting(query)
        }
    } else if starts_with(line, "?!"@) {
        let goal = trim(line.skip(2));
        if goal.len() == 0 {
            over(
                seq![
                    OutputView::Stderr(
                        "aura: ?! requires a goal, e.g.  ?! create a rust hello world project\n"@,
                    ),
                ],
            )
        } else {
            StageView {
                dialog: DialogView::Planning,
                outputs: seq![OutputView::Stderr(painted(CYAN@, "⟳  planning..."@))],
                demand: DemandView::Ask(QuestionView::Plan(goal)),
            }
        }
    } else if starts_with(line, "?"@) {
        let query = trim(line.skip(1));
        if query.len() == 0 {
            over(
                seq![
                    OutputView::Stderr(
                        "aura: ? requires a description, e.g.  ? list all rust files\n"@,
                    ),
                ],
            )
        } else {
            StageView {
                dialog: DialogView::Translation,
                outputs: seq![OutputView::Stderr(painted(CYAN@, "⟳  translating..."@))],
                demand: DemandView::Ask(QuestionView::Translate(query)),
            }
        }
    } else {
        StageView {
            dialog: DialogView::Command { line },
            outputs: seq![],
            demand: DemandView::Execute(line),
        }
    }
}

/// What becomes of the conversation by a line of input.
pub open spec fn history_begun(line: Seq<char>, history: History) -> History {
    if starts_with(line, "??"@) && trim(line.skip(2)) == "reset"@ {
        seq![]
    } else {
        history
    }
}

/// `text` in a colour.
fn paint(colour: &str, text: &str) -> (r: String)
    ensures
        r@ == painted(colour@, text@),
{
    let mut r = colour.to_string();
    r.append(text);
    r.append(RESET);
    r
}

/// A line in a colour.
fn paint_line(colour: &str, text: &str) -> (r: String)
    ensures
        r@ == painted(colour@, text@) + "\n"@,
{
    let mut r = paint(colour, text);
    r.append("\n");
    r
}

/// A line about an error.
fn error_line(prefix: &str, e: &AgentError) -> (r: String)
    ensures
        r@ == painted(YELLOW@, prefix@ + error_message(e@)) + "\n"@,
{
    let mut text = prefix.to_string();
    text.append(e.message().as_str());
    paint_line(YELLOW, text.as_str())
}

/// One piece of text for stderr.
fn one(text: String) -> (r: Vec<Output>)
    ensures
        output_views(r@) == seq![OutputView::Stderr(text@)],
{
    let mut r: Vec<Output> = Vec::new();
    r.push(Output::Stderr(text));
    assert(output_views(r@) =~= seq![OutputView::Stderr(text@)]);
    r
}

/// Appends a piece of text for stderr.
fn then_err(outputs: &mut Vec<Output>, text: String)
    ensures
        output_views(final(outputs)@) == output_views(old(outputs)@).push(
            OutputView::Stderr(text@),
        ),
{
    proof {
        lemma_output_push(outputs@, Output::Stderr(text));
    }
    outputs.push(Output::Stderr(text));
}

/// Two pieces of text for stderr: the wiping, and what comes after it.
fn wiped(text: String) -> (r: Vec<Output>)
    ensures
        output_views(r@) == seq![OutputView::Stderr(WIPE@), OutputView::Stderr(text@)],
{
    let mut r = one(WIPE.to_string());
    then_err(&mut r, text);
    assert(output_views(r@) =~= seq![OutputView::Stderr(WIPE@), OutputView::Stderr(text@)]);
    r
}

fn no_outputs() -> (r: Vec<Output>)
    ensures
        output_views(r@) == Seq::<OutputView>::empty(),
{
    let r: Vec<Output> = Vec::new();
    assert(output_views(r@) =~= Seq::<OutputView>::empty());
    r
}

/// The end of a dialog.
fn end(outputs: Vec<Output>) -> (r: Stage)
    ensures
        r@ == over(output_views(outputs@)),
{
    Stage { dialog: Dialog::Over, outputs, demand: Demand::Finish }
}

/// An explanation as it is shown.
pub fn print_autopsy(explanation: &str) -> (r: String)
    ensures
        r@ == autopsy_line(explanation@),
{
    let mut r = YELLOW.to_string();
    r.append(BOLD);
    r.append("✦ Autopsy:");
    r.append(RESET);
    r.append(" ");
    r.append(YELLOW);
    r.append(explanation);
    r.append(RESET);
    r.append("\n");
    r
}

/// What is shown of the answer to a question about a failed command.
fn show_autopsy(answer: &Result<String, AgentError>) -> (r: Vec<Output>)
    ensures
        output_views(r@) == autopsy_outputs(answer_view(*answer)),
{
    match answer {
        Ok(explanation) => wiped(print_autopsy(explanation.as_str())),
        Err(e) => wiped(error_line("aura: autopsy unavailable: ", e)),
    }
}

/// What is shown while an explanation is awaited.
fn show_analyzing() -> (r: Vec<Output>)
    ensures
        output_views(r@) == seq![analyzing()],
{
    let mut text = YELLOW.to_string();
    text.append(BOLD);
    text.append("✦ Autopsy: analyzing...");
    text.append(RESET);
    one(text)
}

/// Goes on to an explanation if there is material for one.
fn run_autopsy(autopsy: Option<(String, String)>) -> (r: Stage)
    ensures
        r@ == explained(autopsy_view(autopsy)),
{
    match autopsy {
        Some((command, stderr)) => Stage {
            dialog: Dialog::Autopsy,
            outputs: show_analyzing(),
            demand: Demand::Ask(Question::Explain(command, stderr)),
        },
        None => end(no_outputs()),
    }
}

/// After a command line has been run.
fn finish_command(line: String, status: i32, autopsy: Option<(String, String)>) -> (r: Stage)
    ensures
        r@ == command_run(line@, status as int, autopsy_view(autopsy)),
{
    if status == 127 {
        let cs: Vec<char> = chars_of(line.as_str());
        let name: String = match first_word_of(cs.as_slice()) {
            Some(w) => string_of(w),
            None => line,
        };
        let mut hint = name.clone();
        hint.append(": command not found");
        Stage {
            dialog: Dialog::Suggestion,
            outputs: one(paint(YELLOW, "⟳  looking up suggestion...")),
            demand: Demand::Ask(Question::Explain(name, hint)),
        }
    } else {
        run_autopsy(autopsy)
    }
}

/// What is shown of a suggestion.
fn show_suggestion(answer: Result<String, AgentError>) -> (r: Vec<Output>)
    ensures
        output_views(r@) == suggestion_outputs(answer_view(answer)),
{
    match answer {
        Ok(explanation) => wiped(print_autopsy(explanation.as_str())),
        Err(e) => wiped(error_line("aura: suggestion unavailable: ", &e)),
    }
}

/// What a line of the user says.
fn heard(line: &Option<String>) -> (r: String)
    ensures
        r@ == said(opt_view(*line)),
{
    let cs: Vec<char> = match line {
        Some(s) => chars_of(s.as_str()),
        None => Vec::new(),
    };
    assert(cs@ =~= match opt_view(*line) {
        Some(s) => s,
        None => seq![],
    });
    to_lowercase(string_of(trimmed(cs.as_slice(), Edge::White)).as_str())
}

/// Whether `text` is nothing or `y`.
fn yes(text: &str) -> (r: bool)
    ensures
        r == (text@.len() == 0 || text@ == "y"@),
{
    is_blank(text) || same(text, "y")
}

/// The command for a description.
fn handle_nl_query(answer: Result<String, AgentError>) -> (r: Stage)
    ensures
        r@ == translated(answer_view(answer)),
{
    match answer {
        Ok(command) => {
            let mut line = CYAN.to_string();
            line.append(BOLD);
            line.append("→  ");
            line.append(RESET);
            line.append(command.as_str());
            line.append("\n");
            let mut outputs = wiped(line);
            then_err(&mut outputs, paint(CYAN, "[Y/n]: "));
            let r = Stage {
                dialog: Dialog::Confirmation { command },
                outputs,
                demand: Demand::ReadLine,
            };
            assert(r@ =~= translated(answer_view(answer)));
            r
        },
        Err(e) => end(wiped(error_line("aura: ", &e))),
    }
}

/// Says something in the conversation.
fn send_chat(input: String) -> (r: Stage)
    ensures
        r@ == chatting(input@),
{
    Stage {
        outputs: one(paint(GREEN, "⟳  thinking...")),
        demand: Demand::Ask(Question::Chat(input.clone())),
        dialog: Dialog::Chat { input },
    }
}

/// The answer in the conversation.
fn show_chat(answer: Result<String, AgentError>) -> (r: Stage)
    ensures
        r@ == chatted(answer_view(answer)),
{
    match answer {
        Ok(text) => {
            let mut outputs = one(WIPE.to_string());
            let reply = paint_line(GREEN, text.as_str());
            proof {
                lemma_output_push(outputs@, Output::Stdout(reply));
            }
            outputs.push(Output::Stdout(reply));
            then_err(&mut outputs, paint(GREEN, "chat> "));
            let r = Stage { dialog: Dialog::FollowUp, outputs, demand: Demand::ReadLine };
            assert(r@ =~= chatted(answer_view(answer)));
            r
        },
        Err(e) => end(wiped(error_line("aura: chat error: ", &e))),
    }
}

/// The user may have gone on with the conversation.
fn handle_chat_query(line: Option<String>) -> (r: Stage)
    ensures
        r@ == followed_up(opt_view(line)),
{
    match line {
        Some(s) => {
            let cs: Vec<char> = chars_of(s.as_str());
            let input = string_of(trimmed(cs.as_slice(), Edge::White));
            if is_blank(input.as_str()) || same(input.as_str(), "exit")
                || same(input.as_str(), "quit") {
                end(no_outputs())
            } else {
                send_chat(input)
            }
        },
        None => end(no_outputs()),
    }
}

/// The position of a step among all.
fn push_step_count(text: &mut String, steps: &[String], at: usize)
    requires
        at < steps@.len(),
    ensures
        final(text)@ == old(text)@ + step_count(views(steps@), at as int),
{
    let total: usize = steps.len();
    push_count(text, at + 1);
    text.append("/");
    push_count(text, total);
    assert(text@ =~= old(text)@ + step_count(views(steps@), at as int));
}

/// Goes on to the step at `at`, if there is one.
fn ask_step(outputs: Vec<Output>, steps: Vec<String>, at: usize) -> (r: Stage)
    ensures
        r@ == next_step(output_views(outputs@), views(steps@), at as int),
{
    let mut outputs = outputs;
    if at < steps.len() {
        let mut text = CYAN.to_string();
        text.append("Step ");
        push_step_count(&mut text, steps.as_slice(), at);
        text.append(": ");
        text.append(RESET);
        text.append(steps[at].as_str());
        text.append(" ");
        text.append(CYAN);
        text.append("[Y/n/skip/abort]: ");
        text.append(RESET);
        then_err(&mut outputs, text);
        Stage { dialog: Dialog::Step { steps, at }, outputs, demand: Demand::ReadLine }
    } else {
        then_err(&mut outputs, paint_line(GREEN, "✓ Plan complete"));
        end(outputs)
    }
}

/// Shows a plan, and asks about its first step.
fn show_plan(answer: Result<Vec<String>, AgentError>) -> (r: Stage)
    ensures
        r@ == planned(steps_view(answer)),
{
    match answer {
        Ok(steps) => {
            let ghost all = views(steps@);
            let mut title = CYAN.to_string();
            title.append(BOLD);
            title.append("Plan (");
            push_count(&mut title, steps.len());
            if steps.len() == 1 {
                title.append(" step");
            } else {
                title.append(" steps");
            }
            title.append("):");
            title.append(RESET);
            title.append("\n");
            let mut outputs = wiped(title);
            let ghost head = seq![OutputView::Stderr(WIPE@), plan_title(all)];
            let mut i: usize = 0;
            assert(output_views(outputs@) =~= head + plan_lines(all, 0));
            while i < steps.len()
                invariant
                    i <= steps@.len(),
                    all == views(steps@),
                    output_views(outputs@) == head + plan_lines(all, i as int),
                decreases steps@.len() - i,
            {
                let mut line = "  ".to_string();
                line.append(CYAN);
                push_count(&mut line, i + 1);
                line.append(". ");
                line.append(RESET);
                line.append(steps[i].as_str());
                line.append("\n");
                then_err(&mut outputs, line);
                i += 1;
                assert(output_views(outputs@) =~= head + plan_lines(all, i as int));
            }
            then_err(&mut outputs, "\n".to_string());
            ask_step(outputs, steps, 0)
        },
        Err(e) => end(wiped(error_line("aura: planner error: ", &e))),
    }
}

/// Gives up the plan.
fn abort(steps: &[String], at: usize) -> (r: Stage)
    requires
        at < steps@.len(),
    ensures
        r@ == aborted(views(steps@), at as int),
{
    let mut text = "✗ Aborted at step ".to_string();
    push_step_count(&mut text, steps, at);
    end(one(paint_line(YELLOW, text.as_str())))
}

/// The user has been asked about a step.
fn handle_plan_query(steps: Vec<String>, at: usize, line: Option<String>) -> (r: Stage)
    requires
        at < steps@.len(),
    ensures
        r@ == step_decided(views(steps@), at as int, opt_view(line)),
{
    let total: usize = steps.len();
    assert(at < total);
    let answer = heard(&line);
    let a = answer.as_str();
    if same(a, "abort") || same(a, "a") {
        abort(steps.as_slice(), at)
    } else if same(a, "skip") || same(a, "s") {
        ask_step(one(paint_line(YELLOW, "  skipped")), steps, at + 1)
    } else if yes(a) {
        let command = steps[at].clone();
        Stage {
            dialog: Dialog::StepRun { steps, at },
            outputs: no_outputs(),
            demand: Demand::Execute(command),
        }
    } else {
        ask_step(one(paint_line(YELLOW, "  skipped (unrecognised input)")), steps, at + 1)
    }
}

/// A step is done.
fn finish_step(outputs: Vec<Output>, steps: Vec<String>, at: usize, status: i32) -> (r: Stage)
    requires
        at < steps@.len(),
    ensures
        r@ == step_done(output_views(outputs@), views(steps@), at as int, status as int),
{
    let total: usize = steps.len();
    assert(at < total);
    if status != 0 && at + 1 < total {
        let mut outputs = outputs;
        let mut text = "Step ".to_string();
        push_count(&mut text, at + 1);
        text.append(" failed (exit ");
        push_decimal(&mut text, status as i64);
        text.append("). Continue? [Y/n]: ");
        then_err(&mut outputs, paint(YELLOW, text.as_str()));
        Stage { dialog: Dialog::StepFailed { steps, at }, outputs, demand: Demand::ReadLine }
    } else {
        ask_step(outputs, steps, at + 1)
    }
}

/// Whether `response` is what `dialog` waits for.
pub fn is_awaited(dialog: &Dialog, response: &Response) -> (r: bool)
    ensures
        r == awaits(dialog@, response@),
{
    match dialog {
        Dialog::Command { .. } | Dialog::Confirmed | Dialog::StepRun { .. } => {
            matches!(response, Response::Executed(_, _))
        },
        Dialog::Confirmation { .. }
        | Dialog::FollowUp
        | Dialog::Step { .. }
        | Dialog::StepFailed { .. } => matches!(response, Response::Line(_)),
        Dialog::Over => false,
        _ => matches!(response, Response::Answer(_)),
    }
}

/// Takes a dialog further by what has come of its last demand.
pub fn resume(dialog: Dialog, response: Response, chat: &mut ChatAgent) -> (r: Stage)
    requires
        awaits(dialog@, response@),
        sound(dialog@),
    ensures
        r@ == resumed(dialog@, response@),
        sound(r.dialog@),
        final(chat)@ == history_after(old(chat)@, dialog@, response@),
{
    match (dialog, response) {
        (Dialog::Command { line }, Response::Executed(status, autopsy)) => finish_command(
            line,
            status,
            autopsy,
        ),
        (Dialog::Suggestion, Response::Answer(a)) => end(show_suggestion(a)),
        (Dialog::Autopsy, Response::Answer(a)) => end(show_autopsy(&a)),
        (Dialog::Translation, Response::Answer(a)) => handle_nl_query(a),
        (Dialog::Confirmation { command }, Response::Line(line)) => {
            if yes(heard(&line).as_str()) {
                Stage {
                    dialog: Dialog::Confirmed,
                    outputs: no_outputs(),
                    demand: Demand::Execute(command),
                }
            } else {
                end(no_outputs())
            }
        },
        (Dialog::Confirmed, Response::Executed(_, autopsy)) => run_autopsy(autopsy),
        (Dialog::Chat { input }, Response::Answer(a)) => show_chat(chat.record(input.as_str(), a)),
        (Dialog::FollowUp, Response::Line(line)) => handle_chat_query(line),
        (Dialog::Planning, Response::Answer(a)) => show_plan(read_plan(a)),
        (Dialog::Step { steps, at }, Response::Line(line)) => handle_plan_query(steps, at, line),
        (Dialog::StepRun { steps, at }, Response::Executed(status, autopsy)) => match autopsy {
            Some((command, stderr)) => Stage {
                dialog: Dialog::StepAutopsy { steps, at, status },
                outputs: show_analyzing(),
                demand: Demand::Ask(Question::Explain(command, stderr)),
            },
            None => finish_step(no_outputs(), steps, at, status),
        },
        (Dialog::StepAutopsy { steps, at, status }, Response::Answer(a)) => finish_step(
            show_autopsy(&a),
            steps,
            at,
            status,
        ),
        (Dialog::StepFailed { steps, at }, Response::Line(line)) => {
            let total: usize = steps.len();
            assert(at < total);
            let answer = heard(&line);
            if same(answer.as_str(), "n") || same(answer.as_str(), "no") {
                abort(steps.as_slice(), at)
            } else {
                ask_step(no_outputs(), steps, at + 1)
            }
        },
        _ => end(no_outputs()),
    }
}

/// What follows the first `n` characters of a line, trimmed.
fn query_after(line: &[char], n: usize) -> (r: String)
    requires
        n <= line@.len(),
    ensures
        r@ == trim(line@.skip(n as int)),
{
    let rest = slice_subrange(line, n, line.len());
    assert(rest@ =~= line@.skip(n as int));
    string_of(trimmed(rest, Edge::White))
}

/// What the line `line` of input leads to.
pub fn run_line(line: &str, chat: &mut ChatAgent) -> (r: Stage)
    ensures
        r@ == begun(line@, old(chat)@),
        sound(r.dialog@),
        final(chat)@ == history_begun(line@, old(chat)@),
{
    let cs: Vec<char> = chars_of(line);
    proof {
        reveal_strlit("??");
        reveal_strlit("?!");
        reveal_strlit("?");
    }
    if has_prefix(cs.as_slice(), chars_of("??").as_slice()) {
        let query = query_after(cs.as_slice(), 2);
        if same(query.as_str(), "reset") {
            chat.reset();
            let mut outputs: Vec<Output> = Vec::new();
            outputs.push(Output::Stdout(paint_line(CYAN, "chat history cleared")));
            let r = end(outputs);
            assert(r@ =~= begun(line@, old(chat)@));
            r
        } else if same(query.as_str(), "history") {
            let mut outputs: Vec<Output> = Vec::new();
            outputs.push(Output::Stdout(chat.print_history()));
            let r = end(outputs);
            assert(r@ =~= begun(line@, old(chat)@));
            r
        } else if is_blank(query.as_str()) {
            end(
                one(
                    "aura: ?? requires a message, e.g.  ?? how do I find large files\n".to_string(),
                ),
            )
        } else {
            send_chat(query)
        }
    } else if has_prefix(cs.as_slice(), chars_of("?!").as_slice()) {
        let goal = query_after(cs.as_slice(), 2);
        if is_blank(goal.as_str()) {
            end(
                one(
                    "aura: ?! requires a goal, e.g.  ?! create a rust hello world project\n".to_string(),
                ),
            )
        } else {
            Stage {
                dialog: Dialog::Planning,
                outputs: one(paint(CYAN, "⟳  planning...")),
                demand: Demand::Ask(Question::Plan(goal)),
            }
        }
    } else if has_prefix(cs.as_slice(), chars_of("?").as_slice()) {
        let query = query_after(cs.as_slice(), 1);
        if is_blank(query.as_str()) {
            end(
                one(
                    "aura: ? requires a description, e.g.  ? list all rust files\n".to_string(),
                ),
            )
        } else {
            Stage {
                dialog: Dialog::Translation,
                outputs: one(paint(CYAN, "⟳  translating...")),
                demand: Demand::Ask(Question::Translate(query)),
            }
        }
    } else {
        Stage {
            dialog: Dialog::Command { line: line.to_string() },
            outputs: no_outputs(),
            demand: Demand::Execute(line.to_string()),
        }
    }
}

/// The request that puts a question to the language model.
pub open spec fn question_request(
    q: QuestionView,
    history: History,
    key: Seq<char>,
) -> ApiRequestView {
    match q {
        QuestionView::Translate(input) => single_request(
            key,
            TRANSLATE_PROMPT@,
            input,
            MAX_TOKENS,
        ),
        QuestionView::Explain(command, stderr) => single_request(
            key,
            ANALYZE_PROMPT@,
            failure_report(command, stderr),
            MAX_TOKENS,
        ),
        QuestionView::Plan(goal) => single_request(key, PLAN_PROMPT@, goal, PLAN_MAX_TOKENS),
        QuestionView::Chat(input) => chat_request(
            key,
            CHAT_PROMPT@,
            history,
            input,
            CHAT_MAX_TOKENS,
        ),
    }
}

/// The request that puts `question` to the language model.
pub fn request(question: &Question, chat: &ChatAgent, env: &Environment) -> (r: Result<
    ApiRequest,
    AgentError,
>)
    ensures
        asks(r, env@, |key: Seq<char>| question_request(question@, chat@, key)),
{
    match question {
        Question::Translate(input) => translate_intent(input.as_str(), env),
        Question::Explain(command, stderr) => analyze_error(command.as_str(), stderr.as_str(), env),
        Question::Plan(goal) => plan_task(goal.as_str(), env),
        Question::Chat(input) => chat.chat(input.as_str(), env),
    }
}

// ---------------------------------------------------------------------------
// Laws
// ---------------------------------------------------------------------------

/// No command is run that the user has not typed or agreed to: a line that does
/// not start with a question mark is run as it is, and beyond that only a
/// command, or a step of a plan, about which the user was asked and said yes.
pub proof fn commands_run_only_if_agreed(
    line: Seq<char>,
    history: History,
    d: DialogView,
    r: ResponseView,
)
    ensures
        begun(line, history).demand matches DemandView::Execute(command) ==> command == line
            && !(line.len() > 0 && line[0] == '?'),
        resumed(d, r).demand matches DemandView::Execute(command) ==> {
            &&& d == (DialogView::Confirmation { command }) || (d matches DialogView::Step {
                steps,
                at,
            } && command == steps[at])
            &&& r matches ResponseView::Line(answer)
            &&& is_yes(answer)
        },
{
    reveal_strlit("?");
    if line.len() > 0 && line[0] == '?' {
        assert(line.take(1) =~= "?"@);
    }
}

/// Of the lines in ASCII exactly the blank ones and those that hold a `y`, small
/// or capital, and nothing else, say yes.
pub proof fn yes_is_y_or_nothing(line: Seq<char>)
    requires
        all_ascii(trim(line)),
    ensures
        is_yes(Some(line)) == (trim(line).len() == 0 || trim(line) == "y"@ || trim(line) == "Y"@),
        is_yes(None),
{
    reveal_strlit("y");
    reveal_strlit("Y");
    let t = trim(line);
    let low = t.map_values(|c: char| ascii_small(c));
    assert(lowercase(t) == low);
    if t == "y"@ || t == "Y"@ {
        assert(low =~= "y"@);
    }
    if low == "y"@ {
        assert(t.len() == 1);
        assert(low[0] == ascii_small(t[0]));
        if t[0] == 'y' {
            assert(t =~= "y"@);
        } else {
            assert(t[0] == 'Y');
            assert(t =~= "Y"@);
        }
    }
    let nothing = trim(Seq::<char>::empty());
    assert(nothing.len() == 0);
    assert(lowercase(nothing).len() == 0);
}

/// How far the dialog about a plan has come.
pub open spec fn progress(d: DialogView) -> int {
    match d {
        DialogView::Step { at, .. } => 4 * at,
        DialogView::StepRun { at, .. } => 4 * at + 1,
        DialogView::StepAutopsy { at, .. } => 4 * at + 2,
        DialogView::StepFailed { at, .. } => 4 * at + 3,
        _ => 0,
    }
}

/// The steps that a dialog is about, if it is about a plan.
pub open spec fn plan_of(d: DialogView) -> Option<Seq<Seq<char>>> {
    match d {
        DialogView::Step { steps, .. } => Some(steps),
        DialogView::StepRun { steps, .. } => Some(steps),
        DialogView::StepAutopsy { steps, .. } => Some(steps),
        DialogView::StepFailed { steps, .. } => Some(steps),
        _ => None,
    }
}

/// The dialog about a plan only moves forward: whatever the response, it is
/// over, or it has come further in the same plan. So it ends, its steps come up
/// in order, and none is run twice.
pub proof fn plans_move_forward(d: DialogView, r: ResponseView)
    requires
        sound(d),
        awaits(d, r),
        plan_of(d) is Some,
    ensures
        resumed(d, r).dialog is Over || {
            &&& plan_of(resumed(d, r).dialog) == plan_of(d)
            &&& progress(d) < progress(resumed(d, r).dialog) < 4 * plan_of(d)->Some_0.len()
        },
        sound(resumed(d, r).dialog),
{
}

/// A dialog is over if and only if nothing more is needed; otherwise what is
/// needed next is what it waits for.
pub proof fn demands_fit_their_dialogs(
    line: Seq<char>,
    history: History,
    d: DialogView,
    r: ResponseView,
)
    requires
        awaits(d, r),
    ensures
        fits(begun(line, history)),
        fits(resumed(d, r)),
{
}

/// Whether the response to the demand of a stage is what its dialog waits for.
pub open spec fn fits(s: StageView) -> bool {
    match s.demand {
        DemandView::Ask(_) => forall|a: Result<Seq<char>, AgentErrorView>| #[trigger]
            awaits(s.dialog, ResponseView::Answer(a)),
        DemandView::ReadLine => forall|l: Option<Seq<char>>| #[trigger]
            awaits(s.dialog, ResponseView::Line(l)),
        DemandView::Execute(_) => forall|status: int, a: Option<(Seq<char>, Seq<char>)>| #[trigger]
            awaits(s.dialog, ResponseView::Executed(status, a)),
        DemandView::Finish => s.dialog is Over,
    }
}

/// Without a key, whatever is asked of the language model brings a warning in
/// yellow, and nothing is run or remembered. The dialog is over, unless it is
/// about a step of a plan, with which it goes on.
pub proof fn a_missing_key_is_a_warning(d: DialogView, history: History)
    requires
        awaits(d, ResponseView::Answer(Err(AgentErrorView::NoApiKey))),
    ensures
        ({
            let r = ResponseView::Answer(Err(AgentErrorView::NoApiKey));
            let s = resumed(d, r);
            &&& s.outputs.len() >= 2
            &&& s.outputs[0] == OutputView::Stderr(WIPE@)
            &&& s.outputs[1] matches OutputView::Stderr(text) && exists|prefix: Seq<char>|
                text == #[trigger] painted(
                    YELLOW@,
                    prefix + error_message(AgentErrorView::NoApiKey),
                ) + "\n"@
            &&& !(s.demand is Execute)
            &&& history_after(history, d, r) == history
            &&& !(d is StepAutopsy) ==> s.dialog is Over && s.outputs.len() == 2
        }),
{
    let m = error_message(AgentErrorView::NoApiKey);
    let prefix = match d {
        DialogView::Suggestion => "aura: suggestion unavailable: "@,
        DialogView::Translation => "aura: "@,
        DialogView::Chat { .. } => "aura: chat error: "@,
        DialogView::Planning => "aura: planner error: "@,
        _ => "aura: autopsy unavailable: "@,
    };
    let s = resumed(d, ResponseView::Answer(Err(AgentErrorView::NoApiKey)));
    assert(s.outputs[1] == OutputView::Stderr(painted(YELLOW@, prefix + m) + "\n"@));
}

/// The step that a dialog about a plan is at.
pub open spec fn step_at(d: DialogView) -> int {
    match d {
        DialogView::Step { at, .. } => at,
        DialogView::StepRun { at, .. } => at,
        DialogView::StepAutopsy { at, .. } => at,
        DialogView::StepFailed { at, .. } => at,
        _ => 0,
    }
}

/// Whether the user gives up a plan: with `abort` or `a` when asked about a
/// step, or with `n` or `no` when asked whether to go on after a failure.
pub open spec fn gives_up(d: DialogView, r: ResponseView) -> bool {
    match (d, r) {
        (DialogView::Step { .. }, ResponseView::Line(line)) => said(line) == "abort"@ || said(line)
            == "a"@,
        (DialogView::StepFailed { .. }, ResponseView::Line(line)) => said(line) == "n"@ || said(
            line,
        ) == "no"@,
        _ => false,
    }
}

/// Whether `next` asks about the step after `at`, or, after the last one, says
/// that the plan is complete.
pub open spec fn goes_on_after(next: StageView, steps: Seq<Seq<char>>, at: int) -> bool {
    if at + 1 < steps.len() {
        &&& next.dialog == (DialogView::Step { steps, at: at + 1 })
        &&& next.demand == DemandView::ReadLine
        &&& next.outputs.len() > 0
        &&& next.outputs.last() == OutputView::Stderr(
            CYAN@ + "Step "@ + (decimal(at + 2) + "/"@ + decimal(steps.len() as int)) + ": "@
                + RESET@ + steps[at + 1] + " "@ + CYAN@ + "[Y/n/skip/abort]: "@ + RESET@,
        )
    } else {
        &&& next.dialog == DialogView::Over
        &&& next.demand == DemandView::Finish
        &&& next.outputs.len() > 0
        &&& next.outputs.last() == OutputView::Stderr(
            GREEN@ + "✓ Plan complete"@ + RESET@ + "\n"@,
        )
    }
}

/// No step of a plan is left out. A response keeps the dialog at its step, or
/// brings it to the very next one; the dialog is over only after the last step,
/// or when the user has given up.
pub proof fn no_step_is_left_out(d: DialogView, r: ResponseView)
    requires
        sound(d),
        awaits(d, r),
        plan_of(d) is Some,
    ensures
        ({
            let steps = plan_of(d)->Some_0;
            let at = step_at(d);
            let next = resumed(d, r);
            &&& match next.dialog {
                DialogView::Step { .. } => step_at(next.dialog) == at + 1,
                DialogView::StepRun { .. } => step_at(next.dialog) == at && d is Step,
                DialogView::StepAutopsy { .. } => step_at(next.dialog) == at && d is StepRun,
                DialogView::StepFailed { .. } => step_at(next.dialog) == at && (d is StepRun
                    || d is StepAutopsy),
                DialogView::Over => at + 1 == steps.len() || gives_up(d, r),
                _ => false,
            }
            &&& next.dialog is Over || plan_of(next.dialog) == Some(steps)
            &&& gives_up(d, r) ==> next.dialog is Over
        }),
{
}

/// A step that the user agrees to is run; one that the user does not give up the
/// plan at, or agree to, is passed over, with a note.
pub proof fn steps_are_run_or_passed_over(
    steps: Seq<Seq<char>>,
    at: int,
    line: Option<Seq<char>>,
)
    requires
        0 <= at < steps.len(),
    ensures
        ({
            let d = DialogView::Step { steps, at };
            let r = ResponseView::Line(line);
            let next = resumed(d, r);
            &&& said(line).len() == 0 || said(line) == "y"@ ==> {
                &&& next.dialog == (DialogView::StepRun { steps, at })
                &&& next.demand == DemandView::Execute(steps[at])
                &&& next.outputs.len() == 0
            }
            &&& said(line).len() > 0 && said(line) != "y"@ && !gives_up(d, r) ==> {
                &&& goes_on_after(next, steps, at)
                &&& next.outputs.len() == 2
                &&& next.outputs[0] == OutputView::Stderr(
                    YELLOW@ + (if said(line) == "s"@ || said(line) == "skip"@ {
                        "  skipped"@
                    } else {
                        "  skipped (unrecognised input)"@
                    }) + RESET@ + "\n"@,
                )
            }
            &&& gives_up(d, r) ==> next == over(
                seq![
                    OutputView::Stderr(
                        YELLOW@ + ("✗ Aborted at step "@ + (decimal(at + 1) + "/"@ + decimal(
                            steps.len() as int,
                        ))) + RESET@ + "\n"@,
                    ),
                ],
            )
        }),
{
    reveal_strlit("y");
    reveal_strlit("a");
    reveal_strlit("s");
    reveal_strlit("abort");
    reveal_strlit("skip");
    if said(line) == "y"@ {
        assert("y"@[0] == 'y' && "a"@[0] == 'a' && "s"@[0] == 's');
    }
}

/// After a step has been run, there is an autopsy if and only if there is
/// material for one. After that, a failure at a step that is not the last is
/// pointed out, and the user decides whether to go on; in all other cases the
/// dialog goes on.
pub proof fn failures_are_pointed_out(
    steps: Seq<Seq<char>>,
    at: int,
    status: int,
    autopsy: Option<(Seq<char>, Seq<char>)>,
    answer: Result<Seq<char>, AgentErrorView>,
    line: Option<Seq<char>>,
)
    requires
        0 <= at < steps.len(),
    ensures
        ({
            let run = resumed(
                DialogView::StepRun { steps, at },
                ResponseView::Executed(status, autopsy),
            );
            let told = resumed(
                DialogView::StepAutopsy { steps, at, status },
                ResponseView::Answer(answer),
            );
            let failed = DialogView::StepFailed { steps, at };
            let decided = resumed(failed, ResponseView::Line(line));
            let question = OutputView::Stderr(
                YELLOW@ + ("Step "@ + decimal(at + 1) + " failed (exit "@ + decimal(status)
                    + "). Continue? [Y/n]: "@) + RESET@,
            );
            let asked = status != 0 && at + 1 < steps.len();
            &&& autopsy matches Some((command, stderr)) ==> run.dialog == (
            DialogView::StepAutopsy { steps, at, status }) && run.demand == DemandView::Ask(
                QuestionView::Explain(command, stderr),
            )
            &&& autopsy is None && asked ==> run.dialog == failed && run.demand
                == DemandView::ReadLine && run.outputs == seq![question]
            &&& autopsy is None && !asked ==> goes_on_after(run, steps, at)
            &&& told.outputs.take(2) == autopsy_outputs(answer)
            &&& asked ==> told.dialog == failed && told.demand == DemandView::ReadLine
                && told.outputs.last() == question
            &&& !asked ==> goes_on_after(told, steps, at)
            &&& said(line) != "n"@ && said(line) != "no"@ ==> goes_on_after(decided, steps, at)
        }),
{
    let told = resumed(
        DialogView::StepAutopsy { steps, at, status },
        ResponseView::Answer(answer),
    );
    assert(told.outputs.take(2) =~= autopsy_outputs(answer));
    let run = resumed(DialogView::StepRun { steps, at }, ResponseView::Executed(status, None));
    if status != 0 && at + 1 < steps.len() {
        assert(run.outputs =~= seq![run.outputs[0]]);
    }
}

/// A plan is shown whole, each step under its number, and the user is asked
/// about its first step.
pub proof fn plans_are_shown_whole(raw: Seq<char>)
    ensures
        ({
            let next = resumed(DialogView::Planning, ResponseView::Answer(Ok(raw)));
            plan(raw) matches Ok(steps) ==> steps.len() > 0 ==> {
                &&& next.dialog == (DialogView::Step { steps, at: 0 })
                &&& next.outputs.len() == steps.len() + 4
                &&& forall|i: int|
                    0 <= i < steps.len() ==> #[trigger] next.outputs[i + 2] == OutputView::Stderr(
                        "  "@ + CYAN@ + decimal(i + 1) + ". "@ + RESET@ + steps[i] + "\n"@,
                    )
                &&& goes_on_after(next, steps, -1)
            }
        }),
{
    if let Ok(steps) = plan(raw) {
        lemma_plan_lines(steps, steps.len() as int);
        let next = resumed(DialogView::Planning, ResponseView::Answer(Ok(raw)));
        if steps.len() > 0 {
            assert forall|i: int| 0 <= i < steps.len() implies #[trigger] next.outputs[i + 2]
                == OutputView::Stderr(
                "  "@ + CYAN@ + decimal(i + 1) + ". "@ + RESET@ + steps[i] + "\n"@,
            ) by {
                assert(next.outputs[i + 2] == plan_lines(steps, steps.len() as int)[i]);
            }
        }
    }
}

proof fn lemma_plan_lines(steps: Seq<Seq<char>>, n: int)
    requires
        0 <= n <= steps.len(),
    ensures
        plan_lines(steps, n).len() == n,
        forall|i: int|
            0 <= i < n ==> #[trigger] plan_lines(steps, n)[i] == OutputView::Stderr(
                "  "@ + CYAN@ + decimal(i + 1) + ". "@ + RESET@ + steps[i] + "\n"@,
            ),
    decreases n,
{
    if n > 0 {
        lemma_plan_lines(steps, n - 1);
        assert forall|i: int| 0 <= i < n implies #[trigger] plan_lines(steps, n)[i]
            == OutputView::Stderr(
            "  "@ + CYAN@ + decimal(i + 1) + ". "@ + RESET@ + steps[i] + "\n"@,
        ) by {
            if i < n - 1 {
                assert(plan_lines(steps, n)[i] == plan_lines(steps, n - 1)[i]);
            }
        }
    }
}

/// Whether each of `responses` is awaited when it comes, and none gives up.
pub open spec fn goes_through(d: DialogView, responses: Seq<ResponseView>) -> bool
    decreases responses.len(),
{
    responses.len() > 0 ==> {
        let r = responses[0];
        &&& awaits(d, r)
        &&& !gives_up(d, r)
        &&& goes_through(resumed(d, r).dialog, responses.skip(1))
    }
}

/// Where a dialog is after `responses`.
pub open spec fn dialog_after(d: DialogView, responses: Seq<ResponseView>) -> DialogView
    decreases responses.len(),
{
    if responses.len() == 0 {
        d
    } else {
        dialog_after(resumed(d, responses[0]).dialog, responses.skip(1))
    }
}

/// The steps that the user is asked about from `d` on, in order.
pub open spec fn steps_asked(d: DialogView, responses: Seq<ResponseView>) -> Seq<int>
    decreases responses.len(),
{
    (match d {
        DialogView::Step { at, .. } => seq![at],
        _ => seq![],
    }) + if responses.len() == 0 {
        seq![]
    } else {
        steps_asked(resumed(d, responses[0]).dialog, responses.skip(1))
    }
}

/// If the user does not give up, the dialog about a plan asks about every step,
/// from the first to the last, once and in order, whatever else happens.
pub proof fn every_step_is_asked_about(steps: Seq<Seq<char>>, responses: Seq<ResponseView>)
    requires
        steps.len() > 0,
        goes_through(DialogView::Step { steps, at: 0 }, responses),
    ensures
        ({
            let d = DialogView::Step { steps, at: 0 };
            let asked = steps_asked(d, responses);
            &&& forall|i: int| 0 <= i < asked.len() ==> asked[i] == i
            &&& dialog_after(d, responses) is Over ==> asked.len() == steps.len()
        }),
{
    lemma_steps_asked(DialogView::Step { steps, at: 0 }, responses);
}

proof fn lemma_steps_asked(d: DialogView, responses: Seq<ResponseView>)
    requires
        sound(d),
        d is Over || plan_of(d) is Some,
        goes_through(d, responses),
    ensures
        ({
            let asked = steps_asked(d, responses);
            let first = step_at(d) + if d is Step {
                0int
            } else {
                1
            };
            &&& d is Over ==> asked.len() == 0 && responses.len() == 0
            &&& !(d is Over) ==> forall|i: int| 0 <= i < asked.len() ==> asked[i] == first + i
            &&& !(d is Over) && dialog_after(d, responses) is Over ==> first + asked.len()
                == plan_of(d)->Some_0.len()
        }),
    decreases responses.len(),
{
    if responses.len() > 0 {
        let r = responses[0];
        let next = resumed(d, r).dialog;
        plans_move_forward(d, r);
        no_step_is_left_out(d, r);
        let rest = responses.skip(1);
        lemma_steps_asked(next, rest);
        let asked = steps_asked(d, responses);
        let more = steps_asked(next, rest);
        let k: int = asked.len() - more.len();
        assert(k == if d is Step {
            1int
        } else {
            0
        });
        assert forall|i: int| k <= i < asked.len() implies asked[i] == more[i - k] by {}
    }
}

/// The question marks at the front of a line choose what it leads to: two for
/// the conversation, one and an exclamation mark for a plan, one for the command
/// that a description stands for. What follows is what is asked, without white
/// space at its edges, and nothing is asked if that leaves nothing.
pub proof fn question_marks_choose_the_way(rest: Seq<char>, history: History)
    ensures
        ({
            let chat = begun("??"@ + rest, history);
            let plan = begun("?!"@ + rest, history);
            let command = begun("?"@ + rest, history);
            let query = trim(rest);
            &&& chat.demand == (if query.len() == 0 || query == "reset"@ || query == "history"@ {
                DemandView::Finish
            } else {
                DemandView::Ask(QuestionView::Chat(query))
            })
            &&& query == "history"@ ==> chat.outputs == seq![
                OutputView::Stdout(history_text(history)),
            ]
            &&& history_begun("??"@ + rest, history) == (if query == "reset"@ {
                seq![]
            } else {
                history
            })
            &&& plan.demand == (if query.len() == 0 {
                DemandView::Finish
            } else {
                DemandView::Ask(QuestionView::Plan(query))
            })
            &&& history_begun("?!"@ + rest, history) == history
            &&& !(rest.len() > 0 && (rest[0] == '?' || rest[0] == '!')) ==> command.demand == (if query.len()
                == 0 {
                DemandView::Finish
            } else {
                DemandView::Ask(QuestionView::Translate(query))
            }) && history_begun("?"@ + rest, history) == history
        }),
{
    reveal_strlit("?");
    reveal_strlit("??");
    reveal_strlit("?!");
    reveal_strlit("reset");
    reveal_strlit("history");
    assert("reset"@.len() != "history"@.len());
    let chat = "??"@ + rest;
    assert(chat.take(2) =~= "??"@);
    assert(chat.skip(2) =~= rest);
    let plan = "?!"@ + rest;
    assert(plan.take(2) =~= "?!"@);
    assert(plan.take(2)[1] == '!');
    assert("??"@[1] == '?');
    assert(plan.skip(2) =~= rest);
    let command = "?"@ + rest;
    assert(command.take(1) =~= "?"@);
    assert(command.skip(1) =~= rest);
    if rest.len() > 0 {
        assert(command.take(2)[1] == rest[0]);
    }
}

/// A line without a question mark at its front is a command line, and leaves the
/// conversation as it is.
pub proof fn other_lines_are_commands(line: Seq<char>, history: History)
    requires
        !(line.len() > 0 && line[0] == '?'),
    ensures
        begun(line, history).dialog == (DialogView::Command { line }),
        begun(line, history).demand == DemandView::Execute(line),
        begun(line, history).outputs.len() == 0,
        history_begun(line, history) == history,
{
    reveal_strlit("?");
    reveal_strlit("??");
    reveal_strlit("?!");
    if line.len() > 0 {
        assert(line.take(1)[0] == line[0]);
        assert("?"@[0] == '?' && "??"@[0] == '?' && "?!"@[0] == '?');
        if line.len() > 1 {
            assert(line.take(2)[0] == line[0]);
        }
    }
}

/// The conversation goes on as long as there are answers and the user has
/// something to say: what is said, without white space at its edges, is what is
/// asked next. An empty line, `exit`, `quit` or the end of the input end it.
pub proof fn conversations_go_on(
    input: Seq<char>,
    answer: Seq<char>,
    line: Seq<char>,
    history: History,
)
    ensures
        ({
            let d = DialogView::Chat { input };
            let r = ResponseView::Answer(Ok(answer));
            let next = resumed(d, r);
            &&& next.dialog == DialogView::FollowUp
            &&& next.demand == DemandView::ReadLine
            &&& next.outputs.contains(OutputView::Stdout(GREEN@ + answer + RESET@ + "\n"@))
            &&& history_after(history, d, r) == history.push((input, answer))
        }),
        ({
            let t = trim(line);
            let next = resumed(DialogView::FollowUp, ResponseView::Line(Some(line)));
            if t.len() > 0 && t != "exit"@ && t != "quit"@ {
                next.dialog == (DialogView::Chat { input: t }) && next.demand == DemandView::Ask(
                    QuestionView::Chat(t),
                )
            } else {
                next == over(seq![])
            }
        }),
        resumed(DialogView::FollowUp, ResponseView::Line(None)) == over(seq![]),
{
    let next = resumed(DialogView::Chat { input }, ResponseView::Answer(Ok(answer)));
    assert(next.outputs[1] == OutputView::Stdout(painted(GREEN@, answer) + "\n"@));
}

/// A command that was not found is asked about by the first word of its line;
/// of any other command line the autopsy is asked for exactly if there is
/// material for one, with that material.
pub proof fn failed_commands_are_asked_about(
    blank: Seq<char>,
    name: Seq<char>,
    rest: Seq<char>,
    status: int,
    autopsy: Option<(Seq<char>, Seq<char>)>,
)
    requires
        forall|i: int| 0 <= i < blank.len() ==> is_space(#[trigger] blank[i]),
        forall|i: int| 0 <= i < name.len() ==> !is_space(#[trigger] name[i]),
        rest.len() > 0 ==> is_space(rest[0]),
        name.len() > 0,
    ensures
        ({
            let r = ResponseView::Executed(status, autopsy);
            let next = resumed(DialogView::Command { line: blank + name + rest }, r);
            &&& status == 127 ==> next.dialog == DialogView::Suggestion && next.demand
                == DemandView::Ask(QuestionView::Explain(name, name + ": command not found"@))
            &&& status != 127 ==> next.demand == (match autopsy {
                Some((command, stderr)) => DemandView::Ask(QuestionView::Explain(command, stderr)),
                None => DemandView::Finish,
            })
            &&& resumed(DialogView::Confirmed, r).demand == (match autopsy {
                Some((command, stderr)) => DemandView::Ask(QuestionView::Explain(command, stderr)),
                None => DemandView::Finish,
            })
        }),
{
    the_first_word_stands_between_blanks(blank, name, rest);
}

/// A command that a description stands for is shown, and run if and only if the
/// user says yes.
pub proof fn descriptions_become_commands(command: Seq<char>, line: Option<Seq<char>>)
    ensures
        ({
            let next = resumed(DialogView::Translation, ResponseView::Answer(Ok(command)));
            let d = DialogView::Confirmation { command };
            &&& next.dialog == d
            &&& next.demand == DemandView::ReadLine
            &&& next.outputs.contains(
                OutputView::Stderr(CYAN@ + BOLD@ + "→  "@ + RESET@ + command + "\n"@),
            )
            &&& resumed(d, ResponseView::Line(line)).demand == (if said(line).len() == 0 || said(
                line,
            ) == "y"@ {
                DemandView::Execute(command)
            } else {
                DemandView::Finish
            })
        }),
{
    let next = resumed(DialogView::Translation, ResponseView::Answer(Ok(command)));
    assert(next.outputs[1] == OutputView::Stderr(
        CYAN@ + BOLD@ + "→  "@ + RESET@ + command + "\n"@,
    ));
}

/// What a line of the user says does not depend on white space at its edges,
/// nor, in ASCII, on capitals.
pub proof fn edges_and_capitals_say_nothing(line: Seq<char>)
    ensures
        said(Some(line)) == lowercase(trim(line)),
        all_ascii(trim(line)) ==> said(Some(line)) == trim(line).map_values(
            |c: char| ascii_small(c),
        ),
        said(None).len() == 0,
{
    let nothing = trim(Seq::<char>::empty());
    assert(nothing.len() == 0);
    assert(lowercase(nothing).len() == 0);
}

/// A directory below the home directory is shown with a tilde in place of the
/// home directory, and any other as it is.
pub proof fn home_is_shown_as_a_tilde(cwd: Seq<char>, home: Seq<char>, rest: Seq<char>)
    ensures
        home.len() > 0 ==> shown_dir(home + rest, Some(home)) == "~"@ + rest,
        !starts_with(cwd, home) ==> shown_dir(cwd, Some(home)) == cwd,
        shown_dir(cwd, Some(Seq::<char>::empty())) == cwd,
        shown_dir(cwd, None) == cwd,
{
    a_prefix_has_something_behind_it(home + rest, home, rest);
    assert((home + rest).skip(home.len() as int) =~= rest);
}

/// A file in a directory is the directory, one slash, and the name, whether or
/// not the directory is written with a slash at its end.
pub proof fn one_slash_is_before_a_file(dir: Seq<char>, name: Seq<char>)
    ensures
        dir.len() > 0 && dir.last() != '/' ==> file_in(dir, name) == dir + "/"@ + name,
        dir.len() > 0 && dir.last() != '/' ==> file_in(dir + "/"@, name) == file_in(dir, name),
        dir.len() > 0 && dir.last() == '/' ==> file_in(dir, name) == dir + name,
{
    reveal_strlit("/");
    assert((dir + "/"@).last() == '/');
}

/// An explanation is shown as it is, and so is the reason why there is none;
/// after either the dialog about a command line is over.
pub proof fn explanations_are_shown(explanation: Seq<char>, error: AgentErrorView, d: DialogView)
    requires
        d is Suggestion || d is Autopsy,
    ensures
        ({
            let told = resumed(d, ResponseView::Answer(Ok(explanation)));
            let untold = resumed(d, ResponseView::Answer(Err(error)));
            &&& told.dialog is Over && untold.dialog is Over
            &&& told.outputs == seq![
                OutputView::Stderr(WIPE@),
                OutputView::Stderr(
                    YELLOW@ + BOLD@ + "✦ Autopsy:"@ + RESET@ + " "@ + YELLOW@ + explanation
                        + RESET@ + "\n"@,
                ),
            ]
            &&& untold.outputs == seq![
                OutputView::Stderr(WIPE@),
                OutputView::Stderr(
                    YELLOW@ + ((if d is Suggestion {
                        "aura: suggestion unavailable: "@
                    } else {
                        "aura: autopsy unavailable: "@
                    }) + error_message(error)) + RESET@ + "\n"@,
                ),
            ]
        }),
{
}

/// Whatever goes wrong with a translation, a conversation or a plan is said, and
/// ends the dialog; nothing of it is remembered.
pub proof fn failures_end_the_dialog(
    error: AgentErrorView,
    raw: Seq<char>,
    input: Seq<char>,
    history: History,
)
    ensures
        ({
            let r = ResponseView::Answer(Err(error));
            let text = |prefix: Seq<char>, e: AgentErrorView|
                seq![
                    OutputView::Stderr(WIPE@),
                    OutputView::Stderr(YELLOW@ + (prefix + error_message(e)) + RESET@ + "\n"@),
                ];
            &&& resumed(DialogView::Translation, r) == over(text("aura: "@, error))
            &&& resumed(DialogView::Chat { input }, r) == over(text("aura: chat error: "@, error))
            &&& history_after(history, DialogView::Chat { input }, r) == history
            &&& resumed(DialogView::Planning, r) == over(text("aura: planner error: "@, error))
            &&& plan(raw) matches Err(e) ==> resumed(
                DialogView::Planning,
                ResponseView::Answer(Ok(raw)),
            ) == over(text("aura: planner error: "@, e))
        }),
{
}

} // verus!
