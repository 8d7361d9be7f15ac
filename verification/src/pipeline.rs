//! The stages of a pipeline: how they are connected, and what they come to together.

use vstd::prelude::*;

use crate::command::{CommandResult, Limits};
use crate::env::Env;
use crate::exec;
use crate::exec::{Admission, CommandTiming, ExecState, Stop, TimingView};
use crate::expand;
use crate::redirect;
use crate::redirect::{CaptureFd, OutputDestination, RedirectPlan, RedirectTable};
use crate::session;
use crate::session::{Dispatch, Session};
use crate::shell::{SimpleCommand, SimpleView};
use crate::text;
use crate::vfs::{Errno, VfsError};

verus! {

/// Where a stage reads from: nowhere, the pipe with an index, or the file of a redirect.
#[derive(Debug, Clone, Copy, PartialEq, Eq, Structural)]
pub enum StageInput {
    Empty,
    Pipe(usize),
    File(usize),
}

/// Where an output of a stage goes.
#[derive(Debug, Clone, Copy, PartialEq, Eq, Structural)]
pub enum StageOutput {
    Stdout,
    Stderr,
    Pipe(usize),
    File(usize),
}

/// How a stage is connected.
#[derive(Debug, Clone, Copy, PartialEq, Eq, Structural)]
pub struct Wiring {
    pub stdin: StageInput,
    pub stdout: StageOutput,
    pub stderr: StageOutput,
}

/// Where an output of the stage with an index goes. What would be captured as the first output
/// goes into the pipe behind the stage, unless it is the last one.
pub open spec fn output_of(to: OutputDestination, index: int, total: int) -> StageOutput {
    match to {
        OutputDestination::Capture(CaptureFd::Stdout) => if index + 1 < total {
            StageOutput::Pipe(index as usize)
        } else {
            StageOutput::Stdout
        },
        OutputDestination::Capture(CaptureFd::Stderr) => StageOutput::Stderr,
        OutputDestination::File(i) => StageOutput::File(i),
    }
}

/// How the stage with an index is connected, of a pipeline with so many stages.
pub open spec fn wiring(table: RedirectTable, index: int, total: int) -> Wiring {
    Wiring {
        stdin: match table.stdin {
            Some(i) => StageInput::File(i),
            None => if index == 0 {
                StageInput::Empty
            } else {
                StageInput::Pipe((index - 1) as usize)
            },
        },
        stdout: output_of(table.stdout, index, total),
        stderr: output_of(table.stderr, index, total),
    }
}

fn wire_output(to: OutputDestination, index: usize, total: usize) -> (r: StageOutput)
    requires
        index < total,
    ensures
        r == output_of(to, index as int, total as int),
{
    match to {
        OutputDestination::Capture(CaptureFd::Stdout) => {
            if index < total - 1 {
                StageOutput::Pipe(index)
            } else {
                StageOutput::Stdout
            }
        },
        OutputDestination::Capture(CaptureFd::Stderr) => StageOutput::Stderr,
        OutputDestination::File(i) => StageOutput::File(i),
    }
}

/// Connects a stage.
pub fn wire_stage(table: RedirectTable, index: usize, total: usize) -> (r: Wiring)
    requires
        index < total,
    ensures
        r == wiring(table, index as int, total as int),
{
    let stdin = match table.stdin {
        Some(i) => StageInput::File(i),
        None => {
            if index == 0 {
                StageInput::Empty
            } else {
                StageInput::Pipe(index - 1)
            }
        },
    };
    Wiring {
        stdin,
        stdout: wire_output(table.stdout, index, total),
        stderr: wire_output(table.stderr, index, total),
    }
}

/// Whether a stage writes into the pipe behind it.
pub fn feeds_pipe(wiring: Wiring) -> (r: bool)
    ensures
        r == (wiring.stdout is Pipe || wiring.stderr is Pipe),
{
    let first = match wiring.stdout {
        StageOutput::Pipe(_) => true,
        _ => false,
    };
    let second = match wiring.stderr {
        StageOutput::Pipe(_) => true,
        _ => false,
    };
    first || second
}

/// A pipe is written by the stage before it alone, and read by the stage behind it alone.
pub proof fn law_pipes_join_neighbours(
    writer: RedirectTable,
    i: int,
    reader: RedirectTable,
    j: int,
    total: int,
    pipe: usize,
)
    requires
        0 <= i < total <= usize::MAX,
        0 <= j < total,
        wiring(writer, i, total).stdout == StageOutput::Pipe(pipe) || wiring(
            writer,
            i,
            total,
        ).stderr == StageOutput::Pipe(pipe),
        wiring(reader, j, total).stdin == StageInput::Pipe(pipe),
    ensures
        j == i + 1,
        pipe == i,
{
}

/// Where both outputs of a command go to the same place, they do so in a pipeline too: `2>&1`
/// before a pipe sends the second output into the pipe.
pub proof fn law_duplicated_output_follows_into_the_pipe(
    table: RedirectTable,
    index: int,
    total: int,
)
    requires
        table.stdout == table.stderr,
    ensures
        wiring(table, index, total).stdout == wiring(table, index, total).stderr,
{
}

// ---- what a stage is ----

/// What becomes of a stage.
#[derive(Debug, PartialEq, Eq)]
pub enum StageKind {
    /// It runs a command.
    Command,
    /// It only sets variables, which has no effect in a pipeline.
    AssignmentOnly,
    /// Its redirects have failed.
    Failed { message: String },
}

/// A stage that is ready to have its files opened.
#[derive(Debug)]
pub struct StagePlan {
    pub name: String,
    pub args: Vec<String>,
    pub env: Env,
    pub redirects: RedirectPlan,
    /// Whether the stage has a command, which is then counted and timed.
    pub counts_command: bool,
}

/// The words of a stage.
pub open spec fn stage_words(
    simple: SimpleView,
    env: Map<Seq<char>, Seq<char>>,
    status: int,
) -> Seq<Seq<char>> {
    expand::words_fields(simple.words, simple.words.len() as int, env, status)
}

/// The variables that a stage sees.
pub open spec fn stage_env(
    simple: SimpleView,
    env: Map<Seq<char>, Seq<char>>,
    status: int,
) -> Map<Seq<char>, Seq<char>> {
    session::visible_env(env, expand::assigned_pairs(simple.assignments, env, status), status)
}

/// The variables that the redirects of a stage see: those of the session, unless the stage only
/// sets variables.
pub open spec fn stage_redirect_env(
    simple: SimpleView,
    env: Map<Seq<char>, Seq<char>>,
    status: int,
) -> Map<Seq<char>, Seq<char>> {
    if stage_words(simple, env, status).len() == 0 {
        stage_env(simple, env, status)
    } else {
        env
    }
}

/// Whether redirects were planned as a command with these variables asks for.
pub open spec fn planned(
    plan: RedirectPlan,
    simple: SimpleView,
    env: Map<Seq<char>, Seq<char>>,
    status: int,
) -> bool {
    let n = redirect::accepted(simple.redirects, env, status, 0);
    &&& plan.actions@.len() == n
    &&& forall|i: int|
        0 <= i < n ==> redirect::action_of(#[trigger] simple.redirects[i], env, status) == Ok::<
            redirect::ActionView,
            (Seq<char>, Errno),
        >(plan.actions@[i]@)
    &&& plan.table == redirect::table_after(simple.redirects, n, env, status)
    &&& n == simple.redirects.len() <==> plan.failure is None
    &&& n < simple.redirects.len() ==> {
        &&& redirect::action_of(simple.redirects[n], env, status) matches Err((path, errno))
        &&& plan.failure matches Some((p, err))
        &&& p@ == path
        &&& err.errno == errno
    }
}

/// Plans a stage of a pipeline. The session is not changed, whatever the stage does.
pub fn plan_stage(simple: &SimpleCommand, session: &Session, last_status: i32) -> (r: StagePlan)
    ensures
        ({
            let env = session@.env;
            let status = last_status as int;
            let words = stage_words(simple@, env, status);
            &&& r.name@ == session::stage_name(simple@, words)
            &&& text::texts(r.args@) == (if words.len() == 0 {
                Seq::empty()
            } else {
                words.skip(1)
            })
            &&& r.env@ == stage_env(simple@, env, status)
            &&& r.counts_command == (words.len() > 0)
            &&& planned(r.redirects, simple@, stage_redirect_env(simple@, env, status), status)
        }),
{
    let command = session::prepare_command(simple, &session.env, last_status);
    let name = session::name_of_stage(simple, &command);
    let args = command.args();
    let env = session::command_env(&session.env, &command, last_status);
    let redirects = if command.words.len() == 0 {
        redirect::plan_redirects(&simple.redirects, &env, last_status)
    } else {
        redirect::plan_redirects(&simple.redirects, &session.env, last_status)
    };
    let counts_command = command.words.len() > 0;
    StagePlan { name, args, env, redirects, counts_command }
}

/// The status that a command finds among its variables: none where there is no number.
pub open spec fn status_in(env: Map<Seq<char>, Seq<char>>) -> int {
    match text::parsed_i32(env["?"@]) {
        Some(status) if env.dom().contains("?"@) => status,
        _ => 0,
    }
}

/// The session that a command which the shell runs itself changes within a pipeline: a copy, with
/// the variables that the stage sees.
pub fn stage_session(plan: &StagePlan, cwd: &str) -> (r: Session)
    ensures
        r.cwd@ == cwd@,
        r.env@ == plan.env@,
        r.last_status == status_in(plan.env@),
{
    let mut last_status: i32 = 0;
    match plan.env.get("?") {
        Some(value) => match text::parse_i32(value.as_str()) {
            Some(status) => {
                last_status = status;
            },
            None => {},
        },
        None => {},
    }
    Session { cwd: text::copy(cwd), env: plan.env.clone(), last_status }
}

/// A command within a pipeline finds the status that the pipeline started with.
pub proof fn law_stages_see_the_status_before(
    simple: SimpleView,
    env: Map<Seq<char>, Seq<char>>,
    status: i32,
)
    ensures
        status_in(stage_env(simple, env, status as int)) == status,
{
    text::law_written_integers_are_read_back(status);
}

/// The session after a command has set its variables, which it does where it has no words.
pub open spec fn after_assignments(
    simple: SimpleView,
    env: Map<Seq<char>, Seq<char>>,
    status: int,
) -> Map<Seq<char>, Seq<char>> {
    let pairs = expand::assigned_pairs(simple.assignments, env, status);
    if stage_words(simple, env, status).len() == 0 {
        session::with_pairs(env, pairs, pairs.len() as int)
    } else {
        env
    }
}

/// Plans a command that is not part of a pipeline, and counts it. Without words it sets variables
/// of the session, which stay even if its redirects fail. Where no more commands may run, nothing
/// changes but that the limit was hit.
pub fn plan_single(
    simple: &SimpleCommand,
    session: &mut Session,
    state: &mut ExecState,
    limits: Limits,
) -> (r: Result<StagePlan, Stop>)
    ensures
        old(state).command_count >= limits.max_commands ==> {
            &&& r matches Err(stop)
            &&& exec::is_refusal(stop, Admission::TooManyCommands)
            &&& *final(state) == (ExecState { limit_hit: true, ..*old(state) })
            &&& final(session)@ == old(session)@
        },
        old(state).command_count < limits.max_commands ==> {
            let env = old(session)@.env;
            let status = old(state).last_status as int;
            let words = stage_words(simple@, env, status);
            let after = after_assignments(simple@, env, status);
            &&& *final(state) == (ExecState {
                command_count: (old(state).command_count + 1) as usize,
                ..*old(state)
            })
            &&& final(session)@ == (session::SessionView { env: after, ..old(session)@ })
            &&& r matches Ok(plan)
            &&& plan.name@ == session::command_name(words)
            &&& text::texts(plan.args@) == (if words.len() == 0 {
                Seq::empty()
            } else {
                words.skip(1)
            })
            &&& plan.counts_command == (words.len() > 0)
            &&& words.len() > 0 ==> plan.env@ == stage_env(simple@, env, status)
            &&& planned(plan.redirects, simple@, after, status)
        },
{
    match exec::count_commands(state, 1, limits) {
        Ok(()) => {},
        Err(stop) => {
            return Err(stop);
        },
    }
    let last_status = state.last_status;
    let command = session::prepare_command(simple, &session.env, last_status);
    let name = session::single_name(&command);
    let args = command.args();
    if command.words.len() == 0 {
        session::assign(&mut session.env, &command.assignments);
    }
    let env = session::command_env(&session.env, &command, last_status);
    let redirects = redirect::plan_redirects(&simple.redirects, &session.env, last_status);
    let counts_command = command.words.len() > 0;
    Ok(StagePlan { name, args, env, redirects, counts_command })
}

/// Decides what becomes of a stage, once its files were opened or could not be.
pub fn stage_kind(plan: &StagePlan, failure: Option<(String, VfsError)>) -> (r: StageKind)
    ensures
        match failure {
            Some((path, err)) => r matches StageKind::Failed { message } && message@
                == session::file_error_text(plan.name@, path@, err.errno),
            None => r == (if plan.counts_command {
                StageKind::Command
            } else {
                StageKind::AssignmentOnly
            }),
        },
{
    match failure {
        Some((path, err)) => StageKind::Failed {
            message: session::file_error_message(plan.name.as_str(), path.as_str(), err),
        },
        None => {
            if plan.counts_command {
                StageKind::Command
            } else {
                StageKind::AssignmentOnly
            }
        },
    }
}

/// What becomes of a command that is not part of a pipeline.
#[derive(Debug, PartialEq, Eq)]
pub enum SingleStep {
    /// Its redirects have failed, which ends it.
    Failed { status: i32, message: String },
    /// It has only set variables.
    Assigned,
    /// It runs.
    Run(Dispatch),
}

/// Decides what becomes of a command that is not part of a pipeline, once its files were opened
/// or could not be.
pub fn single_step(plan: &StagePlan, failure: Option<(String, VfsError)>, known: bool) -> (r:
    SingleStep)
    ensures
        match failure {
            Some((path, err)) => r matches SingleStep::Failed { status, message } && status == 1
                && message@ == session::file_error_text(plan.name@, path@, err.errno),
            None => r == (if plan.counts_command {
                SingleStep::Run(session::dispatch(plan.name@, known))
            } else {
                SingleStep::Assigned
            }),
        },
{
    match failure {
        Some((path, err)) => SingleStep::Failed {
            status: 1,
            message: session::file_error_message(plan.name.as_str(), path.as_str(), err),
        },
        None => {
            if plan.counts_command {
                SingleStep::Run(session::dispatch_command(plan.name.as_str(), known))
            } else {
                SingleStep::Assigned
            }
        },
    }
}

/// How a command ends that has only set variables: only the first of its files that could not be
/// given back is told.
pub fn finish_assigned(failure: Option<(String, VfsError)>) -> (r: (i32, Option<String>))
    ensures
        match failure {
            None => r.0 == 0 && r.1 is None,
            Some((path, err)) => r.0 == 1 && (r.1 matches Some(message) && message@
                == session::file_error_text("tinysandbox"@, path@, err.errno)),
        },
{
    match failure {
        None => (0, None),
        Some((path, err)) => (
            1,
            Some(session::file_error_message("tinysandbox", path.as_str(), err)),
        ),
    }
}

// ---- how a stage ends ----

pub open spec fn failures_view(errors: Seq<(String, VfsError)>) -> Seq<(Seq<char>, Errno)> {
    errors.map_values(|e: (String, VfsError)| (e.0@, e.1.errno))
}

/// What is said of the files that could not be given back.
pub open spec fn sink_messages(name: Seq<char>, errors: Seq<(Seq<char>, Errno)>) -> Seq<
    Seq<char>,
> {
    errors.map_values(|e: (Seq<char>, Errno)| session::file_error_text(name, e.0, e.1))
}

/// The status of a stage: 1 where a file could not be given back, and 141 where it failed and
/// nobody read what it wrote.
pub open spec fn stage_status(exit_code: i32, sink_errors: nat, pipe_broken: bool) -> i32 {
    if sink_errors > 0 {
        1
    } else if exit_code != 0 && pipe_broken {
        141
    } else {
        exit_code
    }
}

/// Takes note of how a command ended, and of what became of its files.
pub fn finish_stage(
    name: &str,
    exit_code: i32,
    errors: &Vec<(String, VfsError)>,
    pipe_broken: bool,
) -> (r: (i32, Vec<String>))
    ensures
        r.0 == stage_status(exit_code, errors@.len(), pipe_broken),
        text::texts(r.1@) == sink_messages(name@, failures_view(errors@)),
{
    let ghost all = sink_messages(name@, failures_view(errors@));
    let mut messages: Vec<String> = Vec::new();
    let mut i: usize = 0;
    proof {
        assert(text::texts(messages@) =~= all.take(0));
    }
    while i < errors.len()
        invariant
            i <= errors@.len(),
            all == sink_messages(name@, failures_view(errors@)),
            text::texts(messages@) == all.take(i as int),
        decreases errors@.len() - i,
    {
        let ghost before = messages@;
        let message = session::file_error_message(name, errors[i].0.as_str(), errors[i].1);
        messages.push(message);
        proof {
            assert(failures_view(errors@)[i as int] == (
                errors@[i as int].0@,
                errors@[i as int].1.errno,
            ));
            assert(all[i as int] == message@);
            assert(text::texts(messages@) =~= text::texts(before).push(message@));
            assert(all.take(i + 1) =~= all.take(i as int).push(all[i as int]));
        }
        i = i + 1;
    }
    proof {
        assert(all.take(i as int) =~= all);
    }
    let status: i32 = if errors.len() > 0 {
        1
    } else if exit_code != 0 && pipe_broken {
        141
    } else {
        exit_code
    };
    (status, messages)
}

/// Ends a command that is no stage of a pipeline: takes note of its time and of its memory, and
/// returns its status, with what is said of the files that could not be given back.
pub fn finish_single(
    state: &mut ExecState,
    name: &str,
    result: CommandResult,
    duration: u128,
    errors: &Vec<(String, VfsError)>,
) -> (r: (i32, Vec<String>))
    ensures
        r.0 == stage_status(result.exit_code, errors@.len(), false),
        text::texts(r.1@) == sink_messages(name@, failures_view(errors@)),
        exec::timings_view(final(state).timings@) == exec::timings_view(old(state).timings@).push(
            TimingView { name: name@, duration, exit_code: r.0 },
        ),
        final(state).peak_wasm_memory_bytes == exec::peak(
            old(state).peak_wasm_memory_bytes,
            result.peak_wasm_memory_bytes,
        ),
        final(state).pipe_bytes == old(state).pipe_bytes,
        final(state).last_status == old(state).last_status,
        final(state).command_count == old(state).command_count,
        final(state).limit_hit == old(state).limit_hit,
{
    let (exit_code, messages) = finish_stage(name, result.exit_code, errors, false);
    state.peak_wasm_memory_bytes = exec::record_peak(
        state.peak_wasm_memory_bytes,
        result.peak_wasm_memory_bytes,
    );
    let ghost before = state.timings@;
    let timing = CommandTiming { name: text::copy(name), duration, exit_code };
    state.timings.push(timing);
    proof {
        assert(exec::timings_view(state.timings@) =~= exec::timings_view(before).push(timing@));
    }
    (exit_code, messages)
}

/// What a stage has come to.
#[derive(Debug)]
pub struct StageOutcome {
    pub timing: CommandTiming,
    pub exit_code: i32,
    pub peak_wasm_memory_bytes: Option<usize>,
    pub redirect_errors: Vec<String>,
    pub counts_command: bool,
}

#[verifier::ext_equal]
pub struct OutcomeView {
    pub timing: TimingView,
    pub exit_code: i32,
    pub peak_wasm_memory_bytes: Option<usize>,
    pub redirect_errors: Seq<Seq<char>>,
    pub counts_command: bool,
}

impl StageOutcome {
    pub open spec fn view(&self) -> OutcomeView {
        OutcomeView {
            timing: self.timing@,
            exit_code: self.exit_code,
            peak_wasm_memory_bytes: self.peak_wasm_memory_bytes,
            redirect_errors: text::texts(self.redirect_errors@),
            counts_command: self.counts_command,
        }
    }

    /// A stage that could not be connected.
    pub fn failed(name: &str, counts_command: bool, message: &str) -> (r: Self)
        ensures
            r@ == (OutcomeView {
                timing: TimingView { name: name@, duration: 0, exit_code: 1 },
                exit_code: 1,
                peak_wasm_memory_bytes: None,
                redirect_errors: seq![name@ + ": "@ + message@],
                counts_command,
            }),
    {
        let mut redirect_errors: Vec<String> = Vec::new();
        redirect_errors.push(text::concat3(name, ": ", message));
        proof {
            assert(text::texts(redirect_errors@) =~= seq![name@ + ": "@ + message@]);
        }
        StageOutcome {
            timing: CommandTiming { name: text::copy(name), duration: 0, exit_code: 1 },
            exit_code: 1,
            peak_wasm_memory_bytes: None,
            redirect_errors,
            counts_command,
        }
    }
}

pub open spec fn outcomes_view(outcomes: Seq<Option<StageOutcome>>) -> Seq<Option<OutcomeView>> {
    outcomes.map_values(
        |o: Option<StageOutcome>|
            match o {
                Some(outcome) => Some(outcome@),
                None => None,
            },
    )
}

/// What the first stages of a pipeline come to together.
#[verifier::ext_equal]
pub struct PipelineView {
    pub status: i32,
    pub messages: Seq<Seq<char>>,
    pub timings: Seq<TimingView>,
    pub peak: Option<usize>,
}

/// What one more stage adds.
pub open spec fn with_outcome(all: PipelineView, outcome: OutcomeView) -> PipelineView {
    PipelineView {
        status: outcome.exit_code,
        messages: all.messages + outcome.redirect_errors,
        timings: if outcome.counts_command {
            all.timings.push(outcome.timing)
        } else {
            all.timings
        },
        peak: exec::peak(all.peak, outcome.peak_wasm_memory_bytes),
    }
}

/// What the first `n` stages come to, on top of what was there before. The status is that of the
/// last stage.
pub open spec fn merged(
    start: PipelineView,
    outcomes: Seq<Option<OutcomeView>>,
    n: int,
) -> PipelineView
    decreases n,
{
    if n <= 0 {
        start
    } else {
        match outcomes[n - 1] {
            Some(outcome) => with_outcome(merged(start, outcomes, n - 1), outcome),
            None => merged(start, outcomes, n - 1),
        }
    }
}

/// What an execution has before the stages of a pipeline are added to it.
pub open spec fn pipeline_start(timings: Seq<TimingView>, peak: Option<usize>) -> PipelineView {
    PipelineView { status: 0, messages: Seq::empty(), timings, peak }
}

/// Adds what the stages of a pipeline came to, in order, to an execution.
pub fn merge_outcomes(
    state: &mut ExecState,
    outcomes: &Vec<Option<StageOutcome>>,
    pipe_counts: &Vec<usize>,
) -> (r: (i32, Vec<String>))
    ensures
        ({
            let start = pipeline_start(
                exec::timings_view(old(state).timings@),
                old(state).peak_wasm_memory_bytes,
            );
            let all = merged(start, outcomes_view(outcomes@), outcomes@.len() as int);
            &&& r.0 == all.status
            &&& text::texts(r.1@) == all.messages
            &&& exec::timings_view(final(state).timings@) == all.timings
            &&& final(state).peak_wasm_memory_bytes == all.peak
            &&& final(state).pipe_bytes@ == old(state).pipe_bytes@ + pipe_counts@
            &&& final(state).last_status == old(state).last_status
            &&& final(state).command_count == old(state).command_count
            &&& final(state).limit_hit == old(state).limit_hit
        }),
{
    let ghost start = pipeline_start(
        exec::timings_view(state.timings@),
        state.peak_wasm_memory_bytes,
    );
    let ghost all = outcomes_view(outcomes@);
    let mut status: i32 = 0;
    let mut messages: Vec<String> = Vec::new();
    let mut i: usize = 0;
    proof {
        assert(text::texts(messages@) =~= start.messages);
    }
    while i < outcomes.len()
        invariant
            i <= outcomes@.len(),
            all == outcomes_view(outcomes@),
            status == merged(start, all, i as int).status,
            text::texts(messages@) == merged(start, all, i as int).messages,
            exec::timings_view(state.timings@) == merged(start, all, i as int).timings,
            state.peak_wasm_memory_bytes == merged(start, all, i as int).peak,
            state.pipe_bytes == old(state).pipe_bytes,
            state.last_status == old(state).last_status,
            state.command_count == old(state).command_count,
            state.limit_hit == old(state).limit_hit,
        decreases outcomes@.len() - i,
    {
        proof {
            assert(all[i as int] == (match outcomes@[i as int] {
                Some(outcome) => Some(outcome@),
                None => None,
            }));
        }
        match &outcomes[i] {
            Some(outcome) => {
                append_texts(&mut messages, &outcome.redirect_errors);
                state.peak_wasm_memory_bytes =
                exec::record_peak(state.peak_wasm_memory_bytes, outcome.peak_wasm_memory_bytes);
                status = outcome.exit_code;
                if outcome.counts_command {
                    let ghost before = state.timings@;
                    let timing = outcome.timing.clone();
                    state.timings.push(timing);
                    proof {
                        assert(exec::timings_view(state.timings@) =~= exec::timings_view(
                            before,
                        ).push(timing@));
                    }
                }
            },
            None => {},
        }
        i = i + 1;
    }
    let mut k: usize = 0;
    let ghost bytes = state.pipe_bytes@;
    proof {
        assert(bytes + pipe_counts@.take(0) =~= bytes);
    }
    while k < pipe_counts.len()
        invariant
            k <= pipe_counts@.len(),
            state.pipe_bytes@ == bytes + pipe_counts@.take(k as int),
            exec::timings_view(state.timings@) == merged(
                start,
                all,
                outcomes@.len() as int,
            ).timings,
            state.peak_wasm_memory_bytes == merged(start, all, outcomes@.len() as int).peak,
            state.last_status == old(state).last_status,
            state.command_count == old(state).command_count,
            state.limit_hit == old(state).limit_hit,
        decreases pipe_counts@.len() - k,
    {
        state.pipe_bytes.push(pipe_counts[k]);
        proof {
            assert(bytes + pipe_counts@.take(k + 1) =~= (bytes + pipe_counts@.take(
                k as int,
            )).push(pipe_counts@[k as int]));
        }
        k = k + 1;
    }
    proof {
        assert(pipe_counts@.take(k as int) =~= pipe_counts@);
    }
    (status, messages)
}

fn append_texts(out: &mut Vec<String>, more: &Vec<String>)
    ensures
        text::texts(final(out)@) == text::texts(old(out)@) + text::texts(more@),
{
    let ghost before = text::texts(out@);
    let ghost added = text::texts(more@);
    let mut i: usize = 0;
    proof {
        assert(before + added.take(0) =~= before);
    }
    while i < more.len()
        invariant
            i <= more@.len(),
            added == text::texts(more@),
            text::texts(out@) == before + added.take(i as int),
        decreases more@.len() - i,
    {
        let ghost earlier = out@;
        let copied = more[i].clone();
        out.push(copied);
        proof {
            assert(added[i as int] == copied@);
            assert(text::texts(out@) =~= text::texts(earlier).push(copied@));
            assert(before + added.take(i + 1) =~= (before + added.take(i as int)).push(
                added[i as int],
            ));
        }
        i = i + 1;
    }
    proof {
        assert(added.take(i as int) =~= added);
    }
}

/// The status of a pipeline is that of its last stage.
pub proof fn law_last_stage_decides(start: PipelineView, outcomes: Seq<Option<OutcomeView>>)
    requires
        outcomes.len() > 0,
        outcomes.last() is Some,
    ensures
        merged(start, outcomes, outcomes.len() as int).status == outcomes.last()->0.exit_code,
{
}

/// A stage whose input is not redirected reads what the stage just before it writes, and the first
/// stage reads nothing.
pub proof fn law_stages_read_the_pipe_before_them(table: RedirectTable, index: int, total: int)
    requires
        0 <= index < total <= usize::MAX,
    ensures
        table.stdin is None && index == 0 ==> wiring(table, index, total).stdin
            == StageInput::Empty,
        table.stdin is None && index > 0 ==> {
            &&& wiring(table, index, total).stdin matches StageInput::Pipe(pipe)
            &&& pipe == index - 1
        },
        table.stdin matches Some(file) ==> wiring(table, index, total).stdin == StageInput::File(
            file,
        ),
{
}

/// A stage whose first output is not redirected writes it into the pipe that the next stage reads;
/// that of the last stage is the output of the pipeline. The second output stays apart from the
/// pipes unless it follows the first.
pub proof fn law_stages_write_the_pipe_behind_them(table: RedirectTable, index: int, total: int)
    requires
        0 <= index < total <= usize::MAX,
    ensures
        table.stdout == OutputDestination::Capture(CaptureFd::Stdout) && index + 1 < total ==> {
            &&& wiring(table, index, total).stdout matches StageOutput::Pipe(pipe)
            &&& pipe == index
        },
        table.stdout == OutputDestination::Capture(CaptureFd::Stdout) && index + 1 == total
            ==> wiring(table, index, total).stdout == StageOutput::Stdout,
        table.stdout == OutputDestination::Capture(CaptureFd::Stderr) ==> wiring(
            table,
            index,
            total,
        ).stdout == StageOutput::Stderr,
        table.stdout matches OutputDestination::File(file) ==> wiring(table, index, total).stdout
            == StageOutput::File(file),
        table.stderr == OutputDestination::Capture(CaptureFd::Stderr) ==> wiring(
            table,
            index,
            total,
        ).stderr == StageOutput::Stderr,
        table.stderr matches OutputDestination::File(file) ==> wiring(table, index, total).stderr
            == StageOutput::File(file),
{
}

/// The stages of a pipeline without redirects form a chain: what each writes, the next reads.
pub proof fn law_pipelines_are_chains(plain: RedirectTable, index: int, total: int)
    requires
        0 <= index,
        index + 1 < total <= usize::MAX,
        plain.stdin is None,
        plain.stdout == OutputDestination::Capture(CaptureFd::Stdout),
    ensures
        exists|pipe: usize|
            wiring(plain, index, total).stdout == StageOutput::Pipe(pipe) && #[trigger] wiring(
                plain,
                index + 1,
                total,
            ).stdin == StageInput::Pipe(pipe),
{
    assert(wiring(plain, index, total).stdout == StageOutput::Pipe(index as usize));
    assert(wiring(plain, index + 1, total).stdin == StageInput::Pipe(index as usize));
}

/// The stages of a pipeline add up in their order: two rows of stages come to what the second
/// comes to on top of the first. A stage gives the status, appends its messages, appends its time
/// where it counts as a command, and raises the peak.
pub proof fn law_stages_add_up_in_order(
    start: PipelineView,
    a: Seq<Option<OutcomeView>>,
    b: Seq<Option<OutcomeView>>,
)
    ensures
        merged(start, a + b, (a + b).len() as int) == merged(
            merged(start, a, a.len() as int),
            b,
            b.len() as int,
        ),
        a.len() == 0 ==> merged(start, a, 0) == start,
        a.len() == 1 && a[0] is None ==> merged(start, a, 1) == start,
        a.len() == 1 && a[0] is Some ==> ({
            let after = merged(start, a, 1);
            let own = a[0]->Some_0;
            &&& after.status == own.exit_code
            &&& after.messages == start.messages + own.redirect_errors
            &&& own.counts_command ==> after.timings == start.timings.push(own.timing)
            &&& !own.counts_command ==> after.timings == start.timings
            &&& own.peak_wasm_memory_bytes is None ==> after.peak == start.peak
            &&& own.peak_wasm_memory_bytes matches Some(bytes) ==> (after.peak matches Some(most)
                && most >= bytes)
        }),
{
    lemma_merged(start, a, b, b.len() as int);
    reveal_with_fuel(merged, 2);
}

proof fn lemma_merged_front(
    start: PipelineView,
    a: Seq<Option<OutcomeView>>,
    b: Seq<Option<OutcomeView>>,
    n: int,
)
    requires
        0 <= n <= a.len(),
    ensures
        merged(start, a + b, n) == merged(start, a, n),
    decreases n,
{
    if n > 0 {
        lemma_merged_front(start, a, b, n - 1);
        assert((a + b)[n - 1] == a[n - 1]);
    }
}

proof fn lemma_merged(
    start: PipelineView,
    a: Seq<Option<OutcomeView>>,
    b: Seq<Option<OutcomeView>>,
    n: int,
)
    requires
        0 <= n <= b.len(),
    ensures
        merged(start, a + b, a.len() + n) == merged(merged(start, a, a.len() as int), b, n),
    decreases n,
{
    if n == 0 {
        lemma_merged_front(start, a, b, a.len() as int);
    } else {
        lemma_merged(start, a, b, n - 1);
        assert((a + b)[a.len() + n - 1] == b[n - 1]);
    }
}

/// A stage keeps the status of its command, but for a file that could not be given back, and for
/// a command that failed because nobody read what it wrote.
pub proof fn law_stages_keep_their_status(exit_code: i32, sink_errors: nat, pipe_broken: bool)
    ensures
        sink_errors == 0 && !pipe_broken ==> stage_status(exit_code, sink_errors, pipe_broken)
            == exit_code,
        sink_errors == 0 ==> stage_status(0, sink_errors, pipe_broken) == 0,
        sink_errors == 0 && pipe_broken && exit_code != 0 ==> stage_status(
            exit_code,
            sink_errors,
            pipe_broken,
        ) == 128 + 13,
        sink_errors > 0 ==> stage_status(exit_code, sink_errors, pipe_broken) == 1,
{
}

/// A command without words sets its variables in the session, the last value of a name counting;
/// one with words leaves the session as it is. Its redirects see what it sees itself only where it
/// has no words.
pub proof fn law_only_commands_without_words_set_variables(
    simple: SimpleView,
    env: Map<Seq<char>, Seq<char>>,
    status: int,
)
    ensures
        stage_words(simple, env, status).len() > 0 ==> after_assignments(simple, env, status) == env,
        stage_words(simple, env, status).len() > 0 ==> stage_redirect_env(simple, env, status)
            == env,
        stage_words(simple, env, status).len() == 0 ==> stage_redirect_env(simple, env, status)
            == stage_env(simple, env, status),
        simple.words.len() == 0 ==> stage_words(simple, env, status).len() == 0,
        simple.assignments.len() == 0 ==> after_assignments(simple, env, status) == env,
{
}

/// A command finds the status that it was given among its variables.
pub proof fn law_the_status_is_found(env: Map<Seq<char>, Seq<char>>, status: i32)
    ensures
        status_in(env.insert("?"@, text::integer_text(status as int))) == status,
        !env.dom().contains("?"@) ==> status_in(env) == 0,
{
    text::law_written_integers_are_read_back(status);
}

} // verus!
