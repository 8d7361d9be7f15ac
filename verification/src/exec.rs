//! One execution: what it may run, in which order, and what it results in.

use vstd::prelude::*;

use crate::admission;
use crate::builtins::lines;
use crate::command::Limits;
use crate::env::Env;
use crate::shell;
use crate::shell::{AndOrOp, AndOrView, Command, ListView, Pipeline, Program, SimpleView};
use crate::text;

verus! {

/// Timing for one command stage.
#[derive(Debug)]
pub struct CommandTiming {
    /// Command name.
    pub name: String,
    /// Wall-clock duration observed for the command stage, in nanoseconds.
    pub duration: u128,
    /// Exit code returned by the command stage.
    pub exit_code: i32,
}

#[verifier::ext_equal]
pub struct TimingView {
    pub name: Seq<char>,
    pub duration: u128,
    pub exit_code: i32,
}

impl CommandTiming {
    pub open spec fn view(&self) -> TimingView {
        TimingView { name: self.name@, duration: self.duration, exit_code: self.exit_code }
    }
}

impl Clone for CommandTiming {
    fn clone(&self) -> (r: Self)
        ensures
            r@ == self@,
    {
        CommandTiming {
            name: self.name.clone(),
            duration: self.duration,
            exit_code: self.exit_code,
        }
    }
}

pub open spec fn timings_view(timings: Seq<CommandTiming>) -> Seq<TimingView> {
    timings.map_values(|t: CommandTiming| t@)
}

/// Metrics collected during one execution.
#[derive(Debug)]
pub struct ExecMetrics {
    /// Total wall-clock time for the execution, in nanoseconds.
    pub wall_time: u128,
    /// Per-command timings in pipeline order; stages in the same pipeline may overlap, so these
    /// durations are not expected to sum to `wall_time`.
    pub commands: Vec<CommandTiming>,
    /// Bytes accepted by each pipeline pipe, in left-to-right pipe order.
    pub pipe_bytes: Vec<usize>,
    /// Whether captured stdout exceeded its limit while streaming.
    pub stdout_truncated: bool,
    /// Whether captured stderr exceeded its limit while streaming.
    pub stderr_truncated: bool,
    /// Peak WebAssembly memory reported by JS commands that ran in this execution.
    pub peak_wasm_memory_bytes: Option<usize>,
}

#[verifier::ext_equal]
pub struct MetricsView {
    pub wall_time: u128,
    pub commands: Seq<TimingView>,
    pub pipe_bytes: Seq<usize>,
    pub stdout_truncated: bool,
    pub stderr_truncated: bool,
    pub peak_wasm_memory_bytes: Option<usize>,
}

/// The metrics of an execution that ran nothing.
pub open spec fn empty_metrics(wall_time: u128) -> MetricsView {
    MetricsView {
        wall_time,
        commands: Seq::empty(),
        pipe_bytes: Seq::empty(),
        stdout_truncated: false,
        stderr_truncated: false,
        peak_wasm_memory_bytes: None,
    }
}

impl ExecMetrics {
    pub open spec fn view(&self) -> MetricsView {
        MetricsView {
            wall_time: self.wall_time,
            commands: timings_view(self.commands@),
            pipe_bytes: self.pipe_bytes@,
            stdout_truncated: self.stdout_truncated,
            stderr_truncated: self.stderr_truncated,
            peak_wasm_memory_bytes: self.peak_wasm_memory_bytes,
        }
    }

    pub fn empty(wall_time: u128) -> (r: Self)
        ensures
            r@ == empty_metrics(wall_time),
    {
        let r = ExecMetrics {
            wall_time,
            commands: Vec::new(),
            pipe_bytes: Vec::new(),
            stdout_truncated: false,
            stderr_truncated: false,
            peak_wasm_memory_bytes: None,
        };
        proof {
            assert(r@ =~= empty_metrics(wall_time));
        }
        r
    }
}

/// Result of an execution.
#[derive(Debug)]
pub struct ExecResult {
    /// Captured stdout, possibly truncated.
    pub stdout: String,
    /// Captured stderr, possibly truncated.
    pub stderr: String,
    /// Process-like exit code for the executed shell program.
    pub exit_code: i32,
    /// Timing, pipe, truncation, and JS memory metrics.
    pub metrics: ExecMetrics,
}

#[verifier::ext_equal]
pub struct ResultView {
    pub stdout: Seq<char>,
    pub stderr: Seq<char>,
    pub exit_code: i32,
    pub metrics: MetricsView,
}

impl ExecResult {
    pub open spec fn view(&self) -> ResultView {
        ResultView {
            stdout: self.stdout@,
            stderr: self.stderr@,
            exit_code: self.exit_code,
            metrics: self.metrics@,
        }
    }
}

/// The result of an execution that ran nothing, with a message.
pub open spec fn refused(message: Seq<char>, exit_code: i32, wall_time: u128) -> ResultView {
    ResultView {
        stdout: Seq::empty(),
        stderr: message,
        exit_code,
        metrics: empty_metrics(wall_time),
    }
}

fn refusal(message: String, exit_code: i32, wall_time: u128) -> (r: ExecResult)
    ensures
        r@ == refused(message@, exit_code, wall_time),
{
    let r = ExecResult {
        stdout: String::new(),
        stderr: message,
        exit_code,
        metrics: ExecMetrics::empty(wall_time),
    };
    proof {
        assert(r@ =~= refused(message@, exit_code, wall_time));
    }
    r
}

/// Aggregate sandbox state useful for observability.
#[derive(Debug, Clone, Copy, PartialEq, Eq, Structural)]
pub struct SandboxStats<S> {
    /// Quota usage, when the configured file system reports it.
    pub vfs: Option<S>,
    /// Number of commands run by this sandbox.
    pub commands_run: u64,
}

/// The result of an execution that took too long: what it had done so far is dropped.
pub fn timed_out(shell: &str, wall_time: u128) -> (r: ExecResult)
    ensures
        r@ == refused(shell@ + ": command timed out\n"@, 124, wall_time),
{
    refusal(text::concat2(shell, ": command timed out\n"), 124, wall_time)
}

/// What an execution starts with: a program, unless the input is too large or does not parse.
pub fn admit_input(input: &str, limits: Limits) -> (r: Result<Program, ExecResult>)
    ensures
        if text::byte_len(input@) > limits.shell_input_bytes {
            r matches Err(result) && result@ == refused(
                "tinysandbox: shell input limit exceeded\n"@,
                125,
                0,
            )
        } else {
            match shell::parse::program_of(input@) {
                Ok(lists) => r matches Ok(program) && program@ == lists,
                Err(error) => r matches Err(result) && result@ == refused(
                    shell::error_text(error) + "\n"@,
                    2,
                    0,
                ),
            }
        },
{
    if text::str_bytes(input) > limits.shell_input_bytes {
        return Err(refusal(text::copy("tinysandbox: shell input limit exceeded\n"), 125, 0));
    }
    parse_input(input)
}

/// Parses the input of an execution.
pub fn parse_input(input: &str) -> (r: Result<Program, ExecResult>)
    ensures
        match shell::parse::program_of(input@) {
            Ok(lists) => r matches Ok(program) && program@ == lists,
            Err(error) => r matches Err(result) && result@ == refused(
                shell::error_text(error) + "\n"@,
                2,
                0,
            ),
        },
{
    match shell::parse::parse(input) {
        Ok(program) => Ok(program),
        Err(err) => {
            let message = err.message();
            Err(refusal(text::concat2(message.as_str(), "\n"), 2, 0))
        },
    }
}

// ---- which pipelines run ----

/// Whether a pipeline runs, given the status before it.
pub open spec fn runs(item: AndOrView, status: i32) -> bool {
    match item.op {
        AndOrOp::And => status == 0,
        AndOrOp::Or => status != 0,
    }
}

/// The first of the pipelines from `from` on that runs, or the number of them.
pub open spec fn next_to_run(rest: Seq<AndOrView>, from: int, status: i32) -> int
    decreases rest.len() - from,
{
    if 0 <= from < rest.len() && !runs(rest[from], status) {
        next_to_run(rest, from + 1, status)
    } else {
        from
    }
}

/// A pipeline of a program: the list that it is in, and its place there, the first being 0.
#[derive(Debug, Clone, Copy, PartialEq, Eq, Structural)]
pub struct Place {
    pub list: usize,
    pub item: usize,
}

/// Whether there is such a pipeline.
pub open spec fn in_program(lists: Seq<ListView>, place: Place) -> bool {
    place.list < lists.len() && place.item <= lists[place.list as int].rest.len()
}

/// The pipeline at a place.
pub open spec fn pipeline_at(lists: Seq<ListView>, place: Place) -> Seq<SimpleView> {
    if place.item == 0 {
        lists[place.list as int].first
    } else {
        lists[place.list as int].rest[place.item - 1].pipeline
    }
}

/// The pipeline that runs after the one at `place` has ended with a status: the next one in the
/// list whose operator asks for that status, or else the first of the next list. Once a limit was
/// hit, none does.
pub open spec fn next_place(
    lists: Seq<ListView>,
    place: Place,
    status: i32,
    limit_hit: bool,
) -> Option<Place> {
    let rest = lists[place.list as int].rest;
    let next = next_to_run(rest, place.item as int, status);
    if limit_hit {
        None
    } else if next < rest.len() {
        Some(Place { list: place.list, item: (next + 1) as usize })
    } else if place.list + 1 < lists.len() {
        Some(Place { list: (place.list + 1) as usize, item: 0 })
    } else {
        None
    }
}

/// Where a program starts.
pub fn first_place(program: &Program) -> (r: Option<Place>)
    ensures
        r == (if program@.len() > 0 {
            Some(Place { list: 0, item: 0 })
        } else {
            None
        }),
{
    if program.lists.len() > 0 {
        Some(Place { list: 0, item: 0 })
    } else {
        None
    }
}

/// Decides which pipeline runs next.
pub fn advance(program: &Program, place: Place, status: i32, limit_hit: bool) -> (r: Option<Place>)
    requires
        in_program(program@, place),
    ensures
        r == next_place(program@, place, status, limit_hit),
        r matches Some(next) ==> in_program(program@, next),
{
    if limit_hit {
        return None;
    }
    let ghost lists = program@;
    proof {
        assert(lists[place.list as int] == program.lists@[place.list as int]@);
    }
    let list = &program.lists[place.list];
    let ghost rest = lists[place.list as int].rest;
    let mut i: usize = place.item;
    proof {
        assert(rest.len() == list.rest@.len());
        assert(list.rest.len() == list.rest@.len());
    }
    while i < list.rest.len()
        invariant_except_break
            i <= list.rest@.len(),
            rest == shell::and_ors_view(list.rest@),
            next_to_run(rest, place.item as int, status) == next_to_run(rest, i as int, status),
        ensures
            i <= list.rest@.len(),
            i == next_to_run(rest, place.item as int, status),
        decreases list.rest@.len() - i,
    {
        proof {
            assert(rest[i as int] == list.rest@[i as int]@);
        }
        let wanted = match list.rest[i].op {
            AndOrOp::And => status == 0,
            AndOrOp::Or => status != 0,
        };
        if wanted {
            break;
        }
        i = i + 1;
    }
    if i < list.rest.len() {
        return Some(Place { list: place.list, item: i + 1 });
    }
    if place.list < program.lists.len() - 1 {
        Some(Place { list: place.list + 1, item: 0 })
    } else {
        None
    }
}

/// The pipeline at a place.
pub fn pipeline<'a>(program: &'a Program, place: Place) -> (r: &'a Pipeline)
    requires
        in_program(program@, place),
    ensures
        r@ == pipeline_at(program@, place),
{
    proof {
        assert(program@[place.list as int] == program.lists@[place.list as int]@);
    }
    let list = &program.lists[place.list];
    if place.item == 0 {
        &list.first
    } else {
        proof {
            assert(shell::and_ors_view(list.rest@)[place.item - 1] == list.rest@[place.item - 1]@);
        }
        &list.rest[place.item - 1].pipeline
    }
}

/// The pipelines of a program run in order, each at most once.
pub proof fn law_execution_moves_forward(
    lists: Seq<ListView>,
    place: Place,
    status: i32,
    limit_hit: bool,
)
    requires
        in_program(lists, place),
        lists.len() <= usize::MAX,
        lists[place.list as int].rest.len() < usize::MAX,
    ensures
        next_place(lists, place, status, limit_hit) matches Some(next) ==> {
            &&& next.list > place.list || (next.list == place.list && next.item > place.item)
            &&& next.list == place.list ==> runs(
                lists[place.list as int].rest[next.item - 1],
                status,
            )
        },
{
    lemma_next_to_run(lists[place.list as int].rest, place.item as int, status);
}

proof fn lemma_next_to_run(rest: Seq<AndOrView>, from: int, status: i32)
    requires
        0 <= from <= rest.len(),
    ensures
        from <= next_to_run(rest, from, status) <= rest.len(),
        next_to_run(rest, from, status) < rest.len() ==> runs(
            rest[next_to_run(rest, from, status)],
            status,
        ),
        forall|j: int|
            from <= j < next_to_run(rest, from, status) ==> !runs(#[trigger] rest[j], status),
    decreases rest.len() - from,
{
    if from < rest.len() && !runs(rest[from], status) {
        lemma_next_to_run(rest, from + 1, status);
    }
}

/// After a pipeline that succeeded, those joined by `||` are passed over, and after one that
/// failed those joined by `&&`; the status stays that of the last pipeline that ran.
pub proof fn law_skipped_pipelines_want_another_status(
    rest: Seq<AndOrView>,
    from: int,
    status: i32,
    j: int,
)
    requires
        0 <= from <= j < next_to_run(rest, from, status),
        from <= rest.len(),
    ensures
        j < rest.len(),
        rest[j].op == (if status == 0 {
            AndOrOp::Or
        } else {
            AndOrOp::And
        }),
{
    lemma_next_to_run(rest, from, status);
    assert(!runs(rest[j], status));
}

// ---- whether a pipeline may run ----

/// The most bytes that the expansions of one pipeline may come to.
pub open spec fn expansion_limit(limits: Limits) -> int {
    if limits.shell_input_bytes < limits.host_input_bytes {
        limits.host_input_bytes as int
    } else {
        limits.shell_input_bytes as int
    }
}

/// What the expansions of the first `n` commands of a pipeline cost.
pub open spec fn commands_cost(
    commands: Seq<SimpleView>,
    n: int,
    pairs: Seq<(Seq<char>, Seq<char>)>,
    env: Map<Seq<char>, Seq<char>>,
    status: int,
) -> int
    decreases n,
{
    if n <= 0 {
        0
    } else {
        commands_cost(commands, n - 1, pairs, env, status) + admission::capped(
            admission::command_cost(commands[n - 1], pairs, env, status),
        )
    }
}

/// Whether a pipeline may run.
#[derive(Debug, Clone, Copy, PartialEq, Eq, Structural)]
pub enum Admission {
    Admitted,
    TooManyCommands,
    ExpansionTooLarge,
}

/// The decision about a pipeline: the whole of it is admitted before any of it has an effect.
pub open spec fn pipeline_admission(
    commands: Seq<SimpleView>,
    pairs: Seq<(Seq<char>, Seq<char>)>,
    env: Map<Seq<char>, Seq<char>>,
    status: int,
    limits: Limits,
    command_count: int,
) -> Admission {
    if command_count + commands.len() > limits.max_commands && commands.len() > 0 {
        Admission::TooManyCommands
    } else if commands_cost(commands, commands.len() as int, pairs, env, status)
        > expansion_limit(limits) {
        Admission::ExpansionTooLarge
    } else {
        Admission::Admitted
    }
}

/// However many pipelines are admitted one after another, no more commands run than there may.
pub proof fn law_commands_stay_within_their_number(
    commands: Seq<SimpleView>,
    pairs: Seq<(Seq<char>, Seq<char>)>,
    env: Map<Seq<char>, Seq<char>>,
    status: int,
    limits: Limits,
    command_count: int,
)
    requires
        command_count <= limits.max_commands,
        pipeline_admission(commands, pairs, env, status, limits, command_count)
            == Admission::Admitted,
    ensures
        command_count + commands.len() <= limits.max_commands,
        commands_cost(commands, commands.len() as int, pairs, env, status) <= expansion_limit(
            limits,
        ),
{
}

proof fn lemma_commands_cost_grows(
    commands: Seq<SimpleView>,
    m: int,
    n: int,
    pairs: Seq<(Seq<char>, Seq<char>)>,
    env: Map<Seq<char>, Seq<char>>,
    status: int,
)
    requires
        0 <= m <= n <= commands.len(),
    ensures
        0 <= commands_cost(commands, m, pairs, env, status) <= commands_cost(
            commands,
            n,
            pairs,
            env,
            status,
        ),
    decreases n,
{
    if n > m {
        lemma_commands_cost_grows(commands, m, n - 1, pairs, env, status);
        admission::lemma_command_cost_is_not_negative(commands[n - 1], pairs, env, status);
    } else if m > 0 {
        lemma_commands_cost_grows(commands, m - 1, m - 1, pairs, env, status);
        admission::lemma_command_cost_is_not_negative(commands[m - 1], pairs, env, status);
    }
}

/// Decides whether a pipeline may run.
pub fn admit_pipeline(
    pipeline: &Pipeline,
    env: &Env,
    last_status: i32,
    limits: Limits,
    command_count: usize,
) -> (r: Admission)
    ensures
        r == pipeline_admission(
            pipeline@,
            env.pairs(),
            env@,
            last_status as int,
            limits,
            command_count as int,
        ),
{
    let ghost commands = pipeline@;
    let ghost status = last_status as int;
    let total: usize = pipeline.commands.len();
    proof {
        assert(commands.len() == total);
    }
    if total > limits.max_commands.saturating_sub(command_count) {
        return Admission::TooManyCommands;
    }
    let limit: usize = if limits.shell_input_bytes < limits.host_input_bytes {
        limits.host_input_bytes
    } else {
        limits.shell_input_bytes
    };
    let mut remaining: usize = limit;
    let mut i: usize = 0;
    while i < total
        invariant
            i <= total == pipeline.commands@.len(),
            commands == shell::commands_view(pipeline.commands@),
            status == last_status as int,
            limit == expansion_limit(limits),
            total == commands.len(),
            total > 0 ==> command_count + total <= limits.max_commands,
            remaining == limit - commands_cost(commands, i as int, env.pairs(), env@, status),
        decreases total - i,
    {
        proof {
            assert(commands[i as int] == pipeline.commands@[i as int]@);
            admission::lemma_command_cost_is_not_negative(
                commands[i as int],
                env.pairs(),
                env@,
                status,
            );
            lemma_commands_cost_grows(
                commands,
                i + 1,
                commands.len() as int,
                env.pairs(),
                env@,
                status,
            );
        }
        let Command::Simple(simple) = &pipeline.commands[i];
        match admission::expansion_cost(simple, env, last_status, remaining) {
            Some(cost) => {
                remaining = remaining - cost;
            },
            None => {
                return Admission::ExpansionTooLarge;
            },
        }
        i = i + 1;
    }
    Admission::Admitted
}

/// What is said of a pipeline that may not run.
pub open spec fn refusal_text(admission: Admission) -> Option<Seq<char>> {
    match admission {
        Admission::Admitted => None,
        Admission::TooManyCommands => Some("tinysandbox: maximum command count exceeded\n"@),
        Admission::ExpansionTooLarge => Some("tinysandbox: shell expansion limit exceeded\n"@),
    }
}

pub fn admission_message(admission: Admission) -> (r: Option<&'static str>)
    ensures
        said(r) == refusal_text(admission),
{
    match admission {
        Admission::Admitted => None,
        Admission::TooManyCommands => Some("tinysandbox: maximum command count exceeded\n"),
        Admission::ExpansionTooLarge => Some("tinysandbox: shell expansion limit exceeded\n"),
    }
}

/// How a pipeline ends that does not run: with a status, and perhaps with a message.
#[derive(Debug, Clone, Copy, PartialEq, Eq)]
pub struct Stop {
    pub status: i32,
    pub message: Option<&'static str>,
}

pub open spec fn said(message: Option<&'static str>) -> Option<Seq<char>> {
    match message {
        Some(message) => Some(message@),
        None => None,
    }
}

/// Whether a pipeline ends as one that was refused does: with status 125, and with a message.
pub open spec fn is_refusal(stop: Stop, admission: Admission) -> bool {
    stop.status == 125 && said(stop.message) == refusal_text(admission)
}

fn refused_stop(admission: Admission) -> (r: Stop)
    ensures
        is_refusal(r, admission),
{
    Stop { status: 125, message: admission_message(admission) }
}

/// How a pipeline ends where the execution is to stop.
pub fn cancelled_stop() -> (r: Stop)
    ensures
        r.status == 124,
        r.message is None,
{
    Stop { status: 124, message: None }
}

/// What is done with a pipeline.
#[derive(Debug, Clone, Copy, PartialEq, Eq)]
pub enum PipelineStart {
    /// It does not run.
    Stopped(Stop),
    /// It is one command.
    Single,
    /// Its commands run side by side.
    Stages,
}

/// Decides what is done with a pipeline. Where the execution is to stop it ends with status 124,
/// and where it may not run with status 125, after which nothing else runs.
pub fn start_pipeline(
    pipeline: &Pipeline,
    env: &Env,
    state: &mut ExecState,
    limits: Limits,
    cancelled: bool,
) -> (r: PipelineStart)
    ensures
        cancelled ==> {
            &&& r matches PipelineStart::Stopped(stop)
            &&& stop.status == 124
            &&& stop.message is None
            &&& *final(state) == *old(state)
        },
        !cancelled ==> {
            let admission = pipeline_admission(
                pipeline@,
                env.pairs(),
                env@,
                old(state).last_status as int,
                limits,
                old(state).command_count as int,
            );
            if admission == Admission::Admitted {
                &&& *final(state) == *old(state)
                &&& r == (if pipeline@.len() == 1 {
                    PipelineStart::Single
                } else {
                    PipelineStart::Stages
                })
            } else {
                &&& *final(state) == (ExecState { limit_hit: true, ..*old(state) })
                &&& r matches PipelineStart::Stopped(stop)
                &&& is_refusal(stop, admission)
            }
        },
{
    if cancelled {
        return PipelineStart::Stopped(cancelled_stop());
    }
    let admission = admit_pipeline(pipeline, env, state.last_status, limits, state.command_count);
    match admission {
        Admission::Admitted => {},
        _ => {
            state.limit_hit = true;
            return PipelineStart::Stopped(refused_stop(admission));
        },
    }
    proof {
        assert(pipeline@.len() == pipeline.commands@.len());
    }
    if pipeline.commands.len() == 1 {
        PipelineStart::Single
    } else {
        PipelineStart::Stages
    }
}

/// Counts commands that are about to run. Where there are more than there may be, none of them is
/// counted, and nothing else runs.
pub fn count_commands(state: &mut ExecState, commands: usize, limits: Limits) -> (r: Result<
    (),
    Stop,
>)
    ensures
        if old(state).command_count + commands <= limits.max_commands {
            &&& r is Ok
            &&& *final(state) == (ExecState {
                command_count: (old(state).command_count + commands) as usize,
                ..*old(state)
            })
        } else {
            &&& r matches Err(stop)
            &&& is_refusal(stop, Admission::TooManyCommands)
            &&& *final(state) == (ExecState { limit_hit: true, ..*old(state) })
        },
{
    match state.command_count.checked_add(commands) {
        Some(count) => if count <= limits.max_commands {
            state.command_count = count;
            return Ok(());
        },
        None => {},
    }
    state.limit_hit = true;
    Err(refused_stop(Admission::TooManyCommands))
}

// ---- the state of an execution ----

/// The larger of a peak so far and another value.
pub open spec fn peak(current: Option<usize>, bytes: Option<usize>) -> Option<usize> {
    match (current, bytes) {
        (None, other) => other,
        (some, None) => some,
        (Some(a), Some(b)) => Some(
            if a < b {
                b
            } else {
                a
            },
        ),
    }
}

pub fn record_peak(current: Option<usize>, bytes: Option<usize>) -> (r: Option<usize>)
    ensures
        r == peak(current, bytes),
{
    match (current, bytes) {
        (None, other) => other,
        (Some(a), None) => Some(a),
        (Some(a), Some(b)) => if a < b {
            Some(b)
        } else {
            Some(a)
        },
    }
}

/// The marker that a sandbox puts where output was cut.
pub fn truncation_marker() -> (r: &'static str)
    ensures
        r@ == "\n[tinysandbox: output truncated]\n"@,
{
    "\n[tinysandbox: output truncated]\n"
}

/// What an execution has done so far, but for what it has printed.
#[derive(Debug)]
pub struct ExecState {
    pub timings: Vec<CommandTiming>,
    pub pipe_bytes: Vec<usize>,
    pub last_status: i32,
    pub command_count: usize,
    pub limit_hit: bool,
    pub peak_wasm_memory_bytes: Option<usize>,
}

/// Takes note of the status that the pipeline at `at` has ended with, which `$?` stands for from
/// then on, and decides which pipeline runs next.
pub fn after_pipeline(program: &Program, at: Place, status: i32, state: &mut ExecState) -> (r:
    Option<Place>)
    requires
        in_program(program@, at),
    ensures
        *final(state) == (ExecState { last_status: status, ..*old(state) }),
        r == next_place(program@, at, status, old(state).limit_hit),
        r matches Some(next) ==> in_program(program@, next),
{
    state.last_status = status;
    advance(program, at, status, state.limit_hit)
}

impl ExecState {
    pub fn new(last_status: i32) -> (r: Self)
        ensures
            timings_view(r.timings@) == Seq::<TimingView>::empty(),
            r.pipe_bytes@ == Seq::<usize>::empty(),
            r.last_status == last_status,
            r.command_count == 0,
            !r.limit_hit,
            r.peak_wasm_memory_bytes is None,
    {
        let r = ExecState {
            timings: Vec::new(),
            pipe_bytes: Vec::new(),
            last_status,
            command_count: 0,
            limit_hit: false,
            peak_wasm_memory_bytes: None,
        };
        proof {
            assert(timings_view(r.timings@) =~= Seq::<TimingView>::empty());
        }
        r
    }

    pub fn record_peak_wasm_memory(&mut self, bytes: usize)
        ensures
            *final(self) == (ExecState {
                peak_wasm_memory_bytes: peak(old(self).peak_wasm_memory_bytes, Some(bytes)),
                ..*old(self)
            }),
    {
        self.peak_wasm_memory_bytes = record_peak(self.peak_wasm_memory_bytes, Some(bytes));
    }

    /// What the execution results in, with what it has printed.
    pub fn into_result(self, stdout: (Vec<u8>, bool), stderr: (Vec<u8>, bool), wall_time: u128) -> (r:
        ExecResult)
        ensures
            r@ == (ResultView {
                stdout: lines::lossy_text(stdout.0@),
                stderr: lines::lossy_text(stderr.0@),
                exit_code: self.last_status,
                metrics: MetricsView {
                    wall_time,
                    commands: timings_view(self.timings@),
                    pipe_bytes: self.pipe_bytes@,
                    stdout_truncated: stdout.1,
                    stderr_truncated: stderr.1,
                    peak_wasm_memory_bytes: self.peak_wasm_memory_bytes,
                },
            }),
    {
        ExecResult {
            stdout: lines::decode_lossy(stdout.0.as_slice()),
            stderr: lines::decode_lossy(stderr.0.as_slice()),
            exit_code: self.last_status,
            metrics: ExecMetrics {
                wall_time,
                commands: self.timings,
                pipe_bytes: self.pipe_bytes,
                stdout_truncated: stdout.1,
                stderr_truncated: stderr.1,
                peak_wasm_memory_bytes: self.peak_wasm_memory_bytes,
            },
        }
    }
}

/// What runs behind a pipeline: one behind `&&` where the status is zero, one behind `||` where it
/// is not, and otherwise what would run if that one were not there. Behind a list the next list
/// runs, whatever the status, and behind the last nothing does. Once a limit was hit nothing runs.
pub proof fn law_operators_choose_what_runs(
    lists: Seq<ListView>,
    place: Place,
    status: i32,
    limit_hit: bool,
)
    requires
        in_program(lists, place),
        lists.len() < usize::MAX,
        lists[place.list as int].rest.len() < usize::MAX,
    ensures
        ({
            let rest = lists[place.list as int].rest;
            let next = next_place(lists, place, status, limit_hit);
            let passed = Place { list: place.list, item: (place.item + 1) as usize };
            &&& limit_hit ==> next is None
            &&& !limit_hit && place.item < rest.len() && rest[place.item as int].op == AndOrOp::And
                ==> next == (if status == 0 {
                Some(passed)
            } else {
                next_place(lists, passed, status, false)
            })
            &&& !limit_hit && place.item < rest.len() && rest[place.item as int].op == AndOrOp::Or
                ==> next == (if status == 0 {
                next_place(lists, passed, status, false)
            } else {
                Some(passed)
            })
            &&& !limit_hit && place.item == rest.len() ==> next == (if place.list + 1
                < lists.len() {
                Some(Place { list: (place.list + 1) as usize, item: 0 })
            } else {
                None::<Place>
            })
            &&& pipeline_at(lists, Place { list: place.list, item: 0 })
                == lists[place.list as int].first
            &&& place.item < rest.len() ==> pipeline_at(lists, passed)
                == rest[place.item as int].pipeline
        }),
{
}

/// The expansions of a pipeline cost what those of its commands cost: the cost of two rows of
/// commands is the sum of their costs.
pub proof fn law_costs_add_up(
    a: Seq<SimpleView>,
    b: Seq<SimpleView>,
    pairs: Seq<(Seq<char>, Seq<char>)>,
    env: Map<Seq<char>, Seq<char>>,
    status: int,
)
    ensures
        commands_cost(a + b, (a + b).len() as int, pairs, env, status) == commands_cost(
            a,
            a.len() as int,
            pairs,
            env,
            status,
        ) + commands_cost(b, b.len() as int, pairs, env, status),
{
    lemma_costs(a, b, b.len() as int, pairs, env, status);
}

proof fn lemma_costs_front(
    a: Seq<SimpleView>,
    b: Seq<SimpleView>,
    n: int,
    pairs: Seq<(Seq<char>, Seq<char>)>,
    env: Map<Seq<char>, Seq<char>>,
    status: int,
)
    requires
        0 <= n <= a.len(),
    ensures
        commands_cost(a + b, n, pairs, env, status) == commands_cost(a, n, pairs, env, status),
    decreases n,
{
    if n > 0 {
        lemma_costs_front(a, b, n - 1, pairs, env, status);
        assert((a + b)[n - 1] == a[n - 1]);
    }
}

proof fn lemma_costs(
    a: Seq<SimpleView>,
    b: Seq<SimpleView>,
    n: int,
    pairs: Seq<(Seq<char>, Seq<char>)>,
    env: Map<Seq<char>, Seq<char>>,
    status: int,
)
    requires
        0 <= n <= b.len(),
    ensures
        commands_cost(a + b, a.len() + n, pairs, env, status) == commands_cost(
            a,
            a.len() as int,
            pairs,
            env,
            status,
        ) + commands_cost(b, n, pairs, env, status),
    decreases n,
{
    if n == 0 {
        lemma_costs_front(a, b, a.len() as int, pairs, env, status);
    } else {
        lemma_costs(a, b, n - 1, pairs, env, status);
        assert((a + b)[a.len() + n - 1] == b[n - 1]);
    }
}

/// A pipeline is admitted where its commands are no more than are left and its expansions fit in
/// the larger of the two input limits; where both fail, the number of commands is what is said.
pub proof fn law_pipelines_are_admitted_within_limits(
    commands: Seq<SimpleView>,
    pairs: Seq<(Seq<char>, Seq<char>)>,
    env: Map<Seq<char>, Seq<char>>,
    status: int,
    limits: Limits,
    command_count: int,
)
    requires
        commands.len() > 0,
        0 <= command_count <= limits.max_commands,
    ensures
        ({
            let decision = pipeline_admission(commands, pairs, env, status, limits, command_count);
            let cost = commands_cost(commands, commands.len() as int, pairs, env, status);
            &&& decision == Admission::TooManyCommands <==> commands.len() > limits.max_commands
                - command_count
            &&& decision == Admission::Admitted <==> commands.len() <= limits.max_commands
                - command_count && (cost <= limits.shell_input_bytes || cost
                <= limits.host_input_bytes)
        }),
{
}

/// The peak of several values is the largest, in whatever order they come, and values that are
/// not known do not count.
pub proof fn law_peaks_are_the_largest(a: Option<usize>, b: Option<usize>, c: Option<usize>)
    ensures
        peak(a, b) == peak(b, a),
        peak(peak(a, b), c) == peak(a, peak(b, c)),
        peak(a, None) == a,
        a is Some && b is Some ==> peak(a, b) is Some && peak(a, b)->Some_0 >= a->Some_0 && peak(
            a,
            b,
        )->Some_0 >= b->Some_0 && (peak(a, b) == a || peak(a, b) == b),
{
}

} // verus!
