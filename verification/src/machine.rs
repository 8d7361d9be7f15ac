//! The simpler machine: it runs the commands of a pipeline one after another, and hands what one
//! has printed to the next as a whole.

use vstd::prelude::*;

use crate::bytes;
use crate::command;
use crate::env::Env;
use crate::exec;
use crate::exec::{ExecState, Place};
use crate::output;
use crate::pipeline;
use crate::redirect;
use crate::redirect::{CaptureFd, OutputDestination, RedirectPlan, RedirectTable};
use crate::session;
use crate::session::{Dispatch, Session};
use crate::shell::SimpleCommand;
use crate::text;

verus! {

/// Exit status returned by a command.
#[derive(Debug, Clone, Copy, PartialEq, Eq, Structural)]
pub struct CommandResult {
    pub exit_code: i32,
}

impl CommandResult {
    pub fn new(exit_code: i32) -> (r: Self)
        ensures
            r.exit_code == exit_code,
    {
        CommandResult { exit_code }
    }

    pub fn success() -> (r: Self)
        ensures
            r.exit_code == 0,
    {
        CommandResult::new(0)
    }

    pub fn failure() -> (r: Self)
        ensures
            r.exit_code == 1,
    {
        CommandResult::new(1)
    }
}

/// Resource limits enforced for a machine.
#[derive(Debug, Clone, Copy, PartialEq, Eq, Structural)]
pub struct Limits {
    /// Maximum wall-clock time for one execution, in nanoseconds.
    pub wall_time: u128,
    pub stdout_bytes: usize,
    pub stderr_bytes: usize,
    pub max_commands: usize,
    pub sort_input_bytes: usize,
}

/// The limits that hold where none are set.
pub open spec fn default_limits() -> Limits {
    Limits {
        wall_time: 30_000_000_000,
        stdout_bytes: 1_048_576,
        stderr_bytes: 1_048_576,
        max_commands: 1024,
        sort_input_bytes: 8_388_608,
    }
}

impl Default for Limits {
    fn default() -> (r: Self)
        ensures
            r == default_limits(),
    {
        Limits {
            wall_time: 30 * command::SECOND,
            stdout_bytes: command::MIB,
            stderr_bytes: command::MIB,
            max_commands: 1024,
            sort_input_bytes: 8 * command::MIB,
        }
    }
}

/// Aggregate machine state useful for observability.
#[derive(Debug, Clone, Copy, PartialEq, Eq, Structural)]
pub struct MachineStats<S> {
    /// Quota usage, when the configured file system reports it.
    pub vfs: Option<S>,
    /// Number of commands run by this machine.
    pub commands_run: u64,
}

/// What becomes of a command of a machine.
#[derive(Debug)]
pub enum CommandPlan {
    /// One more command would be too many.
    TooMany,
    /// The command has only set variables.
    Assigned,
    /// The command runs.
    Run { name: String, args: Vec<String>, env: Env, redirects: RedirectPlan },
}

/// What is said when there are too many commands, which ends the execution with status 125.
pub fn too_many_message() -> (r: &'static str)
    ensures
        r@ == "thinbox: maximum command count exceeded\n"@,
{
    "thinbox: maximum command count exceeded\n"
}

impl CommandPlan {
    /// The status of a command that does not run, and what is said of it.
    pub fn ended(&self) -> (r: Option<(i32, Option<&'static str>)>)
        ensures
            match self {
                CommandPlan::TooMany => r matches Some((status, Some(said))) && status == 125
                    && said@ == "thinbox: maximum command count exceeded\n"@,
                CommandPlan::Assigned => r == Some((0i32, None::<&'static str>)),
                CommandPlan::Run { .. } => r is None,
            },
    {
        match self {
            CommandPlan::TooMany => Some((125, Some(too_many_message()))),
            CommandPlan::Assigned => Some((0, None)),
            CommandPlan::Run { .. } => None,
        }
    }
}

/// Plans the next command. A command without words sets variables of the session, and its
/// redirects are passed over.
pub fn plan_command(
    simple: &SimpleCommand,
    session: &mut Session,
    state: &mut ExecState,
    limits: Limits,
) -> (r: CommandPlan)
    ensures
        old(state).command_count >= limits.max_commands ==> {
            &&& r is TooMany
            &&& *final(state) == (ExecState { limit_hit: true, ..*old(state) })
            &&& final(session)@ == old(session)@
        },
        old(state).command_count < limits.max_commands ==> {
            let env = old(session)@.env;
            let status = old(state).last_status as int;
            let words = pipeline::stage_words(simple@, env, status);
            &&& *final(state) == (ExecState {
                command_count: (old(state).command_count + 1) as usize,
                ..*old(state)
            })
            &&& final(session)@ == (session::SessionView {
                env: pipeline::after_assignments(simple@, env, status),
                ..old(session)@
            })
            &&& words.len() == 0 ==> r is Assigned
            &&& words.len() > 0 ==> {
                &&& r matches CommandPlan::Run { name, args, env: seen, redirects }
                &&& name@ == words[0]
                &&& text::texts(args@) == words.skip(1)
                &&& seen@ == pipeline::stage_env(simple@, env, status)
                &&& pipeline::planned(redirects, simple@, env, status)
            }
        },
{
    if state.command_count >= limits.max_commands {
        state.limit_hit = true;
        return CommandPlan::TooMany;
    }
    state.command_count = state.command_count + 1;
    let command = session::prepare_command(simple, &session.env, state.last_status);
    if command.words.len() == 0 {
        session::assign(&mut session.env, &command.assignments);
        return CommandPlan::Assigned;
    }
    proof {
        assert(text::texts(command.words@)[0] == command.words@[0]@);
    }
    let name = command.words[0].clone();
    let args = command.args();
    let env = session::command_env(&session.env, &command, state.last_status);
    let redirects = redirect::plan_redirects(&simple.redirects, &session.env, state.last_status);
    CommandPlan::Run { name, args, env, redirects }
}

/// Decides who runs a command: what the shell runs itself cannot be taken away from a machine.
pub fn dispatch_command(name: &str, known: bool) -> (r: Dispatch)
    ensures
        r == (match session::shell_builtin(name@) {
            Some(builtin) => Dispatch::Shell(builtin),
            None => if known {
                Dispatch::Registered
            } else {
                Dispatch::NotFound
            },
        }),
{
    match session::shell_builtin_of(name) {
        Some(builtin) => Dispatch::Shell(builtin),
        None => {
            if known {
                Dispatch::Registered
            } else {
                Dispatch::NotFound
            }
        },
    }
}

/// What goes to a capture, of the two outputs of a command.
pub open spec fn captured(
    table: RedirectTable,
    stdout: Seq<u8>,
    stderr: Seq<u8>,
    to: CaptureFd,
) -> Seq<u8> {
    (if table.stdout == OutputDestination::Capture(to) {
        stdout
    } else {
        Seq::empty()
    }) + (if table.stderr == OutputDestination::Capture(to) {
        stderr
    } else {
        Seq::empty()
    })
}

/// What a command has printed, by where it goes.
#[derive(Debug)]
pub struct Routed {
    pub stdout: Vec<u8>,
    pub stderr: Vec<u8>,
    /// The redirects whose files get the outputs, the first output before the second.
    pub stdout_file: Option<usize>,
    pub stderr_file: Option<usize>,
}

pub open spec fn file_of(to: OutputDestination) -> Option<usize> {
    match to {
        OutputDestination::File(i) => Some(i),
        _ => None,
    }
}

/// Sends what a command has printed where its redirects say.
pub fn route_output(table: RedirectTable, stdout: &Vec<u8>, stderr: &Vec<u8>) -> (r: Routed)
    ensures
        r.stdout@ == captured(table, stdout@, stderr@, CaptureFd::Stdout),
        r.stderr@ == captured(table, stdout@, stderr@, CaptureFd::Stderr),
        r.stdout_file == file_of(table.stdout),
        r.stderr_file == file_of(table.stderr),
{
    let mut to_stdout: Vec<u8> = Vec::new();
    let mut to_stderr: Vec<u8> = Vec::new();
    let stdout_file = match table.stdout {
        OutputDestination::Capture(CaptureFd::Stdout) => {
            bytes::extend(&mut to_stdout, stdout.as_slice());
            None
        },
        OutputDestination::Capture(CaptureFd::Stderr) => {
            bytes::extend(&mut to_stderr, stdout.as_slice());
            None
        },
        OutputDestination::File(i) => Some(i),
    };
    let stderr_file = match table.stderr {
        OutputDestination::Capture(CaptureFd::Stdout) => {
            bytes::extend(&mut to_stdout, stderr.as_slice());
            None
        },
        OutputDestination::Capture(CaptureFd::Stderr) => {
            bytes::extend(&mut to_stderr, stderr.as_slice());
            None
        },
        OutputDestination::File(i) => Some(i),
    };
    proof {
        assert(to_stdout@ =~= captured(table, stdout@, stderr@, CaptureFd::Stdout));
        assert(to_stderr@ =~= captured(table, stdout@, stderr@, CaptureFd::Stderr));
    }
    Routed { stdout: to_stdout, stderr: to_stderr, stdout_file, stderr_file }
}

/// Takes note of the command at `index` of a pipeline of `total`, which has printed `output_len`
/// bytes, and tells whether these are the output of the pipeline and whether the next command runs.
/// What the next command reads is the output, whether it runs or not.
pub fn after_command(
    state: &mut ExecState,
    index: usize,
    total: usize,
    output_len: usize,
) -> (r: (bool, bool))
    requires
        index < total,
    ensures
        final(state).pipe_bytes@ == (if index + 1 < total {
            old(state).pipe_bytes@.push(output_len)
        } else {
            old(state).pipe_bytes@
        }),
        *final(state) == (ExecState { pipe_bytes: final(state).pipe_bytes, ..*old(state) }),
        r.0 == (index + 1 == total),
        r.1 == (index + 1 < total && !old(state).limit_hit),
{
    let last = index + 1 == total;
    if !last {
        state.pipe_bytes.push(output_len);
    }
    (last, !last && !state.limit_hit)
}

/// The status that `$?` stands for once the pipeline at `at` has ended with `status`, with `next`
/// to come: within a list it stays that of the list before.
pub fn kept_status(at: Place, next: Option<Place>, before: i32, status: i32) -> (r: i32)
    ensures
        r == (if next matches Some(place) && place.list == at.list {
            before
        } else {
            status
        }),
{
    match next {
        Some(place) => if place.list == at.list {
            before
        } else {
            status
        },
        None => status,
    }
}

/// The marker that a machine puts where output was cut.
pub fn truncation_marker() -> (r: &'static str)
    ensures
        r@ == "\n[thinbox: output truncated]\n"@,
{
    "\n[thinbox: output truncated]\n"
}

/// What a machine's execution results in, with what it has printed.
pub fn finish(
    state: ExecState,
    stdout: Vec<u8>,
    stderr: Vec<u8>,
    limits: Limits,
    wall_time: u128,
) -> (r: exec::ExecResult)
    ensures
        ({
            let marker = output::marker_bytes("\n[thinbox: output truncated]\n"@);
            let (out, out_cut) = output::capped_output(stdout@, limits.stdout_bytes as nat, marker);
            let (err, err_cut) = output::capped_output(stderr@, limits.stderr_bytes as nat, marker);
            r@ == (exec::ResultView {
                stdout: crate::builtins::lines::lossy_text(out),
                stderr: crate::builtins::lines::lossy_text(err),
                exit_code: state.last_status,
                metrics: exec::MetricsView {
                    wall_time,
                    commands: exec::timings_view(state.timings@),
                    pipe_bytes: state.pipe_bytes@,
                    stdout_truncated: out_cut,
                    stderr_truncated: err_cut,
                    peak_wasm_memory_bytes: state.peak_wasm_memory_bytes,
                },
            })
        }),
{
    let out = output::truncate_output(stdout, limits.stdout_bytes, truncation_marker());
    let err = output::truncate_output(stderr, limits.stderr_bytes, truncation_marker());
    state.into_result(out, err, wall_time)
}

/// What a command writes goes to where its table sends it, and nowhere else: with the two outputs
/// apart each capture holds its own, and with both in one the first output stands in front.
pub proof fn law_outputs_are_captured_where_they_go(
    stdin: Option<usize>,
    stdout: Seq<u8>,
    stderr: Seq<u8>,
    to: CaptureFd,
    other: OutputDestination,
)
    requires
        other != OutputDestination::Capture(to),
    ensures
        captured(
            RedirectTable { stdin, stdout: OutputDestination::Capture(to), stderr: other },
            stdout,
            stderr,
            to,
        ) == stdout,
        captured(
            RedirectTable { stdin, stdout: other, stderr: OutputDestination::Capture(to) },
            stdout,
            stderr,
            to,
        ) == stderr,
        captured(
            RedirectTable {
                stdin,
                stdout: OutputDestination::Capture(to),
                stderr: OutputDestination::Capture(to),
            },
            stdout,
            stderr,
            to,
        ) == stdout + stderr,
        captured(
            RedirectTable { stdin, stdout: other, stderr: other },
            stdout,
            stderr,
            to,
        ).len() == 0,
{
    assert(stdout + Seq::<u8>::empty() =~= stdout);
    assert(Seq::<u8>::empty() + stderr =~= stderr);
}

} // verus!
