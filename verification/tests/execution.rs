use tinysandbox::builder::{reserved_message, CommandSource, MachineBuilder, SandboxBuilder};
use tinysandbox::builtins::files::which_output;
use tinysandbox::command::{CommandResult, Limits};
use tinysandbox::control::{execution_deadline, Cancellation};
use tinysandbox::env::Env;
use tinysandbox::exec::{
    admission_message, admit_input, admit_pipeline, advance, after_pipeline, count_commands, first_place,
    parse_input, pipeline, record_peak, start_pipeline, timed_out, truncation_marker, Admission, CommandTiming, ExecMetrics, ExecState, PipelineStart, Place,
    Stop,
};
use tinysandbox::fs::{FsScope, Lookup};
use tinysandbox::machine;
use tinysandbox::output::{truncate_output, CappedOutput};
use tinysandbox::pipeline::{
    feeds_pipe, finish_assigned, finish_single, finish_stage, merge_outcomes, plan_single,
    plan_stage, single_step, stage_kind, stage_session, wire_stage, SingleStep, StageInput,
    StageKind, StageOutcome, StageOutput, Wiring,
};
use tinysandbox::redirect::{
    default_redirect_fd, outputs_to_close, plan_redirects, redirect_mode, redirect_target,
    replaced_input, CaptureFd, Finish, OutputDestination, RedirectAction, RedirectState,
    RedirectTable, WriteStep,
};
use tinysandbox::session::{
    dispatch_command, finish_cd, is_shell_builtin_name, not_found_message, plan_cd,
    run_export, run_unset, session_to_store, shell_builtin_of, Dispatch, Session, Sessions,
    ShellBuiltin,
};
use tinysandbox::shell::parse::parse;
use tinysandbox::shell::{Command, Program, RedirectOp, SimpleCommand};
use tinysandbox::vfs::{Errno, FileType, Metadata, OpenMode, VfsError};

fn program(input: &str) -> Program {
    parse(input).expect("parse should succeed")
}

fn simple(input: &str) -> SimpleCommand {
    let program = program(input);
    let Command::Simple(simple) = &program.lists[0].first.commands[0];
    simple.clone()
}

fn args(list: &[&str]) -> Vec<String> {
    list.iter().map(|arg| arg.to_string()).collect()
}

fn session(pairs: &[(&str, &str)]) -> Session {
    let mut env = Env::new();
    for (name, value) in pairs {
        env.insert(name.to_string(), value.to_string());
    }
    Session { cwd: "/workspace".to_string(), env, last_status: 0 }
}

const DIRECTORY: Metadata = Metadata { file_type: FileType::Directory, len: 0 };
const FILE: Metadata = Metadata { file_type: FileType::File, len: 3 };

/// The pipelines that run, when each ends with the status that is given for it.
fn order(input: &str, statuses: &[i32]) -> Vec<(usize, usize)> {
    let program = program(input);
    let mut ran = Vec::new();
    let mut place = first_place(&program);
    while let Some(at) = place {
        let status = statuses[ran.len()];
        ran.push((at.list, at.item));
        assert!(!pipeline(&program, at).commands.is_empty());
        place = advance(&program, at, status, false);
    }
    ran
}

#[test]
fn lists_run_in_order_and_operators_look_at_the_status() {
    assert_eq!(order("a; b", &[1, 0]), vec![(0, 0), (1, 0)]);
    assert_eq!(order("a && b || c", &[0, 0]), vec![(0, 0), (0, 1)]);
    assert_eq!(order("a && b || c", &[1, 0]), vec![(0, 0), (0, 2)]);
    assert_eq!(order("a && b || c", &[0, 1, 0]), vec![(0, 0), (0, 1), (0, 2)]);
    assert_eq!(order("a || b && c; d", &[0, 0, 0]), vec![(0, 0), (0, 2), (1, 0)]);
    assert_eq!(first_place(&program("")), None);
    let two = program("a; b");
    assert_eq!(advance(&two, Place { list: 0, item: 0 }, 0, true), None);
}

#[test]
fn input_is_bounded_and_must_parse() {
    let limits = Limits { shell_input_bytes: 5, ..Limits::default() };
    assert!(admit_input("a b c", limits).is_ok());
    let refused = admit_input("a b cd", limits).expect_err("too long");
    assert_eq!(refused.stderr, "tinysandbox: shell input limit exceeded\n");
    assert_eq!(refused.exit_code, 125);
    let refused = parse_input("echo 'x").expect_err("unterminated");
    assert_eq!(refused.exit_code, 2);
    assert_eq!(refused.stdout, "");
    assert!(refused.stderr.ends_with('\n'));
    assert!(refused.stderr.contains("quote"));
}

#[test]
fn an_execution_that_takes_too_long_is_dropped() {
    let result = timed_out("tinysandbox", 7);
    assert_eq!(result.exit_code, 124);
    assert_eq!(result.stdout, "");
    assert_eq!(result.stderr, "tinysandbox: command timed out\n");
    assert_eq!(result.metrics.wall_time, 7);
    let empty = ExecMetrics::empty(3);
    assert_eq!(empty.wall_time, 3);
    assert!(empty.commands.is_empty() && !empty.stdout_truncated);
}

#[test]
fn pipelines_are_admitted_before_they_are_expanded() {
    let limits = Limits { max_commands: 3, ..Limits::default() };
    let env = Env::new();
    let three = program("a | b | c");
    let pipe = &three.lists[0].first;
    assert_eq!(admit_pipeline(pipe, &env, 0, limits, 0), Admission::Admitted);
    assert_eq!(admit_pipeline(pipe, &env, 0, limits, 1), Admission::TooManyCommands);
    let tight = Limits { shell_input_bytes: 40, host_input_bytes: 40, ..limits };
    assert_eq!(admit_pipeline(pipe, &env, 0, tight, 0), Admission::ExpansionTooLarge);
    assert_eq!(
        admission_message(Admission::TooManyCommands),
        Some("tinysandbox: maximum command count exceeded\n")
    );
    assert_eq!(
        admission_message(Admission::ExpansionTooLarge),
        Some("tinysandbox: shell expansion limit exceeded\n")
    );
    assert_eq!(admission_message(Admission::Admitted), None);
}

fn table(input: &str) -> RedirectTable {
    plan_redirects(&simple(input).redirects, &Env::new(), 0).table
}

#[test]
fn the_order_of_redirects_matters() {
    assert_eq!(
        table("c > f 2>&1"),
        RedirectTable {
            stdin: None,
            stdout: OutputDestination::File(0),
            stderr: OutputDestination::File(0)
        }
    );
    assert_eq!(
        table("c 2>&1 > f"),
        RedirectTable {
            stdin: None,
            stdout: OutputDestination::File(1),
            stderr: OutputDestination::Capture(CaptureFd::Stdout)
        }
    );
    assert_eq!(
        table("c < i"),
        RedirectTable { stdin: Some(0), ..RedirectTable::default() }
    );
}

#[test]
fn redirects_are_planned_from_left_to_right() {
    let plan = plan_redirects(&simple("c > a >> b < i < j").redirects, &Env::new(), 0);
    assert_eq!(
        plan.actions,
        vec![
            RedirectAction::Output { fd: 1, path: "a".to_string(), append: false },
            RedirectAction::Output { fd: 1, path: "b".to_string(), append: true },
            RedirectAction::Input { path: "i".to_string() },
            RedirectAction::Input { path: "j".to_string() },
        ]
    );
    assert!(plan.failure.is_none());
    assert_eq!(outputs_to_close(&plan, 4, false), vec![0]);
    assert_eq!(outputs_to_close(&plan, 4, true), vec![0, 1]);
    assert_eq!(replaced_input(&plan, 2), None);
    assert_eq!(replaced_input(&plan, 3), Some(2));
    assert_eq!(redirect_mode(&plan.actions[2]), Some(OpenMode::read_only()));
    assert_eq!(
        redirect_mode(&plan.actions[0]),
        Some(OpenMode::write_only().create().truncate())
    );
    assert_eq!(
        redirect_mode(&plan.actions[1]),
        Some(OpenMode::write_only().create().append())
    );
    assert_eq!(redirect_mode(&RedirectAction::Duplicate { fd: 2, target: 1 }), None);
    assert_eq!(default_redirect_fd(RedirectOp::Read), 0);
    assert_eq!(default_redirect_fd(RedirectOp::Append), 1);
}

#[test]
fn a_redirect_must_name_one_file() {
    let mut env = Env::new();
    env.insert("TWO".to_string(), "a b".to_string());
    let plan = plan_redirects(&simple("c > ok > $TWO > later").redirects, &env, 0);
    assert_eq!(plan.actions.len(), 1);
    assert_eq!(plan.failure, Some(("a".to_string(), VfsError::new(Errno::EINVAL))));
    let plan = plan_redirects(&simple("c > $NONE").redirects, &env, 0);
    assert_eq!(plan.failure, Some((String::new(), VfsError::new(Errno::ENOENT))));
    let plan = plan_redirects(&simple("c 3> f").redirects, &env, 0);
    assert_eq!(plan.failure, Some(("f".to_string(), VfsError::new(Errno::EINVAL))));
    let command = simple("c \"$TWO\"");
    assert_eq!(redirect_target(&command.words[1], &env, 0), Ok("a b".to_string()));
}

#[test]
fn a_file_behind_an_output() {
    let io = VfsError::new(Errno::EIO);
    let mut state = RedirectState::opened();
    assert_eq!(state.accept(0), Ok(0));
    assert_eq!(state.accept(70_000), Ok(65_536));
    assert_eq!(state.accept(1), Err(io));
    assert_eq!(state.wrote(Ok(5), 10, Ok(())), WriteStep::More);
    assert_eq!(state.wrote(Ok(5), 5, Ok(())), WriteStep::Done);
    assert_eq!(state.offset, 10);
    assert_eq!(state.accept(1), Ok(1));
    assert_eq!(state.wrote(Ok(0), 1, Ok(())), WriteStep::Failed);
    assert_eq!(state.accept(1), Err(VfsError::new(Errno::ENOSPC)));
    assert_eq!(state.begin_finish(false), Finish::Abort);
    assert_eq!(state.begin_finish(false), Finish::Nothing);
    assert_eq!(state.end_finish(Ok(())), Err(VfsError::new(Errno::ENOSPC)));
    let mut state = RedirectState::opened();
    assert_eq!(state.begin_finish(false), Finish::Close);
    assert_eq!(state.accept(1), Err(VfsError::new(Errno::EBADF)));
    assert_eq!(state.end_finish(Err(io)), Err(io));
    let mut state = RedirectState::opened();
    assert_eq!(state.begin_finish(true), Finish::Abort);
    assert_eq!(state.end_finish(Ok(())), Ok(()));
}

#[test]
fn pipes_join_neighbours() {
    let plain = RedirectTable::default();
    assert_eq!(
        wire_stage(plain, 0, 2),
        Wiring {
            stdin: StageInput::Empty,
            stdout: StageOutput::Pipe(0),
            stderr: StageOutput::Stderr
        }
    );
    assert_eq!(
        wire_stage(plain, 1, 2),
        Wiring {
            stdin: StageInput::Pipe(0),
            stdout: StageOutput::Stdout,
            stderr: StageOutput::Stderr
        }
    );
    let both = wire_stage(table("c 2>&1"), 0, 2);
    assert_eq!(both.stderr, StageOutput::Pipe(0));
    assert!(feeds_pipe(both));
    let away = wire_stage(table("c > f"), 0, 2);
    assert_eq!(away.stdout, StageOutput::File(0));
    assert!(!feeds_pipe(away));
    assert_eq!(wire_stage(table("c < f"), 1, 2).stdin, StageInput::File(0));
}

#[test]
fn a_stage_does_not_change_the_session_but_a_single_assignment_does() {
    let mut s = session(&[("A", "1")]);
    let plan = plan_stage(&simple("A=2 B=$A cmd x $A"), &s, 9);
    assert_eq!(plan.name, "cmd");
    assert_eq!(plan.args, args(&["x", "1"]));
    assert_eq!(plan.env.get("A").map(String::as_str), Some("2"));
    assert_eq!(plan.env.get("B").map(String::as_str), Some("2"));
    assert_eq!(plan.env.get("?").map(String::as_str), Some("9"));
    assert!(plan.counts_command);
    assert_eq!(s.env.get("A").map(String::as_str), Some("1"));
    let limits = Limits { max_commands: 2, ..Limits::default() };
    let mut state = ExecState::new(0);
    let plan = plan_single(&simple("A=2"), &mut s, &mut state, limits).expect("a plan");
    assert_eq!(state.command_count, 1);
    assert!(!plan.counts_command);
    assert_eq!(s.env.get("A").map(String::as_str), Some("2"));
    let plan = plan_single(&simple("A=3 cmd"), &mut s, &mut state, limits).expect("a plan");
    assert!(plan.counts_command);
    assert_eq!(s.env.get("A").map(String::as_str), Some("2"));
    assert_eq!(state.command_count, 2);
    let Err(stop) = plan_single(&simple("A=4"), &mut s, &mut state, limits) else {
        panic!("refused")
    };
    assert_eq!(stop.status, 125);
    assert_eq!(stop.message, Some("tinysandbox: maximum command count exceeded\n"));
    assert_eq!((state.command_count, state.limit_hit), (2, true));
    assert_eq!(s.env.get("A").map(String::as_str), Some("2"));
}

#[test]
fn commands_are_counted_before_they_run() {
    let limits = Limits { max_commands: 3, ..Limits::default() };
    let env = session(&[]).env;
    let mut state = ExecState::new(0);
    let program = program("a | b; c; d | e");
    let first = first_place(&program).expect("a place");
    let two = pipeline(&program, first);
    assert_eq!(
        start_pipeline(two, &env, &mut state, limits, true),
        PipelineStart::Stopped(Stop { status: 124, message: None })
    );
    assert!(!state.limit_hit);
    assert_eq!(start_pipeline(two, &env, &mut state, limits, false), PipelineStart::Stages);
    assert_eq!(count_commands(&mut state, 2, limits), Ok(()));
    assert_eq!(state.command_count, 2);
    let second = advance(&program, first, 0, false).expect("a place");
    let one = pipeline(&program, second);
    assert_eq!(start_pipeline(one, &env, &mut state, limits, false), PipelineStart::Single);
    let third = advance(&program, second, 0, false).expect("a place");
    let stop = Stop {
        status: 125,
        message: Some("tinysandbox: maximum command count exceeded\n"),
    };
    let refused = start_pipeline(pipeline(&program, third), &env, &mut state, limits, false);
    assert_eq!(refused, PipelineStart::Stopped(stop));
    assert!(state.limit_hit);
    assert_eq!(count_commands(&mut state, 2, limits), Err(stop));
    assert_eq!(state.command_count, 2);
}

#[test]
fn what_becomes_of_a_command() {
    let s = session(&[]);
    let plan = plan_stage(&simple("cmd"), &s, 0);
    let missing = || Some(("f".to_string(), VfsError::new(Errno::ENOENT)));
    let said = "cmd: f: No such file or directory\n".to_string();
    assert_eq!(stage_kind(&plan, None), StageKind::Command);
    assert_eq!(stage_kind(&plan, missing()), StageKind::Failed { message: said.clone() });
    assert_eq!(single_step(&plan, missing(), true), SingleStep::Failed { status: 1, message: said });
    assert_eq!(single_step(&plan, None, true), SingleStep::Run(Dispatch::Registered));
    assert_eq!(single_step(&plan, None, false), SingleStep::Run(Dispatch::NotFound));
    let cd = plan_stage(&simple("cd /"), &s, 0);
    assert_eq!(
        single_step(&cd, None, true),
        SingleStep::Run(Dispatch::Shell(ShellBuiltin::Cd))
    );
    assert_eq!(single_step(&cd, None, false), SingleStep::Run(Dispatch::NotFound));
    let null = plan_stage(&simple("A=1"), &s, 0);
    assert_eq!(stage_kind(&null, None), StageKind::AssignmentOnly);
    assert_eq!(single_step(&null, None, true), SingleStep::Assigned);
    assert_eq!(finish_assigned(None), (0, None));
    assert_eq!(
        finish_assigned(missing()),
        (1, Some("tinysandbox: f: No such file or directory\n".to_string()))
    );
}

#[test]
fn the_status_of_a_stage() {
    let mut state = ExecState::new(0);
    let result = CommandResult::new(3).with_peak_wasm_memory(7);
    assert_eq!(finish_single(&mut state, "c", result, 9, &vec![]), (3, vec![]));
    let full = vec![("f".to_string(), VfsError::new(Errno::ENOSPC))];
    let (status, messages) =
        finish_single(&mut state, "d", CommandResult::success(), 1, &full);
    assert_eq!((status, messages), (1, args(&["d: f: No space left on device\n"])));
    let timings: Vec<_> =
        state.timings.iter().map(|t| (t.name.as_str(), t.duration, t.exit_code)).collect();
    assert_eq!(timings, vec![("c", 9, 3), ("d", 1, 1)]);
    assert_eq!(state.peak_wasm_memory_bytes, Some(7));
    assert_eq!(finish_stage("c", 3, &vec![], false), (3, vec![]));
    assert_eq!(finish_stage("c", 3, &vec![], true), (141, vec![]));
    assert_eq!(finish_stage("c", 0, &vec![], true), (0, vec![]));
    assert_eq!(
        finish_stage("c", 0, &vec![("f".to_string(), VfsError::new(Errno::ENOSPC))], true),
        (1, args(&["c: f: No space left on device\n"]))
    );
}

#[test]
fn the_last_stage_decides() {
    let outcome = |name: &str, code: i32, peak: Option<usize>| {
        Some(StageOutcome {
            timing: CommandTiming { name: name.to_string(), duration: 1, exit_code: code },
            exit_code: code,
            peak_wasm_memory_bytes: peak,
            redirect_errors: vec![format!("{name}!")],
            counts_command: name != "null",
        })
    };
    let mut state = ExecState::new(0);
    let stages = vec![outcome("a", 1, Some(5)), outcome("null", 2, None), outcome("b", 0, Some(3))];
    let (status, said) = merge_outcomes(&mut state, &stages, &vec![4, 8]);
    assert_eq!(status, 0);
    assert_eq!(said, args(&["a!", "null!", "b!"]));
    assert_eq!(state.pipe_bytes, vec![4, 8]);
    assert_eq!(state.peak_wasm_memory_bytes, Some(5));
    let names: Vec<&str> = state.timings.iter().map(|timing| timing.name.as_str()).collect();
    assert_eq!(names, vec!["a", "b"]);
    let failed = StageOutcome::failed("c", true, "no pipe\n");
    assert_eq!(failed.exit_code, 1);
    assert_eq!(failed.redirect_errors, args(&["c: no pipe\n"]));
}

#[test]
fn peaks_only_grow() {
    assert_eq!(record_peak(None, None), None);
    assert_eq!(record_peak(Some(3), None), Some(3));
    assert_eq!(record_peak(Some(3), Some(2)), Some(3));
    assert_eq!(record_peak(None, Some(2)), Some(2));
    let mut state = ExecState::new(4);
    state.record_peak_wasm_memory(7);
    let result = state.into_result((b"out\xff".to_vec(), true), (b"err".to_vec(), false), 9);
    assert_eq!(result.stdout, "out\u{fffd}");
    assert_eq!(result.stderr, "err");
    assert_eq!(result.exit_code, 4);
    assert!(result.metrics.stdout_truncated && !result.metrics.stderr_truncated);
    assert_eq!(result.metrics.peak_wasm_memory_bytes, Some(7));
    assert_eq!(result.metrics.wall_time, 9);
}

#[test]
fn cd_changes_the_directory_only_when_there_is_one() {
    let mut s = session(&[("HOME", "/home")]);
    assert_eq!(plan_cd(&args(&["a", "b"]), &s).unwrap_err().stderr, "cd: too many arguments\n");
    assert_eq!(plan_cd(&args(&[]), &session(&[])).unwrap_err().stderr, "cd: HOME not set\n");
    assert_eq!(plan_cd(&args(&[]), &s).expect("home").path, "/home");
    let cd = plan_cd(&args(&["../x/."]), &s).expect("planned");
    assert_eq!(cd.path, "/x");
    let missing = finish_cd(&mut s, cd, Err(VfsError::new(Errno::ENOENT)));
    assert_eq!(missing.exit_code, 1);
    assert_eq!(s.cwd, "/workspace");
    let cd = plan_cd(&args(&["f"]), &s).expect("planned");
    let file = finish_cd(&mut s, cd, Ok(FILE));
    assert_eq!(file.exit_code, 1);
    assert_eq!(s.cwd, "/workspace");
    let cd = plan_cd(&args(&["sub"]), &s).expect("planned");
    assert_eq!(finish_cd(&mut s, cd, Ok(DIRECTORY)).exit_code, 0);
    assert_eq!(s.cwd, "/workspace/sub");
    assert_eq!(s.env.get("PWD").map(String::as_str), Some("/workspace/sub"));
    assert_eq!(s.env.get("OLDPWD").map(String::as_str), Some("/workspace"));
}

#[test]
fn export_sets_and_unset_undoes() {
    let mut s = session(&[]);
    assert_eq!(run_export(&mut s, &args(&["A=1", "B=x=y"])).exit_code, 0);
    assert_eq!(s.env.get("B").map(String::as_str), Some("x=y"));
    assert_eq!(run_unset(&mut s, &args(&["B"])).exit_code, 0);
    assert_eq!(s.env.get("B"), None);
    let listed = run_export(&mut s, &args(&[]));
    assert!(listed.stdout.contains("declare -x A=\"1\"\n"));
    let refused = run_export(&mut s, &args(&["1A=2"]));
    assert_eq!(refused.exit_code, 1);
    assert_eq!(refused.stderr, "export: `1A=2': not a valid identifier\n");
    let refused = run_unset(&mut s, &args(&["a-b"]));
    assert_eq!(refused.stderr, "unset: `a-b': not a valid identifier\n");
}

#[test]
fn sessions_are_kept_only_on_request() {
    let stored = || session(&[("A", "1")]);
    let changed = || session(&[("A", "2")]);
    let value = |s: Session| s.env.get("A").cloned();
    assert_eq!(value(session_to_store(stored(), changed(), true, false)), Some("2".to_string()));
    assert_eq!(value(session_to_store(stored(), changed(), false, false)), Some("1".to_string()));
    assert_eq!(value(session_to_store(stored(), changed(), true, true)), Some("1".to_string()));
}

#[test]
fn executions_start_afresh_or_go_on() {
    let ended = |value: &str| session(&[("A", value)]);
    let value = |s: &Session| s.env.get("A").cloned().unwrap_or_default();
    let mut fresh = Sessions::new(session(&[("A", "1")]), false);
    fresh.end(ended("2"), 5, false);
    assert_eq!((value(&fresh.start()), fresh.start().last_status), ("1".to_string(), 0));
    let mut lasting = Sessions::new(session(&[("A", "1")]), true);
    lasting.end(ended("2"), 5, false);
    assert_eq!((value(&lasting.start()), lasting.start().last_status), ("2".to_string(), 5));
    lasting.end(ended("3"), 7, true);
    assert_eq!((value(&lasting.start()), lasting.start().last_status), ("2".to_string(), 5));
    lasting.end(ended("4"), 0, false);
    assert_eq!((value(&lasting.start()), lasting.start().last_status), ("4".to_string(), 0));
}

#[test]
fn a_pipeline_leaves_its_status() {
    let program = program("a && b || c; d");
    let mut state = ExecState::new(9);
    let first = first_place(&program).expect("a pipeline");
    let next = after_pipeline(&program, first, 3, &mut state);
    assert_eq!((next, state.last_status), (Some(Place { list: 0, item: 2 }), 3));
    let next = after_pipeline(&program, next.expect("c"), 0, &mut state);
    assert_eq!((next, state.last_status), (Some(Place { list: 1, item: 0 }), 0));
    state.limit_hit = true;
    let next = after_pipeline(&program, next.expect("d"), 125, &mut state);
    assert_eq!((next, state.last_status), (None, 125));
}

#[test]
fn stages_see_the_status_before() {
    let s = session(&[("A", "1")]);
    for status in [0, 7, -1, i32::MAX, i32::MIN] {
        let plan = plan_stage(&simple("B=2 cd /x"), &s, status);
        let inner = stage_session(&plan, "/here");
        assert_eq!((inner.cwd.as_str(), inner.last_status), ("/here", status));
        assert_eq!(inner.env.get("B").map(String::as_str), Some("2"));
    }
    let mut plan = plan_stage(&simple("cd"), &s, 3);
    for (text, status) in [("+4", 4), ("x", 0), ("", 0), ("-", 0), ("2147483648", 0)] {
        plan.env.insert("?".to_string(), text.to_string());
        assert_eq!(stage_session(&plan, "/").last_status, status, "{text}");
    }
}

#[test]
fn a_machine_hands_outputs_on() {
    let mut state = ExecState::new(4);
    assert_eq!(machine::after_command(&mut state, 0, 3, 10), (false, true));
    assert_eq!(machine::after_command(&mut state, 1, 3, 20), (false, true));
    assert_eq!(machine::after_command(&mut state, 2, 3, 30), (true, false));
    assert_eq!(state.pipe_bytes, vec![10, 20]);
    state.limit_hit = true;
    assert_eq!(machine::after_command(&mut state, 0, 2, 5), (false, false));
    assert_eq!(state.pipe_bytes, vec![10, 20, 5]);
    assert_eq!(state.last_status, 4);
    let at = Place { list: 0, item: 0 };
    let (same, other) = (Place { list: 0, item: 1 }, Place { list: 1, item: 0 });
    assert_eq!(machine::kept_status(at, Some(same), 4, 9), 4);
    assert_eq!(machine::kept_status(at, Some(other), 4, 9), 9);
    assert_eq!(machine::kept_status(at, None, 4, 9), 9);
}

#[test]
fn commands_are_dispatched_by_name() {
    assert_eq!(shell_builtin_of("export"), Some(ShellBuiltin::Export));
    assert_eq!(shell_builtin_of("echo"), None);
    assert!(is_shell_builtin_name("unset") && !is_shell_builtin_name("ls"));
    assert_eq!(dispatch_command("cd", true), Dispatch::Shell(ShellBuiltin::Cd));
    assert_eq!(dispatch_command("cd", false), Dispatch::NotFound);
    assert_eq!(machine::dispatch_command("cd", false), Dispatch::Shell(ShellBuiltin::Cd));
    assert_eq!(not_found_message("nope"), "nope: command not found\n");
}

#[test]
fn output_keeps_both_ends_within_its_cap() {
    let marker = "[..]";
    let (kept, cut) = truncate_output(b"0123456789".to_vec(), 8, marker);
    assert_eq!(kept, b"01[..]89".to_vec());
    assert!(cut);
    assert_eq!(truncate_output(b"01".to_vec(), 8, marker), (b"01".to_vec(), false));
    assert_eq!(truncate_output(b"012345".to_vec(), 3, marker), (b"[..]".to_vec(), true));
    assert_eq!(truncation_marker(), "\n[tinysandbox: output truncated]\n");
    let mut capped = CappedOutput::new(8, marker);
    for chunk in [b"0123".as_slice(), b"4567", b"89"] {
        capped.write(chunk);
    }
    assert_eq!(capped.finish(), (b"01[..]89".to_vec(), true));
    let mut capped = CappedOutput::new(8, marker);
    capped.write(b"01234567");
    assert_eq!(capped.finish(), (b"01234567".to_vec(), false));
}

#[test]
fn results_and_limits_have_defaults() {
    assert_eq!(CommandResult::success().exit_code, 0);
    assert_eq!(CommandResult::failure().exit_code, 1);
    assert_eq!(CommandResult::new(5).with_peak_wasm_memory(9).peak_wasm_memory_bytes, Some(9));
    let limits = Limits::default();
    assert_eq!(limits.wall_time, 30_000_000_000);
    assert_eq!(limits.wasm_memory_bytes, 64 * 1024 * 1024);
    assert_eq!(limits.jq_input_bytes, 8 * 1024 * 1024);
    assert_eq!(machine::Limits::default().max_commands, 1024);
    assert_eq!(machine::CommandResult::failure().exit_code, 1);
}

#[test]
fn a_machine_plans_routes_and_finishes() {
    let limits = machine::Limits { max_commands: 1, stdout_bytes: 4, ..Default::default() };
    let mut s = session(&[]);
    let mut state = ExecState::new(0);
    let plan = machine::plan_command(&simple("X=1 cmd a > f"), &mut s, &mut state, limits);
    let machine::CommandPlan::Run { name, args, redirects, .. } = plan else { panic!("runs") };
    assert_eq!((name.as_str(), args.len()), ("cmd", 1));
    let routed = machine::route_output(redirects.table, &b"out".to_vec(), &b"err".to_vec());
    assert_eq!(routed.stdout_file, Some(0));
    assert_eq!((routed.stdout, routed.stderr), (b"".to_vec(), b"err".to_vec()));
    let plan = machine::plan_command(&simple("cmd"), &mut s, &mut state, limits);
    assert!(matches!(plan, machine::CommandPlan::TooMany));
    assert_eq!(plan.ended(), Some((125, Some("thinbox: maximum command count exceeded\n"))));
    assert!(state.limit_hit);
    assert_eq!(machine::too_many_message(), "thinbox: maximum command count exceeded\n");
    let mut state = ExecState::new(0);
    let plan = machine::plan_command(&simple("A=1 > f"), &mut s, &mut state, limits);
    assert!(matches!(plan, machine::CommandPlan::Assigned));
    assert_eq!(plan.ended(), Some((0, None)));
    assert_eq!(s.env.get("A").map(String::as_str), Some("1"));
    let result = machine::finish(state, b"12345".to_vec(), b"e".to_vec(), limits, 2);
    assert_eq!(result.stdout, "\n[thinbox: output truncated]\n");
    assert!(result.metrics.stdout_truncated && !result.metrics.stderr_truncated);
}

#[test]
fn parts_stop_with_the_whole_and_not_the_other_way_round() {
    let whole = Cancellation { own: false, parent: None, deadline: Some(100) };
    let part = Cancellation {
        own: true,
        parent: Some(false),
        deadline: Some(whole.child_deadline(500)),
    };
    assert_eq!(part.deadline, Some(100));
    assert!(part.is_cancelled(0));
    assert!(!whole.is_cancelled(0));
    assert!(whole.is_cancelled(100));
    assert_eq!(whole.remaining(40), Some(60));
    assert_eq!(whole.remaining(400), Some(0));
    let part = Cancellation { own: false, parent: Some(true), deadline: None };
    assert!(part.is_cancelled(0));
    assert!(!Cancellation::unscoped().is_cancelled(u128::MAX));
    assert_eq!(Cancellation::unscoped().child_deadline(5), 5);
    assert_eq!(execution_deadline(3, 4), 7);
    assert_eq!(execution_deadline(3, u128::MAX), 3);
}

#[test]
fn a_shell_starts_as_it_was_set_up() {
    let builder = SandboxBuilder::new(true);
    assert_eq!(builder.shell.cwd, "/workspace");
    assert_eq!(builder.shell.commands.get("js"), Some(&CommandSource::Builtin));
    assert_eq!(builder.shell.commands.get("cd"), Some(&CommandSource::Shell));
    assert_eq!(builder.shell.commands.get("nope"), None);
    let mut builder = builder.clear_mounts().persist_session(true);
    assert_eq!(builder.shell.session().env.get("PWD").map(String::as_str), Some("/"));
    assert!(builder.persist_session);
    builder.shell.command("greet", 7);
    builder.shell.without_command("jq");
    builder.shell.cwd("/a/../b");
    builder.shell.env("X", "1");
    let names = builder.shell.command_names();
    assert!(names.get("greet").is_some() && names.get("jq").is_none());
    let found = which_output(&args(&["greet", "jq"]), &names);
    assert_eq!(found, ("/bin/greet\n".to_string(), 1));
    let scope = FsScope { cwd: "/", commands: &names, max_depth: 8, cancelled: false };
    let Ok(Lookup::Known(metadata)) = scope.plan_stat("/bin/greet") else { panic!("known") };
    assert_eq!(metadata.file_type, FileType::File);
    assert_eq!(builder.shell.commands.get("greet"), Some(&CommandSource::Custom(7)));
    let session = builder.shell.session();
    assert_eq!(session.cwd, "/b");
    assert_eq!(session.env.get("PWD").map(String::as_str), Some("/b"));
    assert_eq!(session.env.get("X").map(String::as_str), Some("1"));
    let machine = MachineBuilder::new(false).limits(machine::Limits::default());
    assert_eq!(machine.shell.cwd, "/");
    assert_eq!(machine.shell.commands.get("js"), None);
    assert_eq!(
        reserved_message("SandboxBuilder", "cd"),
        "SandboxBuilder::command cannot register reserved shell builtin 'cd'; cd, export, and unset are interpreted by the shell"
    );
}

fn sendable<T: Send>() {}

#[test]
fn values_can_be_handed_to_other_threads() {
    sendable::<CappedOutput>();
    sendable::<Session>();
    sendable::<ExecState>();
    sendable::<Program>();
    sendable::<SandboxBuilder>();
    sendable::<tinysandbox::builtins::wc::Counter>();
    sendable::<tinysandbox::builtins::uniq::Runs>();
    sendable::<tinysandbox::builtins::head_tail::LineSelector>();
    sendable::<tinysandbox::builtins::sed::SedPlan>();
}
