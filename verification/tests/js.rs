use std::io::Write;

use tinysandbox::command::Limits;
use tinysandbox::host::{FetchResponse, HostError, JsGlobalError, SyscallError};
use tinysandbox::js::args::{parse_host_args, ArgValue, HostArgs};
use tinysandbox::js::calls::{
    action_error, after_removal, after_reply, encodable_bytes, file_value, host_limits, host_read_bytes,
    note_moved, parse_op, plan_host_call, read_value, readdir_value, removal_error, source_limit,
    stat_value, HostAction, HostLimits, HostOp, HostReply, HostStep, HostValue, RemovalPhase,
};
use tinysandbox::js::fetch::{
    called_global, fetch_timeout_error, finish_fetch, global_timeout_error, no_fetch_error,
    prepare_fetch, too_big_error, unknown_global_error, FetchHostRequest,
};
use tinysandbox::js::files::{commits, FdTable, FIRST_FD};
use tinysandbox::js::guest::{
    check_moved, end_guest, epoch_ticks, fault_message, guest_range, heap_limit, host_call_budget,
    input_copy, input_len, iovec_place, jq_guest_result, jq_table_growing, js_failure_result, js_table_growing,
    memory_pages, next_chunk_end, output_stream, random_bytes, start_guest, transfer_range,
    wasi_clock, wasi_output, GuestFault, GuestOutput, JqGuestEnd, JsFailure, JsStart, WasiClock,
    WasmLimiter, INITIAL_PAGES, RANDOM_SEED, WASI_BADF, WASI_INVAL, WASI_SUCCESS,
};
use tinysandbox::js::invocation::{load_script, plan_invocation, InvocationPlan};
use tinysandbox::js::node::{libuv_errno, name_of, node_errno_message, node_error, open_mode};
use tinysandbox::js::runtime::{
    check_install, compiled, engine_settings, install, precompile, runtime_source, CompileFault,
    InstallFault, PrecompileError, RuntimeCell, RuntimeSource,
};
use tinysandbox::js::transport::BoundedBytes;
use tinysandbox::vfs::{DirEntry, Errno, FileType, Metadata, OpenMode, VfsError};

const STREAM_CHUNK_BYTES: usize = 64 * 1024;

const LIMITS: HostLimits = HostLimits {
    host_input_bytes: 1000,
    host_response_bytes: 1128,
    fetch_response_bytes: 600,
};

fn args(list: &[&str]) -> Vec<String> {
    list.iter().map(|arg| arg.to_string()).collect()
}

fn call(op: &str, json: &str, table: &mut FdTable) -> Result<HostAction, (String, i32, String)> {
    let parsed = parse_host_args(json).expect("JSON");
    plan_host_call(op, &parsed, table, LIMITS)
        .map_err(|err| (err.code.to_string(), err.errno, err.syscall.to_string()))
}

fn bad() -> (String, i32, String) {
    ("EINVAL".to_string(), -22, "tinysandbox".to_string())
}

struct Bounded(BoundedBytes);

impl Write for Bounded {
    fn write(&mut self, data: &[u8]) -> std::io::Result<usize> {
        if self.0.write(data) {
            Ok(data.len())
        } else {
            Err(std::io::Error::other("host response exceeded limit"))
        }
    }

    fn flush(&mut self) -> std::io::Result<()> {
        Ok(())
    }
}

fn bounded_json(value: &serde_json::Value, cap: usize) -> serde_json::Result<Vec<u8>> {
    let mut writer = Bounded(BoundedBytes::new(cap));
    serde_json::to_writer(&mut writer, value)?;
    Ok(writer.0.into_bytes())
}

#[test]
fn bounded_serialization_stops_before_writing_an_oversized_value() {
    let mut object = serde_json::Map::new();
    object.insert("data".to_string(), serde_json::Value::String("x".repeat(512)));
    let value = serde_json::Value::Object(object);
    assert!(bounded_json(&value, 128).is_err());
    let exact = serde_json::to_vec(&value).unwrap();
    assert_eq!(bounded_json(&value, exact.len()).unwrap(), exact);
}

#[test]
fn host_transfers_reject_oversized_or_invalid_lengths_before_copying() {
    assert!(transfer_range(0, STREAM_CHUNK_BYTES as i32 + 1).is_err());
    assert!(transfer_range(0, -1).is_err());
    assert_eq!(transfer_range(100, 3).unwrap(), (100, 103));
}

#[test]
fn arguments_are_read_from_json() {
    let parsed =
        parse_host_args("{\"a\":null,\"b\":true,\"c\":7,\"d\":-7,\"e\":\"t\",\"f\":1.5,\"g\":[]}")
            .expect("JSON");
    assert_eq!(parsed.get("a"), Some(&ArgValue::Null));
    assert_eq!(parsed.get("b"), Some(&ArgValue::Bool(true)));
    assert_eq!(parsed.get("c"), Some(&ArgValue::Unsigned(7)));
    assert_eq!(parsed.get("d"), Some(&ArgValue::Negative(-7)));
    assert_eq!(parsed.get("e"), Some(&ArgValue::Text("t".to_string())));
    assert_eq!(parsed.get("f"), Some(&ArgValue::Other));
    assert_eq!(parsed.get("g"), Some(&ArgValue::Other));
    assert_eq!(parsed.get("h"), None);
    assert_eq!(parsed.string_arg("e").expect("text"), "t");
    assert!(parsed.bool_arg("b") && !parsed.bool_arg("c"));
    assert_eq!(parsed.i32_arg("d").expect("integer"), -7);
    assert_eq!(parsed.usize_arg("c").expect("integer"), 7);
    assert!(parsed.usize_arg("d").is_err());
    assert_eq!(parsed.u64_arg("a").expect("left out"), None);
    assert!(parsed.u64_arg("e").is_err());
    assert!(parse_host_args("[1]").expect("JSON").get("a").is_none());
    let err = parse_host_args("{").expect_err("not JSON");
    assert!(err.message.starts_with("invalid host call JSON: "));
    assert_eq!(err.code.as_deref(), Some("EINVAL"));
    let large = parse_host_args("{\"n\":4294967296}").expect("JSON");
    assert!(large.i32_arg("n").is_err());
}

#[test]
fn bytes_come_back_from_their_encoding() {
    let data = vec![0u8, 255, 16, 7];
    let HostValue::Text(encoded) = file_value(&data) else { panic!("text") };
    assert_eq!(encoded, "AP8QBw==");
    let sent = HostArgs { fields: vec![("data".to_string(), ArgValue::Text(encoded))] };
    assert_eq!(sent.bytes_arg("data").expect("encoded"), data);
    let broken = HostArgs { fields: vec![("data".to_string(), ArgValue::Text("?".to_string()))] };
    assert!(broken.bytes_arg("data").is_err());
    assert_eq!(
        read_value(&b"abcd".to_vec(), 2),
        HostValue::Read { bytes_read: 2, data: "YWI=".to_string() }
    );
}

#[test]
fn calls_by_path_are_planned() {
    let mut table = FdTable::new(2);
    let t = &mut table;
    let path = || "/p".to_string();
    assert_eq!(
        call("readFile", "{\"path\":\"/p\"}", t),
        Ok(HostAction::ReadFile { path: path(), limit: 750 })
    );
    assert_eq!(call("readFile", "{}", t), Err(bad()));
    assert_eq!(
        call("writeFile", "{\"path\":\"/p\",\"data\":\"YWI=\"}", t),
        Ok(HostAction::WriteFile { path: path(), data: b"ab".to_vec(), append: false })
    );
    assert_eq!(
        call("appendFile", "{\"path\":\"/p\",\"data\":\"\"}", t),
        Ok(HostAction::WriteFile { path: path(), data: vec![], append: true })
    );
    assert_eq!(call("mkdir", "{\"path\":\"/p\"}", t), Ok(HostAction::Mkdir { path: path() }));
    assert_eq!(
        call("mkdir", "{\"path\":\"/p\",\"recursive\":true}", t),
        Ok(HostAction::MkdirAll { path: path() })
    );
    assert_eq!(
        call("readdir", "{\"path\":\"/p\",\"withFileTypes\":true}", t),
        Ok(HostAction::ReadDir { path: path(), with_types: true })
    );
    assert_eq!(call("stat", "{\"path\":\"/p\"}", t), Ok(HostAction::Stat { path: path() }));
    assert_eq!(
        call("rename", "{\"from\":\"/p\",\"to\":\"/q\"}", t),
        Ok(HostAction::Rename { from: path(), to: "/q".to_string() })
    );
    assert_eq!(
        call("rm", "{\"path\":\"/p\",\"force\":true}", t),
        Ok(HostAction::Remove { path: path(), recursive: false, force: true })
    );
    assert_eq!(
        call("rmdir", "{\"path\":\"/p\",\"recursive\":true}", t),
        Ok(HostAction::Remove { path: path(), recursive: true, force: false })
    );
    assert_eq!(call("unlink", "{\"path\":\"/p\"}", t), Ok(HostAction::Unlink { path: path() }));
    assert_eq!(call("exists", "{\"path\":\"/p\"}", t), Ok(HostAction::Exists { path: path() }));
    assert_eq!(call("nope", "{\"path\":\"/p\"}", t), Err(bad()));
    assert_eq!(parse_op("copyFile"), Some(HostOp::CopyFile));
    assert_eq!(parse_op(""), None);
}

#[test]
fn descriptors_are_planned_and_closed_once() {
    let mut table = FdTable::new(1);
    let t = &mut table;
    assert_eq!(
        call("open", "{\"path\":\"/p\",\"flags\":\"r\"}", t),
        Ok(HostAction::Open { path: "/p".to_string(), mode: OpenMode::read_only() })
    );
    let refused = call("open", "{\"path\":\"/p\",\"flags\":\"?\"}", t);
    assert_eq!(refused, Err(("EINVAL".to_string(), -22, "open".to_string())));
    let fd = t.insert(77);
    assert_eq!(fd, FIRST_FD);
    assert!(t.full());
    let full = call("open", "{\"path\":\"/p\",\"flags\":\"r\"}", t);
    assert_eq!(full, Err(("ENOSPC".to_string(), -28, "open".to_string())));
    note_moved(t, fd, 5, true);
    note_moved(t, fd, 9, false);
    assert_eq!(
        call("read", "{\"fd\":3,\"length\":100000}", t),
        Ok(HostAction::Read { fd: 3, handle: 77, offset: 5, len: 750, moves: true })
    );
    assert_eq!(
        call("read", "{\"fd\":3,\"length\":2,\"position\":1}", t),
        Ok(HostAction::Read { fd: 3, handle: 77, offset: 1, len: 2, moves: false })
    );
    assert_eq!(
        call("write", "{\"fd\":3,\"data\":\"YQ==\"}", t),
        Ok(HostAction::Write { fd: 3, handle: 77, offset: 5, data: b"a".to_vec(), moves: true })
    );
    assert_eq!(
        call("ftruncate", "{\"fd\":3}", t),
        Ok(HostAction::Truncate { handle: 77, len: 0 })
    );
    assert_eq!(call("close", "{\"fd\":3}", t), Ok(HostAction::Close { handle: 77 }));
    let closed = call("close", "{\"fd\":3}", t);
    assert_eq!(closed, Err(("EBADF".to_string(), -9, "close".to_string())));
    assert_eq!(
        call("copyFile", "{\"src\":\"/a\",\"dest\":\"/b\"}", t),
        Ok(HostAction::CopyFile { src: "/a".to_string(), dest: "/b".to_string(), limit: 1000 })
    );
}

#[test]
fn descriptors_are_not_given_twice() {
    let mut table = FdTable::new(10);
    let first = table.insert(1);
    let second = table.insert(2);
    assert_ne!(first, second);
    assert_eq!(table.remove(first).map(|file| file.handle), Some(1));
    assert_eq!(table.remove(first), None);
    assert_ne!(table.insert(3), second);
    table.set_position(second, 40);
    assert_eq!(table.get(second).map(|file| file.position), Some(40));
    let handles: Vec<u64> = table.take_all().iter().map(|file| file.handle).collect();
    assert_eq!(handles, vec![2, 3]);
    assert!(table.take_all().is_empty());
    assert!(commits(0, false));
    assert!(!commits(1, false) && !commits(0, true));
}

#[test]
fn replies_become_answers() {
    let mut table = FdTable::new(4);
    let t = &mut table;
    let missing = VfsError::new(Errno::ENOENT);
    let path = || "/p".to_string();
    let open = HostAction::Open { path: path(), mode: OpenMode::read_only() };
    assert_eq!(
        after_reply(&open, Ok(HostReply::Opened(9)), t),
        HostStep::Answer(Ok(HostValue::Number(3)))
    );
    let read = HostAction::Read { fd: 3, handle: 9, offset: 0, len: 8, moves: true };
    assert_eq!(
        after_reply(&read, Ok(HostReply::Data(b"ab".to_vec())), t),
        HostStep::Answer(Ok(HostValue::Read { bytes_read: 2, data: "YWI=".to_string() }))
    );
    let write =
        HostAction::Write { fd: 3, handle: 9, offset: 2, data: b"abc".to_vec(), moves: true };
    assert_eq!(
        after_reply(&write, Ok(HostReply::Moved(3)), t),
        HostStep::Answer(Ok(HostValue::Number(3)))
    );
    assert_eq!(t.get(3).map(|file| file.position), Some(5));
    let whole = HostAction::ReadFile { path: path(), limit: 10 };
    assert_eq!(
        after_reply(&whole, Ok(HostReply::Data(b"abc".to_vec())), t),
        HostStep::Answer(Ok(HostValue::Text("YWJj".to_string())))
    );
    let HostStep::Answer(Err(failure)) = after_reply(&whole, Err(missing), t) else {
        panic!("a failure")
    };
    assert_eq!((failure.code, failure.syscall), ("ENOENT", "open"));
    let exists = HostAction::Exists { path: path() };
    let dir = Metadata { file_type: FileType::Directory, len: 0 };
    assert_eq!(
        after_reply(&exists, Err(missing), t),
        HostStep::Answer(Ok(HostValue::Bool(false)))
    );
    assert_eq!(
        after_reply(&exists, Ok(HostReply::Found(dir)), t),
        HostStep::Answer(Ok(HostValue::Bool(true)))
    );
    let copy = HostAction::CopyFile { src: path(), dest: "/q".to_string(), limit: 5 };
    assert_eq!(
        after_reply(&copy, Ok(HostReply::Data(b"x".to_vec())), t),
        HostStep::Ask(HostAction::CopyTo { dest: "/q".to_string(), data: b"x".to_vec() })
    );
    let rest = HostAction::CopyTo { dest: "/q".to_string(), data: b"x".to_vec() };
    assert_eq!(
        after_reply(&rest, Ok(HostReply::Done), t),
        HostStep::Answer(Ok(HostValue::Null))
    );
    let gone = Err((RemovalPhase::Look, path(), missing));
    assert_eq!(after_removal(gone, true), Ok(HostValue::Null));
    let gone = Err((RemovalPhase::List, path(), missing));
    assert_eq!(after_removal(gone, false).map_err(|err| err.syscall), Err("scandir"));
}

#[test]
fn answers_have_their_shapes() {
    let file = Metadata { file_type: FileType::File, len: 4 };
    assert_eq!(
        stat_value(file),
        HostValue::Stat { size: 4, is_file: true, is_directory: false }
    );
    let entries = vec![DirEntry { name: "f".to_string(), metadata: file }];
    assert_eq!(readdir_value(&entries, false), HostValue::Names(args(&["f"])));
    assert_eq!(
        readdir_value(&entries, true),
        HostValue::Entries(vec![("f".to_string(), true, false)])
    );
    let missing = VfsError::new(Errno::ENOENT);
    let copy = HostAction::CopyFile { src: "/a".to_string(), dest: "/b".to_string(), limit: 1 };
    assert_eq!(action_error(&copy, missing).path.as_deref(), Some("/a"));
    let rest = HostAction::CopyTo { dest: "/b".to_string(), data: vec![1] };
    assert_eq!(action_error(&rest, missing).path.as_deref(), Some("/b"));
    let scan = HostAction::ReadDir { path: "/d".to_string(), with_types: false };
    assert_eq!(action_error(&scan, missing).syscall, "scandir");
    assert_eq!(removal_error(RemovalPhase::Look, "/x", missing, true), None);
    let err = removal_error(RemovalPhase::Rmdir, "/x", missing, false).expect("an error");
    assert_eq!(err.syscall, "rmdir");
}

#[test]
fn sizes_leave_room_for_encoding() {
    assert_eq!(encodable_bytes(100), 0);
    assert_eq!(encodable_bytes(132), 3);
    assert_eq!(host_read_bytes(LIMITS), 750);
    assert_eq!(host_read_bytes(HostLimits { host_input_bytes: 10, ..LIMITS }), 10);
    let limits = Limits { host_input_bytes: 5, wasm_memory_bytes: 9, ..Limits::default() };
    assert_eq!(source_limit(limits), 5);
    assert_eq!(host_limits(limits).host_response_bytes, 9);
}

#[test]
fn failures_are_shaped_as_nodes() {
    let err = node_error(VfsError::new(Errno::ENOENT), "open", Some("/x".to_string()));
    assert_eq!(err.code, "ENOENT");
    assert_eq!(err.errno, -2);
    assert_eq!(err.message, "no such file or directory");
    assert_eq!(err.path.as_deref(), Some("/x"));
    assert_eq!(libuv_errno(Errno::ENOTEMPTY), -66);
    assert_eq!(name_of(Errno::EXDEV), "EXDEV");
    assert_eq!(node_errno_message(Errno::EACCES), "permission denied");
    assert_eq!(open_mode("ax+"), Ok(OpenMode::read_write().create_new().append()));
    assert_eq!(open_mode("w"), Ok(OpenMode::write_only().create().truncate()));
    assert_eq!(open_mode("rw"), Err(VfsError::new(Errno::EINVAL)));
}

#[test]
fn fetches_are_prepared_and_bounded() {
    let request = |body: Option<&str>| FetchHostRequest {
        url: "u".to_string(),
        method: "POST".to_string(),
        headers: vec![("a".to_string(), "b".to_string())],
        body: body.map(str::to_string),
    };
    let prepared = prepare_fetch(request(Some("aGk="))).expect("encoded");
    assert_eq!(prepared.body, Some(b"hi".to_vec()));
    assert_eq!(prepared.method, "POST");
    assert_eq!(prepare_fetch(request(None)).expect("no body").body, None);
    assert_eq!(
        prepare_fetch(request(Some("?"))).expect_err("refused").message,
        "invalid fetch request body encoding"
    );
    let response = |n: usize| FetchResponse { status: 200, headers: vec![], body: vec![b'x'; n] };
    assert_eq!(finish_fetch(response(2), LIMITS).expect("fits").body, "eHg=");
    assert_eq!(
        finish_fetch(response(601), LIMITS).expect_err("refused").message,
        "fetch response body exceeded limit of 600 bytes"
    );
    let tight = HostLimits { host_response_bytes: 132, ..LIMITS };
    let err = finish_fetch(response(4), tight).expect_err("refused");
    assert_eq!(err, too_big_error(132));
    assert_eq!(err.code.as_deref(), Some("E2BIG"));
    assert_eq!(
        no_fetch_error().message,
        "network is not available in this sandbox: no fetch handler registered"
    );
    assert_eq!(fetch_timeout_error().message, "fetch timed out");
}

#[test]
fn globals_are_called_by_name() {
    let named = parse_host_args("{\"name\":\"kv.get\"}").expect("JSON");
    assert_eq!(called_global(&named).expect("named"), "kv.get");
    let unnamed = parse_host_args("{\"name\":1}").expect("JSON");
    assert_eq!(
        called_global(&unnamed).expect_err("refused").message,
        "global host call requires a string name"
    );
    assert_eq!(unknown_global_error("x").message, "unknown global 'x'");
    assert_eq!(global_timeout_error("x").message, "global 'x' timed out");
    assert_eq!(HostError::new("m").with_code("E").code.as_deref(), Some("E"));
    assert_eq!(SyscallError::new("m").with_code("E").message, "m");
    assert_eq!(JsGlobalError::new("m".to_string()).message(), "m");
}

#[test]
fn scripts_are_found_and_read() {
    let Ok(InvocationPlan::Eval(run)) = plan_invocation(&args(&["-e", "1", "a"]), 10) else {
        panic!("code")
    };
    assert_eq!((run.code.as_str(), run.script_path.as_str()), ("1", "[eval]"));
    assert_eq!(run.argv, args(&["js", "-e", "a"]));
    let Ok(InvocationPlan::Script { script, argv }) = plan_invocation(&args(&["s.js", "a"]), 10)
    else {
        panic!("script")
    };
    assert_eq!(script, "s.js");
    let refused = |list: &[&str]| plan_invocation(&args(list), 3).expect_err("refused");
    assert_eq!(refused(&[]), "js: usage: js [-e code] script.js [args...]\n");
    assert_eq!(refused(&["-e"]), "js: option requires an argument -- e\n");
    assert_eq!(refused(&["-x"]), "js: unsupported option -x\n");
    assert_eq!(refused(&["-e", "1234"]), "js: script source exceeded limit of 3 bytes\n");
    let load = |data| load_script("s.js", argv.clone(), "/w/s.js".to_string(), data);
    assert_eq!(load(Ok(b"x".to_vec())).expect("text").script_path, "/w/s.js");
    assert_eq!(
        load(Ok(vec![0xff])).expect_err("not text"),
        "js: s.js: script is not valid UTF-8\n"
    );
    assert_eq!(
        load(Err(VfsError::new(Errno::ENOENT))).expect_err("missing"),
        "js: s.js: no such file or directory\n"
    );
}

#[test]
fn guest_memory_is_checked() {
    assert_eq!(guest_range(4, 4, 8), Ok((4, 8)));
    assert_eq!(guest_range(4, 5, 8), Err(GuestFault::OutOfMemory));
    assert_eq!(guest_range(-1, 1, 8), Err(GuestFault::NegativePointer));
    assert_eq!(guest_range(1, -1, 8), Err(GuestFault::NegativeLength));
    assert_eq!(next_chunk_end(0, 20_000), 16_384);
    assert_eq!(next_chunk_end(16_384, 20_000), 20_000);
    assert_eq!(input_len(1, &vec![3, 5]), 5);
    assert_eq!(input_len(2, &vec![3, 5]), -1);
    assert_eq!(input_copy(1, 2, &vec![3, 5], 2), Ok((1, 2, 2)));
    assert_eq!(input_copy(1, 4, &vec![3, 5], 9), Ok((1, 4, 1)));
    assert_eq!(input_copy(1, 6, &vec![3, 5], 9), Err(GuestFault::NoSuchInput));
    assert_eq!(output_stream(1), Ok(GuestOutput::Stdout));
    assert_eq!(output_stream(2), Ok(GuestOutput::Stderr));
    assert_eq!(output_stream(3), Err(GuestFault::NoSuchOutput));
    assert_eq!(check_moved(3, 3), Some(3));
    assert_eq!(check_moved(-1, 3), None);
    assert!(!fault_message(GuestFault::TransferTooLarge).is_empty());
}

#[test]
fn guest_memory_grows_within_its_limit() {
    let mut limiter = WasmLimiter::new(100);
    assert!(limiter.memory_growing(60));
    assert!(!limiter.memory_growing(101));
    assert!(limiter.limit_exceeded);
    assert_eq!(limiter.peak_memory_bytes, 60);
    limiter.record_peak(80);
    limiter.record_peak(10);
    assert_eq!(limiter.peak_memory_bytes, 80);
    assert!(js_table_growing(5, Some(5)) && !js_table_growing(6, Some(5)));
    assert!(jq_table_growing(1));
    assert_eq!(memory_pages(INITIAL_PAGES * 65_536), Some(INITIAL_PAGES as u32));
    assert_eq!(memory_pages(INITIAL_PAGES * 65_536 - 1), None);
    assert_eq!(heap_limit(5), 5);
    assert_eq!(heap_limit(usize::MAX), i32::MAX);
}

#[test]
fn guests_are_started_within_their_limits() {
    let bytes = INITIAL_PAGES * 65_536;
    assert_eq!(
        start_guest(false, 12_000_000, 4, 4, bytes),
        Ok(JsStart { max_pages: INITIAL_PAGES as u32, ticks: 3, heap_limit: bytes as i32 })
    );
    assert_eq!(start_guest(true, 1, 4, 4, bytes), Err(JsFailure::TimedOut));
    assert_eq!(start_guest(false, 0, 4, 4, bytes), Err(JsFailure::TimedOut));
    assert_eq!(
        start_guest(false, 1, 5, 4, bytes),
        Err(JsFailure::Other("script source exceeded limit of 4 bytes".to_string()))
    );
    assert_eq!(
        start_guest(false, 1, 4, 4, 10),
        Err(JsFailure::Other("tinysandbox wasm memory limit exceeded".to_string()))
    );
    assert_eq!(epoch_ticks(0), 1);
    assert_eq!(epoch_ticks(5_000_000), 1);
    assert_eq!(epoch_ticks(6_000_000), 2);
    assert_eq!(host_call_budget(100, 40), 90);
    assert_eq!(host_call_budget(5, 40), 0);
}

#[test]
fn guests_end_with_a_status() {
    let mut limiter = WasmLimiter::new(10);
    assert!(!limiter.memory_growing(11));
    let fine = WasmLimiter::new(10);
    let other = || Err(JsFailure::Other("x".to_string()));
    assert_eq!(end_guest(Ok(3), fine, false), Ok(3));
    assert_eq!(end_guest(Ok(3), fine, true), Err(JsFailure::TimedOut));
    assert_eq!(end_guest(other(), limiter, true), Err(JsFailure::MemoryExceeded { peak: 0 }));
    assert_eq!(end_guest(other(), fine, true), Err(JsFailure::TimedOut));
    assert_eq!(end_guest(other(), fine, false), other());
    let told = |failure: JsFailure| {
        let result = js_failure_result(&failure);
        (result.exit_code, result.stderr)
    };
    assert_eq!(told(JsFailure::TimedOut), (124, "js: command timed out\n".to_string()));
    assert_eq!(told(JsFailure::BrokenPipe), (141, String::new()));
    assert_eq!(
        told(JsFailure::MemoryExceeded { peak: 4 }),
        (1, "js: wasm memory limit exceeded\n".to_string())
    );
    assert_eq!(told(JsFailure::Other("x".to_string())), (1, "js: x\n".to_string()));
    let jq = |end: JqGuestEnd, late: bool, memory: WasmLimiter| {
        let (result, said) = jq_guest_result(&end, late, memory);
        (result.exit_code, said)
    };
    assert_eq!(jq(JqGuestEnd::Exited(3), false, fine), (3, None));
    assert_eq!(jq(JqGuestEnd::Exited(3), true, fine), (124, None));
    assert_eq!(jq(JqGuestEnd::Interrupted, false, fine), (124, None));
    assert_eq!(
        jq(JqGuestEnd::Interrupted, false, limiter),
        (5, Some("jq: memory limit exceeded\n".to_string()))
    );
    assert_eq!(
        jq(JqGuestEnd::Failed("x".to_string()), false, fine),
        (5, Some("jq: guest execution failed: x\n".to_string()))
    );
}

#[test]
fn random_bytes_follow_from_their_seed() {
    let mut state = RANDOM_SEED;
    let first = random_bytes(&mut state, 4);
    let second = random_bytes(&mut state, 4);
    let mut state = RANDOM_SEED;
    let both = random_bytes(&mut state, 8);
    assert_eq!([first, second].concat(), both);
    let mut x = RANDOM_SEED;
    x ^= x << 13;
    x ^= x >> 7;
    x ^= x << 17;
    assert_eq!(both[0], x as u8);
}

#[test]
fn modules_are_compiled() {
    let empty = [0u8, 97, 115, 109, 1, 0, 0, 0];
    let artifact = precompile(&empty).expect("a module");
    assert!(artifact.len() > empty.len());
    let err = precompile(b"nope").expect_err("no module");
    assert!(err.message().starts_with("precompile quickjs module: "));
    assert_eq!(
        compiled(Err(CompileFault::Engine("x".to_string()))),
        Err(PrecompileError::new("wasmtime engine: x".to_string()))
    );
    assert_eq!(compiled(Ok(vec![1])), Ok(vec![1]));
    let settings = engine_settings();
    assert!(settings.interruptible);
    assert_eq!(settings.stack_bytes, 8 * 1024 * 1024);
}

#[test]
fn the_runtime_stays_the_one_first_set_up() {
    let mut cell = RuntimeCell::new();
    assert_eq!(cell.known(), None);
    assert!(check_install(&cell).is_ok());
    for (fault, said) in [
        (InstallFault::Engine("x".to_string()), "wasmtime engine: x"),
        (InstallFault::Artifact("x".to_string()), "deserialize quickjs module: x"),
        (InstallFault::Link("x".to_string()), "link quickjs runtime: x"),
    ] {
        assert_eq!(install(&mut cell, Err(fault)).expect_err("a fault").message(), said);
        assert_eq!(cell.known(), None);
    }
    assert_eq!(
        runtime_source(&mut cell, Ok(RuntimeSource::Compiled)),
        Ok(RuntimeSource::Compiled)
    );
    let late = install(&mut cell, Ok(())).expect_err("too late");
    assert_eq!(late.message(), "the JavaScript runtime is already initialized in this process");
    assert_eq!(check_install(&cell).expect_err("too late").message(), late.message());
    assert_eq!(
        runtime_source(&mut cell, Err("x".to_string())),
        Ok(RuntimeSource::Compiled)
    );
    let mut broken = RuntimeCell::new();
    let failed = Err(PrecompileError::new("x".to_string()));
    assert_eq!(runtime_source(&mut broken, Err("x".to_string())), failed.clone());
    assert_eq!(runtime_source(&mut broken, Ok(RuntimeSource::Compiled)), failed);
    let mut installed = RuntimeCell::new();
    assert!(install(&mut installed, Ok(())).is_ok());
    assert_eq!(installed.known(), Some(Ok(RuntimeSource::Precompiled)));
}

#[test]
fn guests_get_two_outputs_and_two_clocks() {
    assert_eq!(wasi_output(1), Some(GuestOutput::Stdout));
    assert_eq!(wasi_output(2), Some(GuestOutput::Stderr));
    assert_eq!(wasi_output(3), None);
    assert_eq!(wasi_clock(0), Some(WasiClock::Realtime));
    assert_eq!(wasi_clock(1), Some(WasiClock::Monotonic));
    assert_eq!(wasi_clock(2), None);
    assert_eq!(iovec_place(16, 3), Ok(40));
    assert_eq!(iovec_place(-1, 0), Err(GuestFault::NegativePointer));
    assert_eq!(iovec_place(0, usize::MAX), Err(GuestFault::RangeOverflow));
    assert_eq!((WASI_SUCCESS, WASI_BADF, WASI_INVAL), (0, 8, 28));
}
