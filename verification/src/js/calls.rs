//! Calls from the guest to the file system: what each asks for, and what it is answered.

use vstd::prelude::*;

use crate::command::Limits;
use crate::js::args;
use crate::js::args::{ArgValue, HostArgs};
use crate::js::files::FdTable;
use crate::js::node;
use crate::js::node::{NodeError, NodeErrorView};
use crate::js::transport;
use crate::text;
use crate::vfs;
use crate::vfs::{DirEntry, Errno, FileType, Metadata, OpenMode, VfsError};

verus! {

/// The most bytes that one call reads.
pub const MAX_HOST_READ_BYTES: usize = 16_777_216;

/// What a guest may exchange with its host.
#[derive(Debug, Clone, Copy, PartialEq, Eq, Structural)]
pub struct HostLimits {
    pub host_input_bytes: usize,
    pub host_response_bytes: usize,
    pub fetch_response_bytes: usize,
}

/// What a guest may exchange with its host under the limits of an execution: an answer that is
/// larger than the guest's memory could never reach it.
pub fn host_limits(limits: Limits) -> (r: HostLimits)
    ensures
        r == (HostLimits {
            host_input_bytes: limits.host_input_bytes,
            host_response_bytes: limits.wasm_memory_bytes,
            fetch_response_bytes: limits.fetch_response_bytes,
        }),
{
    HostLimits {
        host_input_bytes: limits.host_input_bytes,
        host_response_bytes: limits.wasm_memory_bytes,
        fetch_response_bytes: limits.fetch_response_bytes,
    }
}

/// The most bytes that the source of a script may have.
pub fn source_limit(limits: Limits) -> (r: usize)
    ensures
        r == (if limits.host_input_bytes < limits.wasm_memory_bytes {
            limits.host_input_bytes
        } else {
            limits.wasm_memory_bytes
        }),
{
    if limits.host_input_bytes < limits.wasm_memory_bytes {
        limits.host_input_bytes
    } else {
        limits.wasm_memory_bytes
    }
}

/// The most bytes that fit into an answer, once they are encoded and framed.
pub open spec fn encodable(host_response_bytes: usize) -> int {
    if host_response_bytes <= 128 {
        0
    } else {
        (host_response_bytes - 128) / 4 * 3
    }
}

pub fn encodable_bytes(host_response_bytes: usize) -> (r: usize)
    ensures
        r == encodable(host_response_bytes),
        r <= host_response_bytes,
{
    let room: usize = host_response_bytes.saturating_sub(128);
    room / 4 * 3
}

/// The most bytes of a file that are read for a guest.
pub open spec fn read_limit(limits: HostLimits) -> int {
    if limits.host_input_bytes < encodable(limits.host_response_bytes) {
        limits.host_input_bytes as int
    } else {
        encodable(limits.host_response_bytes)
    }
}

pub fn host_read_bytes(limits: HostLimits) -> (r: usize)
    ensures
        r == read_limit(limits),
{
    let room = encodable_bytes(limits.host_response_bytes);
    if limits.host_input_bytes < room {
        limits.host_input_bytes
    } else {
        room
    }
}

/// The calls that there are.
#[derive(Debug, Clone, Copy, PartialEq, Eq, Structural)]
pub enum HostOp {
    ReadFile,
    WriteFile,
    AppendFile,
    Mkdir,
    Readdir,
    Stat,
    Rename,
    Rm,
    Unlink,
    Rmdir,
    Exists,
    Open,
    Read,
    Write,
    Ftruncate,
    Close,
    CopyFile,
}

/// The call with a name.
pub open spec fn op_of(name: Seq<char>) -> Option<HostOp> {
    if name == "readFile"@ {
        Some(HostOp::ReadFile)
    } else if name == "writeFile"@ {
        Some(HostOp::WriteFile)
    } else if name == "appendFile"@ {
        Some(HostOp::AppendFile)
    } else if name == "mkdir"@ {
        Some(HostOp::Mkdir)
    } else if name == "readdir"@ {
        Some(HostOp::Readdir)
    } else if name == "stat"@ {
        Some(HostOp::Stat)
    } else if name == "rename"@ {
        Some(HostOp::Rename)
    } else if name == "rm"@ {
        Some(HostOp::Rm)
    } else if name == "unlink"@ {
        Some(HostOp::Unlink)
    } else if name == "rmdir"@ {
        Some(HostOp::Rmdir)
    } else if name == "exists"@ {
        Some(HostOp::Exists)
    } else if name == "open"@ {
        Some(HostOp::Open)
    } else if name == "read"@ {
        Some(HostOp::Read)
    } else if name == "write"@ {
        Some(HostOp::Write)
    } else if name == "ftruncate"@ {
        Some(HostOp::Ftruncate)
    } else if name == "close"@ {
        Some(HostOp::Close)
    } else if name == "copyFile"@ {
        Some(HostOp::CopyFile)
    } else {
        None
    }
}

pub fn parse_op(name: &str) -> (r: Option<HostOp>)
    ensures
        r == op_of(name@),
{
    if text::str_eq(name, "readFile") {
        Some(HostOp::ReadFile)
    } else if text::str_eq(name, "writeFile") {
        Some(HostOp::WriteFile)
    } else if text::str_eq(name, "appendFile") {
        Some(HostOp::AppendFile)
    } else if text::str_eq(name, "mkdir") {
        Some(HostOp::Mkdir)
    } else if text::str_eq(name, "readdir") {
        Some(HostOp::Readdir)
    } else if text::str_eq(name, "stat") {
        Some(HostOp::Stat)
    } else if text::str_eq(name, "rename") {
        Some(HostOp::Rename)
    } else if text::str_eq(name, "rm") {
        Some(HostOp::Rm)
    } else if text::str_eq(name, "unlink") {
        Some(HostOp::Unlink)
    } else if text::str_eq(name, "rmdir") {
        Some(HostOp::Rmdir)
    } else if text::str_eq(name, "exists") {
        Some(HostOp::Exists)
    } else if text::str_eq(name, "open") {
        Some(HostOp::Open)
    } else if text::str_eq(name, "read") {
        Some(HostOp::Read)
    } else if text::str_eq(name, "write") {
        Some(HostOp::Write)
    } else if text::str_eq(name, "ftruncate") {
        Some(HostOp::Ftruncate)
    } else if text::str_eq(name, "close") {
        Some(HostOp::Close)
    } else if text::str_eq(name, "copyFile") {
        Some(HostOp::CopyFile)
    } else {
        None
    }
}

/// What the file system is asked for.
#[derive(Debug, PartialEq, Eq)]
pub enum HostAction {
    ReadFile { path: String, limit: usize },
    WriteFile { path: String, data: Vec<u8>, append: bool },
    Mkdir { path: String },
    /// The directory is made, with those that it lies in.
    MkdirAll { path: String },
    ReadDir { path: String, with_types: bool },
    Stat { path: String },
    Rename { from: String, to: String },
    /// With `force`, a path that is not there is no failure.
    Remove { path: String, recursive: bool, force: bool },
    Unlink { path: String },
    Rmdir { path: String },
    Exists { path: String },
    Open { path: String, mode: OpenMode },
    /// Without a position of its own, the read moves that of the file.
    Read { fd: i32, handle: u64, offset: u64, len: usize, moves: bool },
    Write { fd: i32, handle: u64, offset: u64, data: Vec<u8>, moves: bool },
    Truncate { handle: u64, len: u64 },
    Close { handle: u64 },
    CopyFile { src: String, dest: String, limit: usize },
    /// The second half of a copy, once the file was read.
    CopyTo { dest: String, data: Vec<u8> },
}

#[verifier::ext_equal]
pub enum ActionView {
    ReadFile { path: Seq<char>, limit: int },
    WriteFile { path: Seq<char>, data: Seq<u8>, append: bool },
    Mkdir { path: Seq<char> },
    MkdirAll { path: Seq<char> },
    ReadDir { path: Seq<char>, with_types: bool },
    Stat { path: Seq<char> },
    Rename { from: Seq<char>, to: Seq<char> },
    Remove { path: Seq<char>, recursive: bool, force: bool },
    Unlink { path: Seq<char> },
    Rmdir { path: Seq<char> },
    Exists { path: Seq<char> },
    Open { path: Seq<char>, mode: OpenMode },
    Read { fd: i32, handle: u64, offset: u64, len: int, moves: bool },
    Write { fd: i32, handle: u64, offset: u64, data: Seq<u8>, moves: bool },
    Truncate { handle: u64, len: u64 },
    Close { handle: u64 },
    CopyFile { src: Seq<char>, dest: Seq<char>, limit: int },
    CopyTo { dest: Seq<char>, data: Seq<u8> },
}

impl HostAction {
    pub open spec fn view(&self) -> ActionView {
        match self {
            HostAction::ReadFile { path, limit } => ActionView::ReadFile {
                path: path@,
                limit: *limit as int,
            },
            HostAction::WriteFile { path, data, append } => ActionView::WriteFile {
                path: path@,
                data: data@,
                append: *append,
            },
            HostAction::Mkdir { path } => ActionView::Mkdir { path: path@ },
            HostAction::MkdirAll { path } => ActionView::MkdirAll { path: path@ },
            HostAction::ReadDir { path, with_types } => ActionView::ReadDir {
                path: path@,
                with_types: *with_types,
            },
            HostAction::Stat { path } => ActionView::Stat { path: path@ },
            HostAction::Rename { from, to } => ActionView::Rename { from: from@, to: to@ },
            HostAction::Remove { path, recursive, force } => ActionView::Remove {
                path: path@,
                recursive: *recursive,
                force: *force,
            },
            HostAction::Unlink { path } => ActionView::Unlink { path: path@ },
            HostAction::Rmdir { path } => ActionView::Rmdir { path: path@ },
            HostAction::Exists { path } => ActionView::Exists { path: path@ },
            HostAction::Open { path, mode } => ActionView::Open { path: path@, mode: *mode },
            HostAction::Read { fd, handle, offset, len, moves } => ActionView::Read {
                fd: *fd,
                handle: *handle,
                offset: *offset,
                len: *len as int,
                moves: *moves,
            },
            HostAction::Write { fd, handle, offset, data, moves } => ActionView::Write {
                fd: *fd,
                handle: *handle,
                offset: *offset,
                data: data@,
                moves: *moves,
            },
            HostAction::Truncate { handle, len } => ActionView::Truncate {
                handle: *handle,
                len: *len,
            },
            HostAction::Close { handle } => ActionView::Close { handle: *handle },
            HostAction::CopyFile { src, dest, limit } => ActionView::CopyFile {
                src: src@,
                dest: dest@,
                limit: *limit as int,
            },
            HostAction::CopyTo { dest, data } => ActionView::CopyTo { dest: dest@, data: data@ },
        }
    }
}

/// The descriptor in a field, if it is one.
pub open spec fn descriptor_in(args: HostArgs, name: Seq<char>) -> Option<i32> {
    match args.integer_in(name) {
        Some(n) => if i32::MIN <= n <= i32::MAX {
            Some(n as i32)
        } else {
            None
        },
        None => None,
    }
}

/// The optional position in a field; nothing where it makes no sense.
pub open spec fn position_in(args: HostArgs, name: Seq<char>) -> Option<Option<u64>> {
    match args.field(name) {
        None => Some(None),
        Some(ArgValue::Null) => Some(None),
        Some(ArgValue::Unsigned(n)) => Some(Some(n)),
        Some(_) => None,
    }
}

/// A length in a field that fits this machine.
pub open spec fn length_in(args: HostArgs, name: Seq<char>) -> Option<int> {
    match args.unsigned_in(name) {
        Some(n) => if n <= usize::MAX {
            Some(n as int)
        } else {
            None
        },
        None => None,
    }
}

pub open spec fn smaller(a: int, b: int) -> int {
    if a < b {
        a
    } else {
        b
    }
}

/// A call that works on one path.
pub open spec fn path_call(args: HostArgs, make: spec_fn(Seq<char>) -> ActionView) -> Result<
    ActionView,
    NodeErrorView,
> {
    match args.text_in("path"@) {
        Some(path) => Ok(make(path)),
        None => Err(args::bad_call()),
    }
}

/// A call on a file that must be open.
pub open spec fn on_open_file(
    table: FdTable,
    fd: i32,
    syscall: Seq<char>,
    make: spec_fn(crate::js::files::OpenFile) -> ActionView,
) -> Result<ActionView, NodeErrorView> {
    if table@.dom().contains(fd) {
        Ok(make(table@[fd]))
    } else {
        Err(node::node_failure(Errno::EBADF, syscall, None))
    }
}

/// What a call asks for, or why it is refused.
pub open spec fn requested(
    op: HostOp,
    args: HostArgs,
    table: FdTable,
    limits: HostLimits,
) -> Result<ActionView, NodeErrorView> {
    if op == HostOp::ReadFile {
        path_call(args, |path: Seq<char>| ActionView::ReadFile { path, limit: read_limit(limits) })
    } else if op == HostOp::WriteFile || op == HostOp::AppendFile {
        match (args.text_in("path"@), args.bytes_in("data"@)) {
            (Some(path), Some(data)) => Ok(
                ActionView::WriteFile { path, data, append: op == HostOp::AppendFile },
            ),
            _ => Err(args::bad_call()),
        }
    } else if op == HostOp::Mkdir {
        path_call(
            args,
            |path: Seq<char>|
                if args.flag_in("recursive"@) {
                    ActionView::MkdirAll { path }
                } else {
                    ActionView::Mkdir { path }
                },
        )
    } else if op == HostOp::Readdir {
        path_call(
            args,
            |path: Seq<char>|
                ActionView::ReadDir { path, with_types: args.flag_in("withFileTypes"@) },
        )
    } else if op == HostOp::Stat {
        path_call(args, |path: Seq<char>| ActionView::Stat { path })
    } else if op == HostOp::Rename {
        match (args.text_in("from"@), args.text_in("to"@)) {
            (Some(from), Some(to)) => Ok(ActionView::Rename { from, to }),
            _ => Err(args::bad_call()),
        }
    } else if op == HostOp::Rm {
        path_call(
            args,
            |path: Seq<char>|
                ActionView::Remove {
                    path,
                    recursive: args.flag_in("recursive"@),
                    force: args.flag_in("force"@),
                },
        )
    } else if op == HostOp::Unlink {
        path_call(args, |path: Seq<char>| ActionView::Unlink { path })
    } else if op == HostOp::Rmdir {
        path_call(
            args,
            |path: Seq<char>|
                if args.flag_in("recursive"@) {
                    ActionView::Remove { path, recursive: true, force: false }
                } else {
                    ActionView::Rmdir { path }
                },
        )
    } else if op == HostOp::Exists {
        path_call(args, |path: Seq<char>| ActionView::Exists { path })
    } else if op == HostOp::Open {
        if table.is_full() {
            Err(node::node_failure(Errno::ENOSPC, "open"@, None))
        } else {
            match (args.text_in("path"@), args.text_in("flags"@)) {
                (Some(path), Some(flags)) => match node::flag_mode(flags) {
                    Some(mode) => Ok(ActionView::Open { path, mode }),
                    None => Err(node::node_failure(Errno::EINVAL, "open"@, Some(path))),
                },
                _ => Err(args::bad_call()),
            }
        }
    } else if op == HostOp::Read {
        match (
            descriptor_in(args, "fd"@),
            position_in(args, "position"@),
            length_in(args, "length"@),
        ) {
            (Some(fd), Some(position), Some(len)) => on_open_file(
                table,
                fd,
                "read"@,
                |file: crate::js::files::OpenFile|
                    ActionView::Read {
                        fd,
                        handle: file.handle,
                        offset: match position {
                            Some(at) => at,
                            None => file.position,
                        },
                        len: smaller(
                            smaller(len, MAX_HOST_READ_BYTES as int),
                            read_limit(limits),
                        ),
                        moves: position is None,
                    },
            ),
            _ => Err(args::bad_call()),
        }
    } else if op == HostOp::Write {
        match (
            descriptor_in(args, "fd"@),
            args.bytes_in("data"@),
            position_in(args, "position"@),
        ) {
            (Some(fd), Some(data), Some(position)) => on_open_file(
                table,
                fd,
                "write"@,
                |file: crate::js::files::OpenFile|
                    ActionView::Write {
                        fd,
                        handle: file.handle,
                        offset: match position {
                            Some(at) => at,
                            None => file.position,
                        },
                        data,
                        moves: position is None,
                    },
            ),
            _ => Err(args::bad_call()),
        }
    } else if op == HostOp::Ftruncate {
        match (descriptor_in(args, "fd"@), position_in(args, "len"@)) {
            (Some(fd), Some(len)) => on_open_file(
                table,
                fd,
                "ftruncate"@,
                |file: crate::js::files::OpenFile|
                    ActionView::Truncate {
                        handle: file.handle,
                        len: match len {
                            Some(n) => n,
                            None => 0,
                        },
                    },
            ),
            _ => Err(args::bad_call()),
        }
    } else if op == HostOp::Close {
        match descriptor_in(args, "fd"@) {
            Some(fd) => on_open_file(
                table,
                fd,
                "close"@,
                |file: crate::js::files::OpenFile| ActionView::Close { handle: file.handle },
            ),
            None => Err(args::bad_call()),
        }
    } else {
        match (args.text_in("src"@), args.text_in("dest"@)) {
            (Some(src), Some(dest)) => Ok(
                ActionView::CopyFile { src, dest, limit: limits.host_input_bytes as int },
            ),
            _ => Err(args::bad_call()),
        }
    }
}

/// What a call with a name asks for; there may be no such call.
pub open spec fn requested_by_name(
    name: Seq<char>,
    args: HostArgs,
    table: FdTable,
    limits: HostLimits,
) -> Result<ActionView, NodeErrorView> {
    match op_of(name) {
        Some(op) => requested(op, args, table, limits),
        None => Err(args::bad_call()),
    }
}

/// Whether a result is the one that was asked for.
pub open spec fn answers(
    r: Result<HostAction, NodeError>,
    wanted: Result<ActionView, NodeErrorView>,
) -> bool {
    match wanted {
        Ok(action) => r matches Ok(a) && a@ == action,
        Err(err) => r matches Err(e) && e@ == err,
    }
}

fn limited_length(len: usize, limits: HostLimits) -> (r: usize)
    ensures
        r == smaller(smaller(len as int, MAX_HOST_READ_BYTES as int), read_limit(limits)),
{
    let room = host_read_bytes(limits);
    let most: usize = if len < MAX_HOST_READ_BYTES {
        len
    } else {
        MAX_HOST_READ_BYTES
    };
    if most < room {
        most
    } else {
        room
    }
}

fn plan_open(args: &HostArgs, table: &FdTable) -> (r: Result<HostAction, NodeError>)
    ensures
        forall|limits: HostLimits| answers(r, #[trigger] requested(HostOp::Open, *args, *table, limits)),
{
    if table.full() {
        return Err(node::node_error(VfsError::new(Errno::ENOSPC), "open", None));
    }
    let path = match args.string_arg("path") {
        Ok(path) => path,
        Err(err) => {
            return Err(err);
        },
    };
    let flags = match args.string_arg("flags") {
        Ok(flags) => flags,
        Err(err) => {
            return Err(err);
        },
    };
    match node::open_mode(flags.as_str()) {
        Ok(mode) => Ok(HostAction::Open { path, mode }),
        Err(err) => Err(node::node_error(err, "open", Some(path))),
    }
}

fn plan_read(args: &HostArgs, table: &FdTable, limits: HostLimits) -> (r: Result<
    HostAction,
    NodeError,
>)
    ensures
        answers(r, requested(HostOp::Read, *args, *table, limits)),
{
    let fd: i32 = match args.i32_arg("fd") {
        Ok(fd) => fd,
        Err(err) => {
            return Err(err);
        },
    };
    let position = match args.u64_arg("position") {
        Ok(position) => position,
        Err(err) => {
            return Err(err);
        },
    };
    let len: usize = match args.usize_arg("length") {
        Ok(len) => len,
        Err(err) => {
            return Err(err);
        },
    };
    match table.get(fd) {
        Some(file) => {
            let offset: u64 = match position {
                Some(at) => at,
                None => file.position,
            };
            let moves = position.is_none();
            let len = limited_length(len, limits);
            Ok(HostAction::Read { fd, handle: file.handle, offset, len, moves })
        },
        None => Err(node::node_error(VfsError::new(Errno::EBADF), "read", None)),
    }
}

fn plan_write(args: &HostArgs, table: &FdTable, limits: HostLimits) -> (r: Result<
    HostAction,
    NodeError,
>)
    ensures
        answers(r, requested(HostOp::Write, *args, *table, limits)),
{
    let fd: i32 = match args.i32_arg("fd") {
        Ok(fd) => fd,
        Err(err) => {
            return Err(err);
        },
    };
    let data = match args.bytes_arg("data") {
        Ok(data) => data,
        Err(err) => {
            return Err(err);
        },
    };
    let position = match args.u64_arg("position") {
        Ok(position) => position,
        Err(err) => {
            return Err(err);
        },
    };
    match table.get(fd) {
        Some(file) => {
            let offset: u64 = match position {
                Some(at) => at,
                None => file.position,
            };
            let moves = position.is_none();
            Ok(HostAction::Write { fd, handle: file.handle, offset, data, moves })
        },
        None => Err(node::node_error(VfsError::new(Errno::EBADF), "write", None)),
    }
}

fn plan_truncate(args: &HostArgs, table: &FdTable, limits: HostLimits) -> (r: Result<
    HostAction,
    NodeError,
>)
    ensures
        answers(r, requested(HostOp::Ftruncate, *args, *table, limits)),
{
    let fd: i32 = match args.i32_arg("fd") {
        Ok(fd) => fd,
        Err(err) => {
            return Err(err);
        },
    };
    let len: u64 = match args.u64_arg("len") {
        Ok(Some(len)) => len,
        Ok(None) => 0,
        Err(err) => {
            return Err(err);
        },
    };
    match table.get(fd) {
        Some(file) => Ok(HostAction::Truncate { handle: file.handle, len }),
        None => Err(node::node_error(VfsError::new(Errno::EBADF), "ftruncate", None)),
    }
}

/// Decides what the file system is asked for. A file that is to be closed is forgotten at once.
pub fn plan_host_call(name: &str, args: &HostArgs, table: &mut FdTable, limits: HostLimits) -> (r:
    Result<HostAction, NodeError>)
    ensures
        answers(r, requested_by_name(name@, *args, *old(table), limits)),
        final(table)@ == (if op_of(name@) == Some(HostOp::Close) && r is Ok {
            old(table)@.remove(descriptor_in(*args, "fd"@)->0)
        } else {
            old(table)@
        }),
        final(table).next() == old(table).next(),
        final(table).limit() == old(table).limit(),
{
    let op = match parse_op(name) {
        Some(op) => op,
        None => {
            return Err(args::bad_call_error());
        },
    };
    match op {
        HostOp::Open => plan_open(args, table),
        HostOp::Read => plan_read(args, table, limits),
        HostOp::Write => plan_write(args, table, limits),
        HostOp::Ftruncate => plan_truncate(args, table, limits),
        HostOp::Close => plan_close(args, table, limits),
        _ => plan_path_call(op, args, table, limits),
    }
}

fn plan_close(args: &HostArgs, table: &mut FdTable, limits: HostLimits) -> (r: Result<
    HostAction,
    NodeError,
>)
    ensures
        answers(r, requested(HostOp::Close, *args, *old(table), limits)),
        final(table)@ == (if r is Ok {
            old(table)@.remove(descriptor_in(*args, "fd"@)->0)
        } else {
            old(table)@
        }),
        final(table).next() == old(table).next(),
        final(table).limit() == old(table).limit(),
{
    let fd: i32 = match args.i32_arg("fd") {
        Ok(fd) => fd,
        Err(err) => {
            return Err(err);
        },
    };
    let ghost before = table@;
    match table.remove(fd) {
        Some(file) => Ok(HostAction::Close { handle: file.handle }),
        None => {
            proof {
                assert(before.remove(fd) =~= before);
            }
            Err(node::node_error(VfsError::new(Errno::EBADF), "close", None))
        },
    }
}

/// The calls that name files by their paths.
fn plan_path_call(op: HostOp, args: &HostArgs, table: &FdTable, limits: HostLimits) -> (r: Result<
    HostAction,
    NodeError,
>)
    requires
        op != HostOp::Open,
        op != HostOp::Read,
        op != HostOp::Write,
        op != HostOp::Ftruncate,
        op != HostOp::Close,
    ensures
        answers(r, requested(op, *args, *table, limits)),
{
    match op {
        HostOp::Rename => {
            return match (args.string_arg("from"), args.string_arg("to")) {
                (Ok(from), Ok(to)) => Ok(HostAction::Rename { from, to }),
                (Err(err), _) => Err(err),
                (_, Err(err)) => Err(err),
            };
        },
        HostOp::CopyFile => {
            return match (args.string_arg("src"), args.string_arg("dest")) {
                (Ok(src), Ok(dest)) => Ok(
                    HostAction::CopyFile { src, dest, limit: limits.host_input_bytes },
                ),
                (Err(err), _) => Err(err),
                (_, Err(err)) => Err(err),
            };
        },
        _ => {},
    }
    let path = match args.string_arg("path") {
        Ok(path) => path,
        Err(err) => {
            return Err(err);
        },
    };
    match op {
        HostOp::ReadFile => Ok(HostAction::ReadFile { path, limit: host_read_bytes(limits) }),
        HostOp::WriteFile => match args.bytes_arg("data") {
            Ok(data) => Ok(HostAction::WriteFile { path, data, append: false }),
            Err(err) => Err(err),
        },
        HostOp::AppendFile => match args.bytes_arg("data") {
            Ok(data) => Ok(HostAction::WriteFile { path, data, append: true }),
            Err(err) => Err(err),
        },
        HostOp::Mkdir => {
            if args.bool_arg("recursive") {
                Ok(HostAction::MkdirAll { path })
            } else {
                Ok(HostAction::Mkdir { path })
            }
        },
        HostOp::Readdir => Ok(
            HostAction::ReadDir { path, with_types: args.bool_arg("withFileTypes") },
        ),
        HostOp::Stat => Ok(HostAction::Stat { path }),
        HostOp::Rm => Ok(
            HostAction::Remove {
                path,
                recursive: args.bool_arg("recursive"),
                force: args.bool_arg("force"),
            },
        ),
        HostOp::Unlink => Ok(HostAction::Unlink { path }),
        HostOp::Rmdir => {
            if args.bool_arg("recursive") {
                Ok(HostAction::Remove { path, recursive: true, force: false })
            } else {
                Ok(HostAction::Rmdir { path })
            }
        },
        _ => Ok(HostAction::Exists { path }),
    }
}

// ---- failures ----

/// How a failure of the file system is reported, by what it was asked for. A copy is reported
/// for the path that failed.
pub open spec fn failure_of(action: ActionView, errno: Errno) -> NodeErrorView {
    match action {
        ActionView::ReadFile { path, .. } => node::node_failure(errno, "open"@, Some(path)),
        ActionView::WriteFile { path, .. } => node::node_failure(errno, "open"@, Some(path)),
        ActionView::Mkdir { path } => node::node_failure(errno, "mkdir"@, Some(path)),
        ActionView::MkdirAll { path } => node::node_failure(errno, "mkdir"@, Some(path)),
        ActionView::ReadDir { path, .. } => node::node_failure(errno, "scandir"@, Some(path)),
        ActionView::Stat { path } => node::node_failure(errno, "stat"@, Some(path)),
        ActionView::Rename { from, .. } => node::node_failure(errno, "rename"@, Some(from)),
        ActionView::Remove { path, .. } => node::node_failure(errno, "rm"@, Some(path)),
        ActionView::Unlink { path } => node::node_failure(errno, "unlink"@, Some(path)),
        ActionView::Rmdir { path } => node::node_failure(errno, "rmdir"@, Some(path)),
        ActionView::Exists { path } => node::node_failure(errno, "stat"@, Some(path)),
        ActionView::Open { path, .. } => node::node_failure(errno, "open"@, Some(path)),
        ActionView::Read { .. } => node::node_failure(errno, "read"@, None),
        ActionView::Write { .. } => node::node_failure(errno, "write"@, None),
        ActionView::Truncate { .. } => node::node_failure(errno, "ftruncate"@, None),
        ActionView::Close { .. } => node::node_failure(errno, "close"@, None),
        ActionView::CopyFile { src, .. } => node::node_failure(errno, "copyfile"@, Some(src)),
        ActionView::CopyTo { dest, .. } => node::node_failure(errno, "copyfile"@, Some(dest)),
    }
}

/// Reports a failure of the file system.
pub fn action_error(action: &HostAction, err: VfsError) -> (r: NodeError)
    ensures
        r@ == failure_of(action@, err.errno),
{
    match action {
        HostAction::ReadFile { path, .. } => node::node_error(err, "open", Some(path.clone())),
        HostAction::WriteFile { path, .. } => node::node_error(err, "open", Some(path.clone())),
        HostAction::Mkdir { path } => node::node_error(err, "mkdir", Some(path.clone())),
        HostAction::MkdirAll { path } => node::node_error(err, "mkdir", Some(path.clone())),
        HostAction::ReadDir { path, .. } => node::node_error(err, "scandir", Some(path.clone())),
        HostAction::Stat { path } => node::node_error(err, "stat", Some(path.clone())),
        HostAction::Rename { from, .. } => node::node_error(err, "rename", Some(from.clone())),
        HostAction::Remove { path, .. } => node::node_error(err, "rm", Some(path.clone())),
        HostAction::Unlink { path } => node::node_error(err, "unlink", Some(path.clone())),
        HostAction::Rmdir { path } => node::node_error(err, "rmdir", Some(path.clone())),
        HostAction::Exists { path } => node::node_error(err, "stat", Some(path.clone())),
        HostAction::Open { path, .. } => node::node_error(err, "open", Some(path.clone())),
        HostAction::Read { .. } => node::node_error(err, "read", None),
        HostAction::Write { .. } => node::node_error(err, "write", None),
        HostAction::Truncate { .. } => node::node_error(err, "ftruncate", None),
        HostAction::Close { .. } => node::node_error(err, "close", None),
        HostAction::CopyFile { src, .. } => node::node_error(err, "copyfile", Some(src.clone())),
        HostAction::CopyTo { dest, .. } => node::node_error(err, "copyfile", Some(dest.clone())),
    }
}

/// What a removal is doing when it fails.
#[derive(Debug, Clone, Copy, PartialEq, Eq, Structural)]
pub enum RemovalPhase {
    Look,
    List,
    Unlink,
    Rmdir,
}

pub open spec fn phase_name(phase: RemovalPhase) -> Seq<char> {
    match phase {
        RemovalPhase::Look => "rm"@,
        RemovalPhase::List => "scandir"@,
        RemovalPhase::Unlink => "unlink"@,
        RemovalPhase::Rmdir => "rmdir"@,
    }
}

/// Reports a failure of a removal, for the path that it had come to. With `force`, one that is
/// not there is no failure.
pub fn removal_error(phase: RemovalPhase, path: &str, err: VfsError, force: bool) -> (r: Option<
    NodeError,
>)
    ensures
        if err.errno == Errno::ENOENT && force {
            r is None
        } else {
            r matches Some(e) && e@ == node::node_failure(
                err.errno,
                phase_name(phase),
                Some(path@),
            )
        },
{
    let missing = match err.errno() {
        Errno::ENOENT => true,
        _ => false,
    };
    if missing && force {
        return None;
    }
    let syscall = match phase {
        RemovalPhase::Look => "rm",
        RemovalPhase::List => "scandir",
        RemovalPhase::Unlink => "unlink",
        RemovalPhase::Rmdir => "rmdir",
    };
    Some(node::node_error(err, syscall, Some(text::copy(path))))
}

// ---- answers ----

/// What a call is answered.
#[derive(Debug, PartialEq, Eq)]
pub enum HostValue {
    Null,
    Bool(bool),
    Number(u64),
    Text(String),
    Names(Vec<String>),
    /// Names, each with whether it is a file and whether it is a directory.
    Entries(Vec<(String, bool, bool)>),
    Stat { size: u64, is_file: bool, is_directory: bool },
    Read { bytes_read: usize, data: String },
}

#[verifier::ext_equal]
pub enum ValueView {
    Null,
    Bool(bool),
    Number(int),
    Text(Seq<char>),
    Names(Seq<Seq<char>>),
    Entries(Seq<(Seq<char>, bool, bool)>),
    Stat { size: int, is_file: bool, is_directory: bool },
    Read { bytes_read: int, data: Seq<char> },
}

impl HostValue {
    pub open spec fn view(&self) -> ValueView {
        match self {
            HostValue::Null => ValueView::Null,
            HostValue::Bool(b) => ValueView::Bool(*b),
            HostValue::Number(n) => ValueView::Number(*n as int),
            HostValue::Text(t) => ValueView::Text(t@),
            HostValue::Names(names) => ValueView::Names(text::texts(names@)),
            HostValue::Entries(entries) => ValueView::Entries(typed_view(entries@)),
            HostValue::Stat { size, is_file, is_directory } => ValueView::Stat {
                size: *size as int,
                is_file: *is_file,
                is_directory: *is_directory,
            },
            HostValue::Read { bytes_read, data } => ValueView::Read {
                bytes_read: *bytes_read as int,
                data: data@,
            },
        }
    }
}

/// The answer to a read of a whole file. Decoding it gives the bytes of the file back.
pub fn file_value(data: &Vec<u8>) -> (r: HostValue)
    requires
        data@.len() <= usize::MAX / 4,
    ensures
        r matches HostValue::Text(t) && t@ == transport::base64_text(data@)
            && transport::base64_bytes(t@) == Some(data@),
{
    HostValue::Text(transport::base64_encode(data.as_slice()))
}

/// The answer to a read of `n` bytes into a buffer.
pub fn read_value(buffer: &Vec<u8>, n: usize) -> (r: HostValue)
    requires
        n <= buffer@.len(),
        buffer@.len() <= usize::MAX / 4,
    ensures
        r matches HostValue::Read { bytes_read, data } && bytes_read == n
            && data@ == transport::base64_text(buffer@.take(n as int)) && transport::base64_bytes(
            data@,
        ) == Some(buffer@.take(n as int)),
{
    let read = crate::bytes::slice(buffer.as_slice(), 0, n);
    proof {
        assert(buffer@.subrange(0, n as int) =~= buffer@.take(n as int));
    }
    HostValue::Read { bytes_read: n, data: transport::base64_encode(read) }
}

pub fn stat_value(metadata: Metadata) -> (r: HostValue)
    ensures
        r == (HostValue::Stat {
            size: metadata.len,
            is_file: metadata.file_type == FileType::File,
            is_directory: metadata.file_type == FileType::Directory,
        }),
{
    let is_file = match metadata.file_type {
        FileType::File => true,
        FileType::Directory => false,
    };
    HostValue::Stat { size: metadata.len, is_file, is_directory: !is_file }
}

/// The names of entries.
pub open spec fn entry_names(entries: Seq<vfs::EntryView>) -> Seq<Seq<char>> {
    entries.map_values(|e: vfs::EntryView| e.name)
}

pub open spec fn typed_names(entries: Seq<vfs::EntryView>) -> Seq<(Seq<char>, bool, bool)> {
    entries.map_values(
        |e: vfs::EntryView|
            (
                e.name,
                e.metadata.file_type == FileType::File,
                e.metadata.file_type == FileType::Directory,
            ),
    )
}

pub open spec fn typed_view(entries: Seq<(String, bool, bool)>) -> Seq<(Seq<char>, bool, bool)> {
    entries.map_values(|e: (String, bool, bool)| (e.0@, e.1, e.2))
}

/// The answer to a listing.
pub fn readdir_value(entries: &Vec<DirEntry>, with_types: bool) -> (r: HostValue)
    ensures
        if with_types {
            r matches HostValue::Entries(e) && typed_view(e@) == typed_names(
                vfs::entries_view(entries@),
            )
        } else {
            r matches HostValue::Names(n) && text::texts(n@) == entry_names(
                vfs::entries_view(entries@),
            )
        },
{
    let ghost all = vfs::entries_view(entries@);
    let mut names: Vec<String> = Vec::new();
    let mut typed: Vec<(String, bool, bool)> = Vec::new();
    let mut i: usize = 0;
    proof {
        assert(text::texts(names@) =~= entry_names(all).take(0));
        assert(typed_view(typed@) =~= typed_names(all).take(0));
    }
    while i < entries.len()
        invariant
            i <= entries@.len(),
            all == vfs::entries_view(entries@),
            text::texts(names@) == entry_names(all).take(i as int),
            typed_view(typed@) == typed_names(all).take(i as int),
        decreases entries@.len() - i,
    {
        let entry = &entries[i];
        let is_file = match entry.metadata.file_type {
            FileType::File => true,
            FileType::Directory => false,
        };
        let ghost names_before = names@;
        let ghost typed_before = typed@;
        let name = entry.name.clone();
        let pair = (entry.name.clone(), is_file, !is_file);
        names.push(name);
        typed.push(pair);
        proof {
            assert(all[i as int] == entry@);
            assert(text::texts(names@) =~= text::texts(names_before).push(name@));
            assert(typed_view(typed@) =~= typed_view(typed_before).push((pair.0@, pair.1, pair.2)));
            assert(entry_names(all).take(i + 1) =~= entry_names(all).take(i as int).push(
                entry_names(all)[i as int],
            ));
            assert(typed_names(all).take(i + 1) =~= typed_names(all).take(i as int).push(
                typed_names(all)[i as int],
            ));
        }
        i = i + 1;
    }
    proof {
        assert(entry_names(all).take(i as int) =~= entry_names(all));
        assert(typed_names(all).take(i as int) =~= typed_names(all));
    }
    if with_types {
        HostValue::Entries(typed)
    } else {
        HostValue::Names(names)
    }
}

/// An open file once a read or a write has moved it on; the position stops at its largest value.
pub open spec fn moved_on(file: crate::js::files::OpenFile, n: int) -> crate::js::files::OpenFile {
    crate::js::files::OpenFile {
        position: if file.position + n <= u64::MAX {
            (file.position + n) as u64
        } else {
            u64::MAX
        },
        ..file
    }
}

/// Takes note of how far a read or a write has come, where it moves the position of its file.
pub fn note_moved(table: &mut FdTable, fd: i32, moved: usize, moves: bool)
    requires
        old(table)@.dom().contains(fd),
    ensures
        final(table)@ == (if moves {
            old(table)@.insert(fd, moved_on(old(table)@[fd], moved as int))
        } else {
            old(table)@
        }),
        final(table).next() == old(table).next(),
        final(table).limit() == old(table).limit(),
{
    if !moves {
        return;
    }
    match table.get(fd) {
        Some(file) => {
            table.set_position(fd, file.position.saturating_add(moved as u64));
        },
        None => {},
    }
}

// ---- from the reply of the file system to the answer ----

/// What the file system has replied.
#[derive(Debug, PartialEq, Eq)]
pub enum HostReply {
    Done,
    Data(Vec<u8>),
    Listing(Vec<DirEntry>),
    Found(Metadata),
    Opened(u64),
    Moved(usize),
}

#[verifier::ext_equal]
pub enum ReplyView {
    Done,
    Data(Seq<u8>),
    Listing(Seq<vfs::EntryView>),
    Found(Metadata),
    Opened(u64),
    Moved(int),
}

impl HostReply {
    pub open spec fn view(&self) -> ReplyView {
        match self {
            HostReply::Done => ReplyView::Done,
            HostReply::Data(data) => ReplyView::Data(data@),
            HostReply::Listing(entries) => ReplyView::Listing(vfs::entries_view(entries@)),
            HostReply::Found(metadata) => ReplyView::Found(*metadata),
            HostReply::Opened(handle) => ReplyView::Opened(*handle),
            HostReply::Moved(n) => ReplyView::Moved(*n as int),
        }
    }
}

/// Whether a reply is one to what was asked for, and can be acted on.
pub open spec fn reply_fits(action: ActionView, reply: ReplyView, table: FdTable) -> bool {
    match action {
        ActionView::ReadFile { limit, .. } => reply matches ReplyView::Data(data) && data.len()
            <= limit && data.len() <= usize::MAX / 4,
        ActionView::Read { fd, len, .. } => (reply matches ReplyView::Data(data) && data.len()
            <= len && data.len() <= usize::MAX / 4) && table@.dom().contains(fd),
        ActionView::Write { fd, data, .. } => (reply matches ReplyView::Moved(n) && n
            <= data.len()) && table@.dom().contains(fd),
        ActionView::CopyFile { limit, .. } => reply matches ReplyView::Data(data) && data.len()
            <= limit,
        ActionView::ReadDir { .. } => reply is Listing,
        ActionView::Stat { .. } => reply is Found,
        ActionView::Exists { .. } => reply is Found,
        ActionView::Open { .. } => reply is Opened && !table.is_full(),
        _ => reply is Done,
    }
}

/// What a call comes to once the file system has replied: an answer, or more to ask for.
#[verifier::ext_equal]
pub enum StepView {
    Answer(Result<ValueView, NodeErrorView>),
    Ask(ActionView),
}

pub open spec fn step_after(
    action: ActionView,
    reply: Result<ReplyView, Errno>,
    next_fd: int,
) -> StepView {
    match (action, reply) {
        (ActionView::Exists { .. }, _) => StepView::Answer(Ok(ValueView::Bool(reply is Ok))),
        (_, Err(errno)) => StepView::Answer(Err(failure_of(action, errno))),
        (ActionView::CopyFile { dest, .. }, Ok(ReplyView::Data(data))) => StepView::Ask(
            ActionView::CopyTo { dest, data },
        ),
        (ActionView::Read { .. }, Ok(ReplyView::Data(data))) => StepView::Answer(
            Ok(
                ValueView::Read {
                    bytes_read: data.len() as int,
                    data: transport::base64_text(data),
                },
            ),
        ),
        (_, Ok(ReplyView::Data(data))) => StepView::Answer(
            Ok(ValueView::Text(transport::base64_text(data))),
        ),
        (ActionView::ReadDir { with_types, .. }, Ok(ReplyView::Listing(entries))) => {
            StepView::Answer(
                Ok(
                    if with_types {
                        ValueView::Entries(typed_names(entries))
                    } else {
                        ValueView::Names(entry_names(entries))
                    },
                ),
            )
        },
        (_, Ok(ReplyView::Found(metadata))) => StepView::Answer(
            Ok(
                ValueView::Stat {
                    size: metadata.len as int,
                    is_file: metadata.file_type == FileType::File,
                    is_directory: metadata.file_type == FileType::Directory,
                },
            ),
        ),
        (_, Ok(ReplyView::Opened(_))) => StepView::Answer(Ok(ValueView::Number(next_fd))),
        (_, Ok(ReplyView::Moved(n))) => StepView::Answer(Ok(ValueView::Number(n))),
        (_, Ok(_)) => StepView::Answer(Ok(ValueView::Null)),
    }
}

/// The open files once the file system has replied: what was opened gets the next descriptor,
/// and what was moved on is moved on.
pub open spec fn files_after(
    action: ActionView,
    reply: Result<ReplyView, Errno>,
    files: Map<i32, crate::js::files::OpenFile>,
    next_fd: i32,
) -> Map<i32, crate::js::files::OpenFile> {
    match (action, reply) {
        (_, Ok(ReplyView::Opened(handle))) => files.insert(
            next_fd,
            crate::js::files::OpenFile { handle, position: 0 },
        ),
        (ActionView::Read { fd, moves: true, .. }, Ok(ReplyView::Data(data))) => files.insert(
            fd,
            moved_on(files[fd], data.len() as int),
        ),
        (ActionView::Write { fd, moves: true, .. }, Ok(ReplyView::Moved(n))) => files.insert(
            fd,
            moved_on(files[fd], n),
        ),
        _ => files,
    }
}

/// What a call comes to once the file system has replied.
#[derive(Debug, PartialEq, Eq)]
pub enum HostStep {
    Answer(Result<HostValue, NodeError>),
    Ask(HostAction),
}

impl HostStep {
    pub open spec fn view(&self) -> StepView {
        match self {
            HostStep::Answer(Ok(value)) => StepView::Answer(Ok(value@)),
            HostStep::Answer(Err(err)) => StepView::Answer(Err(err@)),
            HostStep::Ask(action) => StepView::Ask(action@),
        }
    }
}

pub open spec fn reply_result(reply: Result<HostReply, VfsError>) -> Result<ReplyView, Errno> {
    match reply {
        Ok(reply) => Ok(reply@),
        Err(err) => Err(err.errno),
    }
}

/// Goes on with a call once the file system has replied.
pub fn after_reply(
    action: &HostAction,
    reply: Result<HostReply, VfsError>,
    table: &mut FdTable,
) -> (r: HostStep)
    requires
        reply matches Ok(reply) ==> reply_fits(action@, reply@, *old(table)),
    ensures
        r@ == step_after(action@, reply_result(reply), old(table).next() as int),
        final(table)@ == files_after(
            action@,
            reply_result(reply),
            old(table)@,
            old(table).next(),
        ),
        final(table).next() == (if reply matches Ok(HostReply::Opened(_)) {
            old(table).next() + 1
        } else {
            old(table).next() as int
        }),
        final(table).limit() == old(table).limit(),
{
    match action {
        HostAction::Exists { .. } => {
            return HostStep::Answer(Ok(HostValue::Bool(reply.is_ok())));
        },
        _ => {},
    }
    match reply {
        Err(err) => HostStep::Answer(Err(action_error(action, err))),
        Ok(HostReply::Data(data)) => match action {
            HostAction::CopyFile { dest, .. } => HostStep::Ask(
                HostAction::CopyTo { dest: dest.clone(), data },
            ),
            HostAction::Read { fd, moves, .. } => {
                note_moved(table, *fd, data.len(), *moves);
                proof {
                    assert(data@.take(data@.len() as int) =~= data@);
                }
                HostStep::Answer(Ok(read_value(&data, data.len())))
            },
            _ => HostStep::Answer(Ok(file_value(&data))),
        },
        Ok(HostReply::Listing(entries)) => {
            let with_types = match action {
                HostAction::ReadDir { with_types, .. } => *with_types,
                _ => false,
            };
            HostStep::Answer(Ok(readdir_value(&entries, with_types)))
        },
        Ok(HostReply::Found(metadata)) => HostStep::Answer(Ok(stat_value(metadata))),
        Ok(HostReply::Opened(handle)) => {
            let fd = table.insert(handle);
            HostStep::Answer(Ok(HostValue::Number(fd as u64)))
        },
        Ok(HostReply::Moved(n)) => {
            match action {
                HostAction::Write { fd, moves, .. } => {
                    note_moved(table, *fd, n, *moves);
                },
                _ => {},
            }
            HostStep::Answer(Ok(HostValue::Number(n as u64)))
        },
        Ok(HostReply::Done) => HostStep::Answer(Ok(HostValue::Null)),
    }
}

/// The answer to a removal, which has failed at some path or at none.
pub fn after_removal(
    removed: Result<(), (RemovalPhase, String, VfsError)>,
    force: bool,
) -> (r: Result<HostValue, NodeError>)
    ensures
        match removed {
            Err((phase, path, err)) => if err.errno == Errno::ENOENT && force {
                r matches Ok(value) && value@ == ValueView::Null
            } else {
                r matches Err(e) && e@ == node::node_failure(
                    err.errno,
                    phase_name(phase),
                    Some(path@),
                )
            },
            Ok(()) => r matches Ok(value) && value@ == ValueView::Null,
        },
{
    match removed {
        Ok(()) => Ok(HostValue::Null),
        Err((phase, path, err)) => match removal_error(phase, path.as_str(), err, force) {
            Some(error) => Err(error),
            None => Ok(HostValue::Null),
        },
    }
}

/// The limits of what is read for a guest fit together: what is read, encoded in blocks of four
/// for three and framed, is no longer than an answer may be, and a block more would be.
pub proof fn law_what_is_read_fits_into_an_answer(limits: HostLimits)
    ensures
        ({
            let n = encodable(limits.host_response_bytes);
            &&& n >= 0 && n % 3 == 0
            &&& n > 0 ==> n / 3 * 4 + 128 <= limits.host_response_bytes
            &&& (n / 3 + 1) * 4 + 128 > limits.host_response_bytes
            &&& read_limit(limits) <= n
            &&& read_limit(limits) <= limits.host_input_bytes
            &&& read_limit(limits) == n || read_limit(limits) == limits.host_input_bytes
        }),
{
}

/// A read takes no more than was asked for, no more than one piece, and no more than fits. Without
/// a position it starts where the file stands, and what it read moves the file on, so that the next
/// read starts behind it; with a position it starts there, and the file stays where it stands.
pub proof fn law_reads_go_on_where_they_stopped(
    args: HostArgs,
    table: FdTable,
    limits: HostLimits,
    data: Seq<u8>,
)
    ensures
        match requested(HostOp::Read, args, table, limits) {
            Ok(action) => {
                &&& action matches ActionView::Read { fd, handle, offset, len, moves }
                &&& Some(fd) == descriptor_in(args, "fd"@)
                &&& table@.dom().contains(fd)
                &&& handle == table@[fd].handle
                &&& len <= length_in(args, "length"@)->Some_0
                &&& len <= MAX_HOST_READ_BYTES
                &&& len <= read_limit(limits)
                &&& len == length_in(args, "length"@)->Some_0 || len == MAX_HOST_READ_BYTES || len
                    == read_limit(limits)
                &&& moves <==> position_in(args, "position"@) == Some(None::<u64>)
                &&& moves ==> offset == table@[fd].position
                &&& !moves ==> position_in(args, "position"@) == Some(Some(offset))
                &&& ({
                    let after = files_after(action, Ok(ReplyView::Data(data)), table@, 0);
                    &&& !moves ==> after == table@
                    &&& moves && offset + data.len() <= u64::MAX ==> after == table@.insert(
                        fd,
                        crate::js::files::OpenFile {
                            handle,
                            position: (offset + data.len()) as u64,
                        },
                    )
                })
            },
            Err(err) => err == args::bad_call() || err == node::node_failure(
                Errno::EBADF,
                "read"@,
                None,
            ),
        },
{
}

/// A write takes all of its data. Where it starts and whether it moves the file on is as for a
/// read; the file is moved on by what was written.
pub proof fn law_writes_go_on_where_they_stopped(
    args: HostArgs,
    table: FdTable,
    limits: HostLimits,
    n: int,
)
    requires
        0 <= n,
    ensures
        match requested(HostOp::Write, args, table, limits) {
            Ok(action) => {
                &&& action matches ActionView::Write { fd, handle, offset, data, moves }
                &&& Some(fd) == descriptor_in(args, "fd"@)
                &&& table@.dom().contains(fd)
                &&& handle == table@[fd].handle
                &&& Some(data) == args.bytes_in("data"@)
                &&& moves <==> position_in(args, "position"@) == Some(None::<u64>)
                &&& moves ==> offset == table@[fd].position
                &&& !moves ==> position_in(args, "position"@) == Some(Some(offset))
                &&& ({
                    let after = files_after(action, Ok(ReplyView::Moved(n)), table@, 0);
                    &&& !moves ==> after == table@
                    &&& moves && offset + n <= u64::MAX ==> after == table@.insert(
                        fd,
                        crate::js::files::OpenFile { handle, position: (offset + n) as u64 },
                    )
                })
            },
            Err(err) => err == args::bad_call() || err == node::node_failure(
                Errno::EBADF,
                "write"@,
                None,
            ),
        },
{
}

/// A call on a descriptor that is not open is refused as such, under its own name, and never does
/// anything.
pub proof fn law_closed_files_are_refused(
    op: HostOp,
    args: HostArgs,
    table: FdTable,
    limits: HostLimits,
    fd: i32,
)
    requires
        op == HostOp::Read || op == HostOp::Write || op == HostOp::Ftruncate || op == HostOp::Close,
        descriptor_in(args, "fd"@) == Some(fd),
        !table@.dom().contains(fd),
    ensures
        requested(op, args, table, limits) is Err,
        op == HostOp::Close ==> requested(op, args, table, limits) == Err::<
            ActionView,
            NodeErrorView,
        >(node::node_failure(Errno::EBADF, "close"@, None)),
        op == HostOp::Read && position_in(args, "position"@) is Some && length_in(
            args,
            "length"@,
        ) is Some ==> requested(op, args, table, limits) == Err::<ActionView, NodeErrorView>(
            node::node_failure(Errno::EBADF, "read"@, None),
        ),
{
}

/// Calls on one path work on that path, and are refused without one. A file that is opened for
/// appending is written as one that is written anew but for what is there; a directory that is
/// removed with all it holds is removed as anything is; a copy reads no more than the input limit.
pub proof fn law_calls_work_on_their_paths(
    args: HostArgs,
    table: FdTable,
    limits: HostLimits,
    path: Seq<char>,
)
    requires
        args.text_in("path"@) == Some(path),
    ensures
        requested(HostOp::ReadFile, args, table, limits) == Ok::<ActionView, NodeErrorView>(
            ActionView::ReadFile { path, limit: read_limit(limits) },
        ),
        requested(HostOp::Stat, args, table, limits) == Ok::<ActionView, NodeErrorView>(
            ActionView::Stat { path },
        ),
        requested(HostOp::Exists, args, table, limits) == Ok::<ActionView, NodeErrorView>(
            ActionView::Exists { path },
        ),
        requested(HostOp::Unlink, args, table, limits) == Ok::<ActionView, NodeErrorView>(
            ActionView::Unlink { path },
        ),
        requested(HostOp::Mkdir, args, table, limits) == Ok::<ActionView, NodeErrorView>(
            if args.flag_in("recursive"@) {
                ActionView::MkdirAll { path }
            } else {
                ActionView::Mkdir { path }
            },
        ),
        requested(HostOp::Rm, args, table, limits) == Ok::<ActionView, NodeErrorView>(
            ActionView::Remove {
                path,
                recursive: args.flag_in("recursive"@),
                force: args.flag_in("force"@),
            },
        ),
        args.flag_in("recursive"@) && !args.flag_in("force"@) ==> requested(
            HostOp::Rmdir,
            args,
            table,
            limits,
        ) == requested(HostOp::Rm, args, table, limits),
        !args.flag_in("recursive"@) ==> requested(HostOp::Rmdir, args, table, limits) == Ok::<
            ActionView,
            NodeErrorView,
        >(ActionView::Rmdir { path }),
        args.bytes_in("data"@) is Some ==> requested(HostOp::WriteFile, args, table, limits) == Ok::<
            ActionView,
            NodeErrorView,
        >(ActionView::WriteFile { path, data: args.bytes_in("data"@)->Some_0, append: false }),
        args.bytes_in("data"@) is Some ==> requested(HostOp::AppendFile, args, table, limits)
            == Ok::<ActionView, NodeErrorView>(
            ActionView::WriteFile { path, data: args.bytes_in("data"@)->Some_0, append: true },
        ),
{
}

/// No two calls have one name.
pub proof fn law_names_tell_calls_apart(a: Seq<char>, b: Seq<char>)
    requires
        op_of(a) is Some,
        op_of(a) == op_of(b),
    ensures
        a == b,
{
}

/// A failure keeps the number of the error, and names the path that the call was about.
pub proof fn law_failures_name_what_failed(action: ActionView, errno: Errno)
    ensures
        failure_of(action, errno).code == node::errno_name(errno),
        failure_of(action, errno).errno == node::uv_number(errno),
        failure_of(action, errno).message == node::node_text(errno),
        failure_of(action, errno).path == (match action {
            ActionView::ReadFile { path, .. } => Some(path),
            ActionView::WriteFile { path, .. } => Some(path),
            ActionView::Mkdir { path } => Some(path),
            ActionView::MkdirAll { path } => Some(path),
            ActionView::ReadDir { path, .. } => Some(path),
            ActionView::Stat { path } => Some(path),
            ActionView::Rename { from, .. } => Some(from),
            ActionView::Remove { path, .. } => Some(path),
            ActionView::Unlink { path } => Some(path),
            ActionView::Rmdir { path } => Some(path),
            ActionView::Exists { path } => Some(path),
            ActionView::Open { path, .. } => Some(path),
            ActionView::CopyFile { src, .. } => Some(src),
            ActionView::CopyTo { dest, .. } => Some(dest),
            _ => None,
        }),
{
}

/// Every failure of the file system is what the guest is told, but for the question whether a file
/// exists, which is answered with no. A copy writes to its destination what it read.
pub proof fn law_replies_are_handed_on(action: ActionView, errno: Errno, data: Seq<u8>, fd: int)
    ensures
        !(action is Exists) ==> step_after(action, Err(errno), fd) == StepView::Answer(
            Err(failure_of(action, errno)),
        ),
        action is Exists ==> step_after(action, Err(errno), fd) == StepView::Answer(
            Ok(ValueView::Bool(false)),
        ),
        action matches ActionView::CopyFile { dest, .. } ==> step_after(
            action,
            Ok(ReplyView::Data(data)),
            fd,
        ) == StepView::Ask(ActionView::CopyTo { dest, data }),
        action is Read ==> step_after(action, Ok(ReplyView::Data(data)), fd) == StepView::Answer(
            Ok(
                ValueView::Read {
                    bytes_read: data.len() as int,
                    data: transport::base64_text(data),
                },
            ),
        ),
        action is ReadFile ==> step_after(action, Ok(ReplyView::Data(data)), fd)
            == StepView::Answer(Ok(ValueView::Text(transport::base64_text(data)))),
{
}

} // verus!
