//! The decisions and transformations of the native commands.

pub mod cat;
pub mod echo;
pub mod files;
pub mod flags;
pub mod grep;
pub mod head_tail;
pub mod lines;
pub mod operands;
pub mod sed;
pub mod sort;
pub mod uniq;
pub mod wc;

use vstd::prelude::*;

use crate::text;
use crate::vfs;
use crate::vfs::{Errno, VfsError};

verus! {

/// Why a command gives up: what it prints on its standard error, and its exit code.
#[derive(Debug, PartialEq, Eq)]
pub struct Failure {
    pub message: String,
    pub code: i32,
}

#[verifier::ext_equal]
pub struct FailureView {
    pub message: Seq<char>,
    pub code: i32,
}

impl View for Failure {
    type V = FailureView;

    open spec fn view(&self) -> FailureView {
        FailureView { message: self.message@, code: self.code }
    }
}

impl Failure {
    pub fn new(message: String, code: i32) -> (r: Self)
        ensures
            r@ == (FailureView { message: message@, code }),
    {
        Failure { message, code }
    }
}

/// How an option that a command does not have is reported.
pub open spec fn unsupported_text(cmd: Seq<char>, flag: Seq<char>) -> Seq<char> {
    cmd + ": unsupported option '"@ + flag + "'\n"@
}

pub fn unsupported(cmd: &str, flag: &str, code: i32) -> (r: Failure)
    ensures
        r@ == (FailureView { message: unsupported_text(cmd@, flag@), code }),
{
    Failure::new(text::concat4(cmd, ": unsupported option '", flag, "'\n"), code)
}

/// The option made of one letter.
pub open spec fn letter_option(flag: char) -> Seq<char> {
    seq!['-', flag]
}

pub fn unsupported_letter(cmd: &str, flag: char, code: i32) -> (r: Failure)
    ensures
        r@ == (FailureView { message: unsupported_text(cmd@, letter_option(flag)), code }),
{
    let mut option = String::new();
    option.push('-');
    option.push(flag);
    proof {
        assert(option@ =~= letter_option(flag));
    }
    unsupported(cmd, option.as_str(), code)
}

/// A failure whose message is fixed.
pub fn failure(message: &str, code: i32) -> (r: Failure)
    ensures
        r@ == (FailureView { message: message@, code }),
{
    Failure::new(text::copy(message), code)
}

/// How a file system error is reported.
pub open spec fn vfs_error_text(cmd: Seq<char>, path: Seq<char>, errno: Errno) -> Seq<char> {
    cmd + ": "@ + path + ": "@ + vfs::errno_text(errno) + "\n"@
}

pub fn vfs_error_message(cmd: &str, path: &str, err: VfsError) -> (r: String)
    ensures
        r@ == vfs_error_text(cmd@, path@, err.errno),
{
    let mut out = text::concat5(cmd, ": ", path, ": ", vfs::errno_message(err.errno));
    out.append("\n");
    out
}

/// What can go wrong while a stream is read or written.
#[derive(Debug, Clone, Copy, PartialEq, Eq, Structural)]
pub enum StreamError {
    /// The reader of the output has gone.
    BrokenPipe,
    /// A line exceeded what is buffered of one.
    LineTooLong,
    /// The file system failed.
    Vfs(VfsError),
    /// Anything else.
    Other,
}

/// What is reported of a stream error; nothing where the output's reader has gone.
pub open spec fn stream_error_text(cmd: Seq<char>, path: Seq<char>, err: StreamError) -> Option<
    Seq<char>,
> {
    match err {
        StreamError::BrokenPipe => None,
        StreamError::LineTooLong => Some(cmd + ": "@ + path + ": "@ + "line too long"@ + "\n"@),
        StreamError::Vfs(err) => Some(vfs_error_text(cmd, path, err.errno)),
        StreamError::Other => Some(vfs_error_text(cmd, path, Errno::EINVAL)),
    }
}

pub fn report_stream_error(cmd: &str, path: &str, err: StreamError) -> (r: Option<String>)
    ensures
        match stream_error_text(cmd@, path@, err) {
            Some(message) => r matches Some(m) && m@ == message,
            None => r is None,
        },
{
    match err {
        StreamError::BrokenPipe => None,
        StreamError::LineTooLong => {
            let mut out = text::concat5(cmd, ": ", path, ": ", "line too long");
            out.append("\n");
            Some(out)
        },
        StreamError::Vfs(err) => Some(vfs_error_message(cmd, path, err)),
        StreamError::Other => Some(vfs_error_message(cmd, path, VfsError::new(Errno::EINVAL))),
    }
}

/// Whether an argument is an option: it starts with a dash and is not the dash alone.
pub open spec fn is_option(arg: Seq<char>) -> bool {
    arg.len() > 1 && arg[0] == '-'
}

pub fn is_option_arg(arg: &str) -> (r: bool)
    ensures
        r == is_option(arg@),
{
    let chars = text::to_chars(arg);
    chars.len() > 1 && chars[0] == '-'
}

pub open spec fn is_dash(arg: Seq<char>) -> bool {
    arg == seq!['-']
}

/// Whether an argument stands for the standard input.
pub fn is_dash_arg(arg: &str) -> (r: bool)
    ensures
        r == is_dash(arg@),
{
    proof {
        reveal_strlit("-");
        assert("-"@ =~= seq!['-']);
    }
    text::str_eq(arg, "-")
}

/// The index of the first option among the arguments, or their number.
pub open spec fn first_option(args: Seq<Seq<char>>, i: int) -> int
    decreases args.len() - i,
{
    if 0 <= i < args.len() && !is_option(args[i]) {
        first_option(args, i + 1)
    } else {
        i
    }
}

/// The first option among the arguments of a command that has none.
pub fn unsupported_flag(args: &Vec<String>) -> (r: Option<&String>)
    ensures
        ({
            let i = first_option(text::texts(args@), 0);
            match r {
                Some(arg) => i < args@.len() && arg@ == text::texts(args@)[i],
                None => i == args@.len(),
            }
        }),
{
    let mut i: usize = 0;
    while i < args.len()
        invariant
            i <= args@.len(),
            first_option(text::texts(args@), i as int) == first_option(text::texts(args@), 0),
        decreases args@.len() - i,
    {
        proof {
            assert(text::texts(args@)[i as int] == args@[i as int]@);
        }
        if is_option_arg(args[i].as_str()) {
            return Some(&args[i]);
        }
        i = i + 1;
    }
    None
}

/// The names of the native commands, in order.
pub fn builtin_names() -> (r: Vec<&'static str>)
    ensures
        r@.map_values(|s: &'static str| s@) == seq![
            "cat"@,
            "cp"@,
            "echo"@,
            "false"@,
            "grep"@,
            "head"@,
            "jq"@,
            "ls"@,
            "mkdir"@,
            "mv"@,
            "pwd"@,
            "rm"@,
            "sed"@,
            "sort"@,
            "stat"@,
            "tail"@,
            "touch"@,
            "true"@,
            "uniq"@,
            "wc"@,
            "which"@,
        ],
{
    let r: Vec<&'static str> = vec![
        "cat",
        "cp",
        "echo",
        "false",
        "grep",
        "head",
        "jq",
        "ls",
        "mkdir",
        "mv",
        "pwd",
        "rm",
        "sed",
        "sort",
        "stat",
        "tail",
        "touch",
        "true",
        "uniq",
        "wc",
        "which",
    ];
    r
}

} // verus!
