//! Failures as Node reports them, and the flags that files are opened with.

use vstd::prelude::*;

use crate::text;
use crate::vfs;
use crate::vfs::{Errno, OpenMode, VfsError};

verus! {

/// A failure, shaped as Node's.
#[derive(Debug, PartialEq, Eq)]
pub struct NodeError {
    pub code: &'static str,
    pub errno: i32,
    pub message: &'static str,
    pub syscall: &'static str,
    pub path: Option<String>,
}

#[verifier::ext_equal]
pub struct NodeErrorView {
    pub code: Seq<char>,
    pub errno: int,
    pub message: Seq<char>,
    pub syscall: Seq<char>,
    pub path: Option<Seq<char>>,
}

impl NodeError {
    pub open spec fn view(&self) -> NodeErrorView {
        NodeErrorView {
            code: self.code@,
            errno: self.errno as int,
            message: self.message@,
            syscall: self.syscall@,
            path: crate::host::code_view(self.path),
        }
    }
}

/// The name of an error.
pub open spec fn errno_name(errno: Errno) -> Seq<char> {
    match errno {
        Errno::EBADF => "EBADF"@,
        Errno::EBUSY => "EBUSY"@,
        Errno::EXDEV => "EXDEV"@,
        Errno::EACCES => "EACCES"@,
        Errno::EEXIST => "EEXIST"@,
        Errno::EFBIG => "EFBIG"@,
        Errno::EIO => "EIO"@,
        Errno::EINVAL => "EINVAL"@,
        Errno::EISDIR => "EISDIR"@,
        Errno::ENOENT => "ENOENT"@,
        Errno::ENOSPC => "ENOSPC"@,
        Errno::ENOTDIR => "ENOTDIR"@,
        Errno::ENOTEMPTY => "ENOTEMPTY"@,
    }
}

pub fn name_of(errno: Errno) -> (r: &'static str)
    ensures
        r@ == errno_name(errno),
{
    match errno {
        Errno::EBADF => "EBADF",
        Errno::EBUSY => "EBUSY",
        Errno::EXDEV => "EXDEV",
        Errno::EACCES => "EACCES",
        Errno::EEXIST => "EEXIST",
        Errno::EFBIG => "EFBIG",
        Errno::EIO => "EIO",
        Errno::EINVAL => "EINVAL",
        Errno::EISDIR => "EISDIR",
        Errno::ENOENT => "ENOENT",
        Errno::ENOSPC => "ENOSPC",
        Errno::ENOTDIR => "ENOTDIR",
        Errno::ENOTEMPTY => "ENOTEMPTY",
    }
}

/// The number that libuv gives an error.
pub open spec fn uv_number(errno: Errno) -> int {
    match errno {
        Errno::EBADF => -9,
        Errno::EBUSY => -16,
        Errno::EXDEV => -18,
        Errno::EACCES => -13,
        Errno::EEXIST => -17,
        Errno::EFBIG => -27,
        Errno::EIO => -5,
        Errno::EINVAL => -22,
        Errno::EISDIR => -21,
        Errno::ENOENT => -2,
        Errno::ENOSPC => -28,
        Errno::ENOTDIR => -20,
        Errno::ENOTEMPTY => -66,
    }
}

pub fn libuv_errno(errno: Errno) -> (r: i32)
    ensures
        r == uv_number(errno),
{
    match errno {
        Errno::EBADF => -9,
        Errno::EBUSY => -16,
        Errno::EXDEV => -18,
        Errno::EACCES => -13,
        Errno::EEXIST => -17,
        Errno::EFBIG => -27,
        Errno::EIO => -5,
        Errno::EINVAL => -22,
        Errno::EISDIR => -21,
        Errno::ENOENT => -2,
        Errno::ENOSPC => -28,
        Errno::ENOTDIR => -20,
        Errno::ENOTEMPTY => -66,
    }
}

/// What Node says of an error.
pub open spec fn node_text(errno: Errno) -> Seq<char> {
    match errno {
        Errno::EBADF => "bad file descriptor"@,
        Errno::EBUSY => "resource busy or locked"@,
        Errno::EXDEV => "cross-device link not permitted"@,
        Errno::EACCES => "permission denied"@,
        Errno::EEXIST => "file already exists"@,
        Errno::EFBIG => "file too large"@,
        Errno::EIO => "i/o error"@,
        Errno::EINVAL => "invalid argument"@,
        Errno::EISDIR => "illegal operation on a directory"@,
        Errno::ENOENT => "no such file or directory"@,
        Errno::ENOSPC => "no space left on device"@,
        Errno::ENOTDIR => "not a directory"@,
        Errno::ENOTEMPTY => "directory not empty"@,
    }
}

pub fn node_errno_message(errno: Errno) -> (r: &'static str)
    ensures
        r@ == node_text(errno),
{
    match errno {
        Errno::EBADF => "bad file descriptor",
        Errno::EBUSY => "resource busy or locked",
        Errno::EXDEV => "cross-device link not permitted",
        Errno::EACCES => "permission denied",
        Errno::EEXIST => "file already exists",
        Errno::EFBIG => "file too large",
        Errno::EIO => "i/o error",
        Errno::EINVAL => "invalid argument",
        Errno::EISDIR => "illegal operation on a directory",
        Errno::ENOENT => "no such file or directory",
        Errno::ENOSPC => "no space left on device",
        Errno::ENOTDIR => "not a directory",
        Errno::ENOTEMPTY => "directory not empty",
    }
}

/// The failure that an error of the file system is reported as.
pub open spec fn node_failure(
    errno: Errno,
    syscall: Seq<char>,
    path: Option<Seq<char>>,
) -> NodeErrorView {
    NodeErrorView {
        code: errno_name(errno),
        errno: uv_number(errno),
        message: node_text(errno),
        syscall,
        path,
    }
}

pub fn node_error(err: VfsError, syscall: &'static str, path: Option<String>) -> (r: NodeError)
    ensures
        r@ == node_failure(err.errno, syscall@, crate::host::code_view(path)),
{
    let errno = err.errno();
    NodeError {
        code: name_of(errno),
        errno: libuv_errno(errno),
        message: node_errno_message(errno),
        syscall,
        path,
    }
}

/// Different errors have different names and different numbers.
pub proof fn law_error_numbers_are_distinct(a: Errno, b: Errno)
    ensures
        uv_number(a) == uv_number(b) ==> a == b,
        uv_number(a) < 0,
{
}

/// How a file is opened for reading, writing or both, with what becomes of a file that is there.
pub open spec fn flag_mode(flags: Seq<char>) -> Option<OpenMode> {
    let read_write = vfs::open_mode(true, true);
    let write_only = vfs::open_mode(false, true);
    if flags == "r"@ {
        Some(vfs::open_mode(true, false))
    } else if flags == "r+"@ {
        Some(read_write)
    } else if flags == "w"@ {
        Some(OpenMode { create: true, truncate: true, ..write_only })
    } else if flags == "wx"@ || flags == "xw"@ {
        Some(OpenMode { create_new: true, truncate: true, ..write_only })
    } else if flags == "w+"@ {
        Some(OpenMode { create: true, truncate: true, ..read_write })
    } else if flags == "wx+"@ || flags == "w+x"@ || flags == "xw+"@ || flags == "x+w"@ {
        Some(OpenMode { create_new: true, truncate: true, ..read_write })
    } else if flags == "a"@ {
        Some(OpenMode { create: true, append: true, ..write_only })
    } else if flags == "ax"@ || flags == "xa"@ {
        Some(OpenMode { create_new: true, append: true, ..write_only })
    } else if flags == "a+"@ {
        Some(OpenMode { create: true, append: true, ..read_write })
    } else if flags == "ax+"@ || flags == "a+x"@ || flags == "xa+"@ || flags == "x+a"@ {
        Some(OpenMode { create_new: true, append: true, ..read_write })
    } else {
        None
    }
}

fn any_of(flags: &str, a: &str, b: &str, c: &str, d: &str) -> (r: bool)
    ensures
        r == (flags@ == a@ || flags@ == b@ || flags@ == c@ || flags@ == d@),
{
    text::str_eq(flags, a) || text::str_eq(flags, b) || text::str_eq(flags, c) || text::str_eq(
        flags,
        d,
    )
}

pub fn open_mode(flags: &str) -> (r: Result<OpenMode, VfsError>)
    ensures
        match flag_mode(flags@) {
            Some(mode) => r == Ok::<OpenMode, VfsError>(mode),
            None => r == Err::<OpenMode, VfsError>(VfsError { errno: Errno::EINVAL }),
        },
{
    if text::str_eq(flags, "r") {
        Ok(OpenMode::read_only())
    } else if text::str_eq(flags, "r+") {
        Ok(OpenMode::read_write())
    } else if text::str_eq(flags, "w") {
        Ok(OpenMode::write_only().create().truncate())
    } else if any_of(flags, "wx", "xw", "wx", "xw") {
        Ok(OpenMode::write_only().create_new().truncate())
    } else if text::str_eq(flags, "w+") {
        Ok(OpenMode::read_write().create().truncate())
    } else if any_of(flags, "wx+", "w+x", "xw+", "x+w") {
        Ok(OpenMode::read_write().create_new().truncate())
    } else if text::str_eq(flags, "a") {
        Ok(OpenMode::write_only().create().append())
    } else if any_of(flags, "ax", "xa", "ax", "xa") {
        Ok(OpenMode::write_only().create_new().append())
    } else if text::str_eq(flags, "a+") {
        Ok(OpenMode::read_write().create().append())
    } else if any_of(flags, "ax+", "a+x", "xa+", "x+a") {
        Ok(OpenMode::read_write().create_new().append())
    } else {
        Err(VfsError::new(Errno::EINVAL))
    }
}

/// The letters of flags say how a file is opened: `+` or `r` to read, all but `r` alone to write,
/// `w` to empty it, `a` to append to it, and `x` to make it where there is none; the others that
/// write make it where there is none and take the one that is there.
pub proof fn law_flags_say_how_files_are_opened(flags: Seq<char>)
    ensures
        flag_mode(flags) matches Some(mode) ==> {
            &&& mode.read <==> flags.contains('r') || flags.contains('+')
            &&& mode.write <==> flags != seq!['r']
            &&& mode.truncate <==> flags.contains('w')
            &&& mode.append <==> flags.contains('a')
            &&& mode.create_new <==> flags.contains('x')
            &&& mode.create <==> (flags.contains('w') || flags.contains('a')) && !flags.contains(
                'x',
            )
        },
        flag_mode(flags) is Some ==> 1 <= flags.len() <= 3,
{
    reveal_strlit("r");
    reveal_strlit("r+");
    reveal_strlit("w");
    reveal_strlit("wx");
    reveal_strlit("xw");
    reveal_strlit("w+");
    reveal_strlit("wx+");
    reveal_strlit("w+x");
    reveal_strlit("xw+");
    reveal_strlit("x+w");
    reveal_strlit("a");
    reveal_strlit("ax");
    reveal_strlit("xa");
    reveal_strlit("a+");
    reveal_strlit("ax+");
    reveal_strlit("a+x");
    reveal_strlit("xa+");
    reveal_strlit("x+a");
    if flag_mode(flags) is Some {
        assert(flags.contains(flags[0]));
        if flags.len() > 1 {
            assert(flags.contains(flags[1]));
        }
        if flags.len() > 2 {
            assert(flags.contains(flags[2]));
        }
        if flags == "r"@ {
            assert(flags =~= seq!['r']);
        } else if flags == seq!['r'] {
            assert(flags =~= "r"@);
        }
    }
}

} // verus!
