//! What the sandbox asks of a file system, and what it is answered.

use vstd::prelude::*;

verus! {

/// The errors that file system operations report.
#[derive(Debug, Clone, Copy, PartialEq, Eq, Structural)]
pub enum Errno {
    EBADF,
    EBUSY,
    EXDEV,
    EACCES,
    EEXIST,
    EFBIG,
    EIO,
    EINVAL,
    EISDIR,
    ENOENT,
    ENOSPC,
    ENOTDIR,
    ENOTEMPTY,
}

#[derive(Debug, Clone, Copy, PartialEq, Eq, Structural)]
pub struct VfsError {
    pub errno: Errno,
}

impl VfsError {
    pub fn new(errno: Errno) -> (r: Self)
        ensures
            r.errno == errno,
    {
        VfsError { errno }
    }

    pub fn errno(&self) -> (r: Errno)
        ensures
            r == self.errno,
    {
        self.errno
    }
}

#[derive(Debug, Clone, Copy, PartialEq, Eq, Structural)]
pub enum FileType {
    File,
    Directory,
}

#[derive(Debug, Clone, Copy, PartialEq, Eq, Structural)]
pub struct Metadata {
    pub file_type: FileType,
    pub len: u64,
}

#[derive(Debug, PartialEq, Eq)]
pub struct DirEntry {
    pub name: String,
    pub metadata: Metadata,
}

/// A directory entry by its name.
#[verifier::ext_equal]
pub struct EntryView {
    pub name: Seq<char>,
    pub metadata: Metadata,
}

impl View for DirEntry {
    type V = EntryView;

    open spec fn view(&self) -> EntryView {
        EntryView { name: self.name@, metadata: self.metadata }
    }
}

pub open spec fn entries_view(entries: Seq<DirEntry>) -> Seq<EntryView> {
    entries.map_values(|e: DirEntry| e@)
}

/// How a file is opened.
#[derive(Debug, Clone, Copy, PartialEq, Eq, Structural)]
pub struct OpenMode {
    pub read: bool,
    pub write: bool,
    pub create: bool,
    pub create_new: bool,
    pub truncate: bool,
    pub append: bool,
}

pub open spec fn open_mode(read: bool, write: bool) -> OpenMode {
    OpenMode { read, write, create: false, create_new: false, truncate: false, append: false }
}

impl OpenMode {
    pub fn read_only() -> (r: Self)
        ensures
            r == open_mode(true, false),
    {
        OpenMode {
            read: true,
            write: false,
            create: false,
            create_new: false,
            truncate: false,
            append: false,
        }
    }

    pub fn write_only() -> (r: Self)
        ensures
            r == open_mode(false, true),
    {
        OpenMode {
            read: false,
            write: true,
            create: false,
            create_new: false,
            truncate: false,
            append: false,
        }
    }

    pub fn read_write() -> (r: Self)
        ensures
            r == open_mode(true, true),
    {
        OpenMode {
            read: true,
            write: true,
            create: false,
            create_new: false,
            truncate: false,
            append: false,
        }
    }

    pub fn create(self) -> (r: Self)
        ensures
            r == (OpenMode { create: true, ..self }),
    {
        OpenMode { create: true, ..self }
    }

    pub fn create_new(self) -> (r: Self)
        ensures
            r == (OpenMode { create_new: true, ..self }),
    {
        OpenMode { create_new: true, ..self }
    }

    pub fn truncate(self) -> (r: Self)
        ensures
            r == (OpenMode { truncate: true, ..self }),
    {
        OpenMode { truncate: true, ..self }
    }

    pub fn append(self) -> (r: Self)
        ensures
            r == (OpenMode { append: true, ..self }),
    {
        OpenMode { append: true, ..self }
    }
}

/// The text of an error, as the standard tools print it.
pub open spec fn errno_text(errno: Errno) -> Seq<char> {
    match errno {
        Errno::EBADF => "Bad file descriptor"@,
        Errno::EBUSY => "Device or resource busy"@,
        Errno::EXDEV => "Invalid cross-device link"@,
        Errno::EACCES => "Permission denied"@,
        Errno::EEXIST => "File exists"@,
        Errno::EFBIG => "File too large"@,
        Errno::EIO => "Input/output error"@,
        Errno::EINVAL => "Invalid argument"@,
        Errno::EISDIR => "Is a directory"@,
        Errno::ENOENT => "No such file or directory"@,
        Errno::ENOSPC => "No space left on device"@,
        Errno::ENOTDIR => "Not a directory"@,
        Errno::ENOTEMPTY => "Directory not empty"@,
    }
}

pub fn errno_message(errno: Errno) -> (r: &'static str)
    ensures
        r@ == errno_text(errno),
{
    match errno {
        Errno::EBADF => "Bad file descriptor",
        Errno::EBUSY => "Device or resource busy",
        Errno::EXDEV => "Invalid cross-device link",
        Errno::EACCES => "Permission denied",
        Errno::EEXIST => "File exists",
        Errno::EFBIG => "File too large",
        Errno::EIO => "Input/output error",
        Errno::EINVAL => "Invalid argument",
        Errno::EISDIR => "Is a directory",
        Errno::ENOENT => "No such file or directory",
        Errno::ENOSPC => "No space left on device",
        Errno::ENOTDIR => "Not a directory",
        Errno::ENOTEMPTY => "Directory not empty",
    }
}

} // verus!
