//! The file system as commands see it: paths are resolved and checked, and `/bin` is made up
//! from the commands that there are, before anything reaches the underlying file system.

use vstd::prelude::*;

use crate::builtins::files;
use crate::path;
use crate::text;
use crate::textmap::TextMap;
use crate::vfs;
use crate::vfs::{DirEntry, EntryView, Errno, FileType, Metadata, OpenMode, VfsError};

verus! {

/// The most bytes that one read or write of a stream moves.
pub const STREAM_CHUNK_BYTES: usize = 65536;

/// The depth that no path may exceed.
pub const MAX_PATH_DEPTH: usize = 256;

/// The number of components among the first `n` that are not empty.
pub open spec fn depth_of(components: Seq<Seq<char>>, n: int) -> nat
    decreases n,
{
    if n <= 0 {
        0
    } else {
        depth_of(components, n - 1) + if components[n - 1].len() > 0 {
            1nat
        } else {
            0nat
        }
    }
}

pub open spec fn path_depth(p: Seq<char>) -> nat {
    let components = path::split(p, '/');
    depth_of(components, components.len() as int)
}

/// Whether a path may be used: it holds no null character, and is not too deep.
pub open spec fn path_allowed(p: Seq<char>, max_depth: usize) -> bool {
    &&& !p.contains('\0')
    &&& path_depth(p) <= max_depth
    &&& path_depth(p) <= MAX_PATH_DEPTH
}

/// Whether a path is `/bin` or lies in it.
pub open spec fn in_bin(p: Seq<char>) -> bool {
    p == "/bin"@ || text::starts_with(p, "/bin/"@)
}

/// What a path in `/bin` names there.
pub open spec fn bin_name(p: Seq<char>) -> Seq<char> {
    p.skip("/bin/"@.len() as int)
}

fn invalid() -> (r: VfsError)
    ensures
        r == (VfsError { errno: Errno::EINVAL }),
{
    VfsError::new(Errno::EINVAL)
}

fn has_null(p: &str) -> (r: bool)
    ensures
        r == p@.contains('\0'),
{
    let chars = text::to_chars(p);
    crate::builtins::flags::holds(&chars, '\0')
}

/// Checks that a path may be used.
pub fn check_path(p: &str, max_depth: usize) -> (r: Result<(), VfsError>)
    ensures
        r == (if path_allowed(p@, max_depth) {
            Ok::<(), VfsError>(())
        } else {
            Err(VfsError { errno: Errno::EINVAL })
        }),
{
    let components = path::split_char(p, '/');
    let ghost all = path::split(p@, '/');
    let mut depth: usize = 0;
    let mut i: usize = 0;
    proof {
        assert(components@.len() == all.len());
    }
    while i < components.len()
        invariant
            i <= components@.len(),
            all == text::texts(components@),
            depth == depth_of(all, i as int),
            depth <= i,
        decreases components@.len() - i,
    {
        proof {
            assert(all[i as int] == components@[i as int]@);
        }
        if !components[i].as_str().is_empty() {
            depth = depth + 1;
        }
        i = i + 1;
    }
    if has_null(p) || depth > max_depth || depth > MAX_PATH_DEPTH {
        Err(invalid())
    } else {
        Ok(())
    }
}

pub fn is_bin_path(p: &str) -> (r: bool)
    ensures
        r == in_bin(p@),
{
    text::str_eq(p, "/bin") || text::has_prefix(p, "/bin/")
}

/// The name behind `/bin/`.
fn name_in_bin(p: &str) -> (r: String)
    requires
        text::starts_with(p@, "/bin/"@),
    ensures
        r@ == bin_name(p@),
{
    let prefix = text::to_chars("/bin/");
    let chars = text::to_chars(p);
    let r = text::from_range(&chars, prefix.len(), chars.len());
    proof {
        assert(r@ =~= bin_name(p@));
    }
    r
}

/// What commands see of the file system: where they are, and what commands there are.
pub struct FsScope<'a> {
    pub cwd: &'a str,
    pub commands: &'a TextMap<()>,
    pub max_depth: usize,
    /// Whether the execution has ended or was cancelled.
    pub cancelled: bool,
}

/// What is done about a request: it is answered at once, or the underlying file system is asked
/// about a path.
#[derive(Debug, PartialEq, Eq)]
pub enum Lookup {
    Known(Metadata),
    Ask(String),
}

/// How a directory is listed.
#[derive(Debug, PartialEq, Eq)]
pub enum Listing {
    /// The root: the underlying root, with `/bin` added.
    Root,
    /// Entries that are made up.
    Known(Vec<DirEntry>),
    /// A directory of the underlying file system.
    Ask(String),
}

/// How a whole file is read.
#[derive(Debug, PartialEq, Eq)]
pub enum FileRead {
    /// The file is made up and empty.
    Empty,
    /// A file of the underlying file system.
    Ask(String),
}

pub open spec fn file_metadata() -> Metadata {
    Metadata { file_type: FileType::File, len: 0 }
}

pub open spec fn failed<T>(errno: Errno) -> Result<T, VfsError> {
    Err(VfsError { errno })
}

/// The answer about a path in `/bin`.
pub open spec fn bin_metadata(p: Seq<char>, commands: Set<Seq<char>>) -> Result<
    Metadata,
    VfsError,
> {
    if p == "/bin"@ {
        Ok(files::directory())
    } else if !bin_name(p).contains('/') && commands.contains(bin_name(p)) {
        Ok(file_metadata())
    } else {
        failed(Errno::ENOENT)
    }
}

/// The entries of `/bin`: a file for each command, in the order of the names.
pub open spec fn bin_entries(names: Seq<(Seq<char>, ())>) -> Seq<EntryView> {
    names.map_values(
        |n: (Seq<char>, ())| EntryView { name: n.0, metadata: file_metadata() },
    )
}

/// The errors of opening a path in `/bin`: it cannot be opened.
pub open spec fn bin_open_error(p: Seq<char>, write: bool, commands: Set<Seq<char>>) -> Errno {
    if p == "/bin"@ {
        Errno::EISDIR
    } else if !write && !commands.contains(bin_name(p)) {
        Errno::ENOENT
    } else {
        Errno::EACCES
    }
}

impl<'a> FsScope<'a> {
    /// The absolute normal form of a path.
    pub open spec fn target(&self, p: Seq<char>) -> Seq<char> {
        path::resolved(self.cwd@, p)
    }

    /// Why a path is refused, if it is: nothing is done once the execution is cancelled, and the
    /// path must be allowed.
    pub open spec fn refusal(&self, p: Seq<char>) -> Option<Errno> {
        if self.cancelled {
            Some(Errno::EIO)
        } else if !path_allowed(p, self.max_depth) {
            Some(Errno::EINVAL)
        } else {
            None
        }
    }

    pub fn check(&self, p: &str) -> (r: Result<(), VfsError>)
        ensures
            r == (match self.refusal(p@) {
                Some(errno) => failed::<()>(errno),
                None => Ok(()),
            }),
    {
        if self.cancelled {
            return Err(VfsError::new(Errno::EIO));
        }
        check_path(p, self.max_depth)
    }

    pub fn resolve(&self, p: &str) -> (r: String)
        ensures
            r@ == self.target(p@),
    {
        path::resolve(self.cwd, p)
    }

    /// Plans to look at a path.
    pub fn plan_stat(&self, p: &str) -> (r: Result<Lookup, VfsError>)
        ensures
            ({
                let target = self.target(p@);
                if self.refusal(target) is Some {
                    r == failed::<Lookup>(self.refusal(target)->0)
                } else if in_bin(target) {
                    match bin_metadata(target, self.commands@.dom()) {
                        Ok(metadata) => r == Ok::<Lookup, VfsError>(Lookup::Known(metadata)),
                        Err(err) => r == Err::<Lookup, VfsError>(err),
                    }
                } else {
                    r matches Ok(Lookup::Ask(asked)) && asked@ == target
                }
            }),
    {
        let target = self.resolve(p);
        match self.check(target.as_str()) {
            Ok(()) => {},
            Err(err) => {
                return Err(err);
            },
        }
        if text::str_eq(target.as_str(), "/bin") {
            return Ok(Lookup::Known(Metadata { file_type: FileType::Directory, len: 0 }));
        }
        if text::has_prefix(target.as_str(), "/bin/") {
            let name = name_in_bin(target.as_str());
            let chars = text::to_chars(name.as_str());
            if !crate::builtins::flags::holds(&chars, '/') {
                match self.commands.get(name.as_str()) {
                    Some(_) => {
                        return Ok(Lookup::Known(Metadata { file_type: FileType::File, len: 0 }));
                    },
                    None => {},
                }
            }
            return Err(VfsError::new(Errno::ENOENT));
        }
        Ok(Lookup::Ask(target))
    }

    /// Plans to list a directory.
    pub fn plan_readdir(&self, p: &str) -> (r: Result<Listing, VfsError>)
        ensures
            ({
                let target = self.target(p@);
                if self.refusal(target) is Some {
                    r == failed::<Listing>(self.refusal(target)->0)
                } else if target == "/"@ {
                    r == Ok::<Listing, VfsError>(Listing::Root)
                } else if target == "/bin"@ {
                    r matches Ok(Listing::Known(entries)) && vfs::entries_view(entries@)
                        == bin_entries(self.commands.pairs())
                } else if in_bin(target) {
                    r == failed::<Listing>(Errno::ENOTDIR)
                } else {
                    r matches Ok(Listing::Ask(asked)) && asked@ == target
                }
            }),
    {
        let target = self.resolve(p);
        match self.check(target.as_str()) {
            Ok(()) => {},
            Err(err) => {
                return Err(err);
            },
        }
        if text::str_eq(target.as_str(), "/") {
            return Ok(Listing::Root);
        }
        if text::str_eq(target.as_str(), "/bin") {
            let names = self.commands.entries();
            let ghost all = bin_entries(self.commands.pairs());
            let mut entries: Vec<DirEntry> = Vec::new();
            let mut i: usize = 0;
            proof {
                assert(vfs::entries_view(entries@) =~= all.take(0));
            }
            while i < names.len()
                invariant
                    i <= names@.len(),
                    all == bin_entries(self.commands.pairs()),
                    self.commands.pairs() == crate::textmap::pairs_view(names@),
                    vfs::entries_view(entries@) == all.take(i as int),
                decreases names@.len() - i,
            {
                let ghost before = entries@;
                let entry = DirEntry {
                    name: names[i].0.clone(),
                    metadata: Metadata { file_type: FileType::File, len: 0 },
                };
                entries.push(entry);
                proof {
                    assert(self.commands.pairs()[i as int].0 == names@[i as int].0@);
                    assert(vfs::entries_view(entries@) =~= vfs::entries_view(before).push(entry@));
                    assert(all.take(i + 1) =~= all.take(i as int).push(all[i as int]));
                }
                i = i + 1;
            }
            proof {
                assert(all.take(i as int) =~= all);
            }
            return Ok(Listing::Known(entries));
        }
        if text::has_prefix(target.as_str(), "/bin/") {
            return Err(VfsError::new(Errno::ENOTDIR));
        }
        Ok(Listing::Ask(target))
    }

    /// Plans to make or remove what a path names; nothing in `/bin` can be.
    pub fn plan_change(&self, p: &str) -> (r: Result<String, VfsError>)
        ensures
            ({
                let target = self.target(p@);
                if self.refusal(target) is Some {
                    r == failed::<String>(self.refusal(target)->0)
                } else if in_bin(target) {
                    r == failed::<String>(Errno::EACCES)
                } else {
                    r matches Ok(asked) && asked@ == target
                }
            }),
    {
        let target = self.resolve(p);
        match self.check(target.as_str()) {
            Ok(()) => {},
            Err(err) => {
                return Err(err);
            },
        }
        if is_bin_path(target.as_str()) {
            return Err(VfsError::new(Errno::EACCES));
        }
        Ok(target)
    }

    /// Plans to rename; nothing goes into `/bin` or out of it.
    pub fn plan_rename(&self, from: &str, to: &str) -> (r: Result<(String, String), VfsError>)
        ensures
            ({
                let a = self.target(from@);
                let b = self.target(to@);
                if in_bin(a) || in_bin(b) {
                    r == failed::<(String, String)>(Errno::EACCES)
                } else if self.refusal(a) is Some {
                    r == failed::<(String, String)>(self.refusal(a)->0)
                } else if self.refusal(b) is Some {
                    r == failed::<(String, String)>(self.refusal(b)->0)
                } else {
                    r matches Ok((x, y)) && x@ == a && y@ == b
                }
            }),
    {
        let a = self.resolve(from);
        let b = self.resolve(to);
        if is_bin_path(a.as_str()) || is_bin_path(b.as_str()) {
            return Err(VfsError::new(Errno::EACCES));
        }
        match self.check(a.as_str()) {
            Ok(()) => {},
            Err(err) => {
                return Err(err);
            },
        }
        match self.check(b.as_str()) {
            Ok(()) => {},
            Err(err) => {
                return Err(err);
            },
        }
        Ok((a, b))
    }

    /// Plans to open a file.
    pub fn plan_open(&self, p: &str, mode: OpenMode) -> (r: Result<String, VfsError>)
        ensures
            ({
                let target = self.target(p@);
                if self.refusal(target) is Some {
                    r == failed::<String>(self.refusal(target)->0)
                } else if in_bin(target) {
                    r == failed::<String>(
                        bin_open_error(target, mode.write, self.commands@.dom()),
                    )
                } else {
                    r matches Ok(asked) && asked@ == target
                }
            }),
    {
        let target = self.resolve(p);
        match self.check(target.as_str()) {
            Ok(()) => {},
            Err(err) => {
                return Err(err);
            },
        }
        if text::str_eq(target.as_str(), "/bin") {
            return Err(VfsError::new(Errno::EISDIR));
        }
        if text::has_prefix(target.as_str(), "/bin/") {
            if !mode.write {
                let name = name_in_bin(target.as_str());
                match self.commands.get(name.as_str()) {
                    Some(_) => {},
                    None => {
                        return Err(VfsError::new(Errno::ENOENT));
                    },
                }
            }
            return Err(VfsError::new(Errno::EACCES));
        }
        Ok(target)
    }

    /// Plans to read a whole file.
    pub fn plan_read_file(&self, p: &str) -> (r: Result<FileRead, VfsError>)
        ensures
            ({
                let target = self.target(p@);
                if self.refusal(target) is Some {
                    r == failed::<FileRead>(self.refusal(target)->0)
                } else if target == "/bin"@ {
                    r == failed::<FileRead>(Errno::EISDIR)
                } else if in_bin(target) {
                    if self.commands@.dom().contains(bin_name(target)) {
                        r == Ok::<FileRead, VfsError>(FileRead::Empty)
                    } else {
                        r == failed::<FileRead>(Errno::ENOENT)
                    }
                } else {
                    r matches Ok(FileRead::Ask(asked)) && asked@ == target
                }
            }),
    {
        let target = self.resolve(p);
        match self.check(target.as_str()) {
            Ok(()) => {},
            Err(err) => {
                return Err(err);
            },
        }
        if text::str_eq(target.as_str(), "/bin") {
            return Err(VfsError::new(Errno::EISDIR));
        }
        if text::has_prefix(target.as_str(), "/bin/") {
            let name = name_in_bin(target.as_str());
            return match self.commands.get(name.as_str()) {
                Some(_) => Ok(FileRead::Empty),
                None => Err(VfsError::new(Errno::ENOENT)),
            };
        }
        Ok(FileRead::Ask(target))
    }
}

/// Adds `/bin` to the entries of the root.
pub fn with_bin_entry(entries: Vec<DirEntry>) -> (r: Vec<DirEntry>)
    ensures
        files::sorted_by_name(
            vfs::entries_view(entries@).push(
                EntryView { name: "bin"@, metadata: files::directory() },
            ),
            vfs::entries_view(r@),
        ),
{
    let ghost before = entries@;
    let mut all = entries;
    let bin = DirEntry {
        name: text::copy("bin"),
        metadata: Metadata { file_type: FileType::Directory, len: 0 },
    };
    all.push(bin);
    proof {
        assert(vfs::entries_view(all@) =~= vfs::entries_view(before).push(bin@));
    }
    files::sort_entries(&all)
}

/// The most bytes that one raw read or write may move.
pub fn max_io_bytes(host_input_bytes: usize) -> (r: usize)
    ensures
        r == if host_input_bytes < STREAM_CHUNK_BYTES {
            STREAM_CHUNK_BYTES
        } else {
            host_input_bytes
        },
{
    if host_input_bytes < STREAM_CHUNK_BYTES {
        STREAM_CHUNK_BYTES
    } else {
        host_input_bytes
    }
}

/// Checks a transfer before it is made: the buffer may not be too large.
pub fn check_buffer(bytes: usize, host_input_bytes: usize) -> (r: Result<(), VfsError>)
    ensures
        r == (if bytes <= STREAM_CHUNK_BYTES || bytes <= host_input_bytes {
            Ok::<(), VfsError>(())
        } else {
            failed(Errno::EFBIG)
        }),
{
    if bytes > max_io_bytes(host_input_bytes) {
        Err(VfsError::new(Errno::EFBIG))
    } else {
        Ok(())
    }
}

/// Checks what the underlying file system says it has moved: no more than it was given.
pub fn check_moved(moved: usize, bytes: usize) -> (r: Result<usize, VfsError>)
    ensures
        r == (if moved <= bytes {
            Ok::<usize, VfsError>(moved)
        } else {
            failed(Errno::EIO)
        }),
{
    if moved > bytes {
        Err(VfsError::new(Errno::EIO))
    } else {
        Ok(moved)
    }
}

/// What comes after a read of a whole file.
#[derive(Debug, Clone, Copy, PartialEq, Eq, Structural)]
pub enum ReadStep {
    /// The bytes belong to the file, and more may follow.
    More,
    /// The file has ended.
    Done,
}

/// A file that is read as a whole, up to a limit.
#[derive(Debug)]
pub struct FileReader {
    pub data: Vec<u8>,
    pub limit: usize,
}

impl FileReader {
    pub fn new(limit: usize) -> (r: Self)
        ensures
            r.data@ == Seq::<u8>::empty(),
            r.limit == limit,
    {
        FileReader { data: Vec::new(), limit }
    }

    /// How many bytes the next read asks for: one more than may still come, so that a file that
    /// is too large shows.
    pub fn want(&self) -> (r: usize)
        ensures
            0 < r <= STREAM_CHUNK_BYTES,
            r == ({
                let left = if self.data@.len() < self.limit {
                    self.limit - self.data@.len()
                } else {
                    0
                };
                if left >= STREAM_CHUNK_BYTES {
                    STREAM_CHUNK_BYTES as int
                } else {
                    left + 1
                }
            }),
    {
        let left: usize = self.limit.saturating_sub(self.data.len());
        if left >= STREAM_CHUNK_BYTES {
            STREAM_CHUNK_BYTES
        } else {
            left + 1
        }
    }

    /// Takes what a read gave. A file that exceeds the limit is refused.
    pub fn take(&mut self, read: &[u8]) -> (r: Result<ReadStep, VfsError>)
        ensures
            final(self).limit == old(self).limit,
            if read@.len() == 0 {
                r == Ok::<ReadStep, VfsError>(ReadStep::Done) && final(self).data@
                    == old(self).data@
            } else if old(self).data@.len() + read@.len() > old(self).limit {
                r == failed::<ReadStep>(Errno::EFBIG) && final(self).data@ == old(self).data@
            } else {
                r == Ok::<ReadStep, VfsError>(ReadStep::More) && final(self).data@
                    == old(self).data@ + read@
            },
    {
        if read.len() == 0 {
            return Ok(ReadStep::Done);
        }
        if read.len() > self.limit.saturating_sub(self.data.len()) {
            return Err(VfsError::new(Errno::EFBIG));
        }
        crate::bytes::extend(&mut self.data, read);
        Ok(ReadStep::More)
    }
}

/// A read that continues where the last one ended keeps what was read a beginning of the file,
/// and is refused only for a file that is larger than the limit. At the end of the file, what was
/// read is the file.
pub proof fn law_reading_gathers_the_file(file: Seq<u8>, data: Seq<u8>, read: Seq<u8>, limit: nat)
    requires
        data.len() + read.len() <= file.len(),
        data == file.take(data.len() as int),
        read == file.subrange(data.len() as int, (data.len() + read.len()) as int),
    ensures
        data + read == file.take((data.len() + read.len()) as int),
        data.len() + read.len() > limit ==> file.len() > limit,
        data.len() == file.len() ==> data == file,
{
    assert(data + read =~= file.take((data.len() + read.len()) as int));
    if data.len() == file.len() {
        assert(file.take(data.len() as int) =~= file);
    }
}

/// Bytes of a stream that were read ahead of what was asked for.
#[derive(Debug)]
pub struct StreamBuffer {
    pending: Vec<u8>,
    start: usize,
}

impl StreamBuffer {
    #[verifier::type_invariant]
    spec fn wf(self) -> bool {
        self.start <= self.pending@.len()
    }

    /// What is left of them.
    pub closed spec fn view(&self) -> Seq<u8> {
        self.pending@.skip(self.start as int)
    }

    pub fn new(pending: Vec<u8>) -> (r: Self)
        ensures
            r@ == pending@,
    {
        let r = StreamBuffer { pending, start: 0 };
        proof {
            assert(r@ =~= pending@);
        }
        r
    }

    /// Takes as many of the bytes as there is room for.
    pub fn take(&mut self, room: usize) -> (r: Vec<u8>)
        ensures
            r@.len() == if old(self)@.len() < room {
                old(self)@.len()
            } else {
                room as nat
            },
            r@ + final(self)@ == old(self)@,
    {
        proof {
            use_type_invariant(&*self);
        }
        let left: usize = self.pending.len() - self.start;
        let n: usize = if left < room {
            left
        } else {
            room
        };
        let ghost before = self@;
        let taken = crate::bytes::slice(self.pending.as_slice(), self.start, self.start + n);
        let r = crate::bytes::copy(taken);
        self.start = self.start + n;
        proof {
            assert(r@ + self@ =~= before);
        }
        r
    }
}

/// The end of the next piece of a file that is written, of which `written` bytes are.
pub fn next_write_end(written: usize, total: usize) -> (r: usize)
    requires
        written <= total,
    ensures
        written <= r <= total,
        r - written <= STREAM_CHUNK_BYTES,
        written < total ==> r > written,
        r < total ==> r - written == STREAM_CHUNK_BYTES,
{
    if total - written > STREAM_CHUNK_BYTES {
        written + STREAM_CHUNK_BYTES
    } else {
        total
    }
}

/// Takes note of a write: one that moved nothing means that there is no room.
pub fn after_write(written: usize, moved: usize, total: usize) -> (r: Result<usize, VfsError>)
    requires
        written + moved <= total,
    ensures
        r == (if moved == 0 {
            failed::<usize>(Errno::ENOSPC)
        } else {
            Ok((written + moved) as usize)
        }),
{
    if moved == 0 {
        Err(VfsError::new(Errno::ENOSPC))
    } else {
        Ok(written + moved)
    }
}

/// How a whole file is opened to be written.
pub fn write_file_mode(append: bool) -> (r: OpenMode)
    ensures
        r == (OpenMode {
            create: true,
            append,
            truncate: !append,
            ..vfs::open_mode(false, true)
        }),
{
    if append {
        OpenMode::write_only().create().append()
    } else {
        OpenMode::write_only().create().truncate()
    }
}

/// A whole file that is too large is not opened to be written.
pub fn check_write_size(bytes: usize, host_input_bytes: usize) -> (r: Result<(), VfsError>)
    ensures
        r == (if bytes <= host_input_bytes {
            Ok::<(), VfsError>(())
        } else {
            failed(Errno::EFBIG)
        }),
{
    if bytes > host_input_bytes {
        Err(VfsError::new(Errno::EFBIG))
    } else {
        Ok(())
    }
}

/// Nothing in `/bin` is handed to the underlying file system to be opened, and whoever wants to
/// write there is told that it is not permitted, or that it is a directory.
pub proof fn law_bin_cannot_be_opened_to_write(p: Seq<char>, commands: Set<Seq<char>>)
    requires
        in_bin(p),
    ensures
        bin_open_error(p, true, commands) == (if p == "/bin"@ {
            Errno::EISDIR
        } else {
            Errno::EACCES
        }),
{
}

/// What `ls /bin` lists and what can be looked up there are the same: the commands that there
/// are, as files.
pub proof fn law_bin_lists_what_can_be_looked_up(names: Seq<(Seq<char>, ())>, name: Seq<char>)
    requires
        crate::textmap::sorted_pairs(names),
        !name.contains('/'),
    ensures
        ({
            let commands = crate::textmap::pairs_map(names).dom();
            (exists|i: int|
                0 <= i < bin_entries(names).len() && (#[trigger] bin_entries(names)[i]).name
                    == name) <==> bin_metadata("/bin/"@ + name, commands) == Ok::<
                Metadata,
                VfsError,
            >(file_metadata())
        }),
{
    let p = "/bin/"@ + name;
    let commands = crate::textmap::pairs_map(names).dom();
    assert(bin_name(p) =~= name);
    assert(p != "/bin"@) by {
        reveal_strlit("/bin/");
        reveal_strlit("/bin");
        assert("/bin"@.len() == 4 && "/bin/"@.len() == 5);
    }
    if commands.contains(name) {
        let i = choose|i: int| 0 <= i < names.len() && (#[trigger] names[i]).0 == name;
        assert(bin_entries(names)[i].name == name);
    }
    if exists|i: int|
        0 <= i < bin_entries(names).len() && (#[trigger] bin_entries(names)[i]).name == name {
        let i = choose|i: int|
            0 <= i < bin_entries(names).len() && (#[trigger] bin_entries(names)[i]).name == name;
        assert(names[i].0 == name);
        crate::textmap::lemma_pairs_map(names, i);
    }
}

/// The depth of a path is the number of its components: those before a slash and those behind it
/// add up, and empty ones do not count.
pub proof fn law_depth_counts_components(a: Seq<char>, b: Seq<char>)
    ensures
        path_depth(a + seq!['/'] + b) == path_depth(a) + path_depth(b),
        !a.contains('/') && a.len() > 0 ==> path_depth(a) == 1,
        a.len() == 0 ==> path_depth(a) == 0,
{
    path::law_texts_are_split_at_a_character(a, b, '/');
    let x = path::split(a, '/');
    let y = path::split(b, '/');
    lemma_depth(x, y, y.len() as int);
    if !a.contains('/') {
        reveal_with_fuel(depth_of, 2);
    }
}

proof fn lemma_depth(a: Seq<Seq<char>>, b: Seq<Seq<char>>, n: int)
    requires
        -a.len() <= n <= b.len(),
    ensures
        n >= 0 ==> depth_of(a + b, a.len() + n) == depth_of(a, a.len() as int) + depth_of(b, n),
        n <= 0 ==> depth_of(a + b, a.len() + n) == depth_of(a, a.len() + n),
    decreases a.len() + n,
{
    if a.len() + n > 0 {
        lemma_depth(a, b, n - 1);
        if n > 0 {
            assert((a + b)[a.len() + n - 1] == b[n - 1]);
        } else {
            assert((a + b)[a.len() + n - 1] == a[a.len() + n - 1]);
        }
    }
}

/// Every command is a file in `/bin`, under its name, and nothing else is there: names that are no
/// commands do not exist, nor does anything below a command. Other paths are not in `/bin`, even
/// where they start alike.
pub proof fn law_commands_are_files_in_bin(name: Seq<char>, commands: Set<Seq<char>>)
    requires
        !name.contains('/'),
    ensures
        in_bin("/bin/"@ + name),
        bin_name("/bin/"@ + name) == name,
        bin_metadata("/bin/"@ + name, commands) == (if commands.contains(name) {
            Ok::<Metadata, VfsError>(Metadata { file_type: FileType::File, len: 0 })
        } else {
            Err(VfsError { errno: Errno::ENOENT })
        }),
        bin_metadata("/bin"@, commands) == Ok::<Metadata, VfsError>(
            Metadata { file_type: FileType::Directory, len: 0 },
        ),
        forall|below: Seq<char>|
            #[trigger] bin_metadata("/bin/"@ + name + seq!['/'] + below, commands) == Err::<
                Metadata,
                VfsError,
            >(VfsError { errno: Errno::ENOENT }),
        name.len() > 0 ==> !in_bin("/bin"@ + name),
{
    reveal_strlit("/bin/");
    reveal_strlit("/bin");
    let p = "/bin/"@ + name;
    assert(p.take(5) =~= "/bin/"@);
    assert(p.skip(5) =~= name);
    assert(p.len() > 4);
    assert forall|below: Seq<char>|
        #[trigger] bin_metadata("/bin/"@ + name + seq!['/'] + below, commands) == Err::<
            Metadata,
            VfsError,
        >(VfsError { errno: Errno::ENOENT }) by {
        let q = "/bin/"@ + name + seq!['/'] + below;
        let rest = q.skip(5);
        assert(rest[name.len() as int] == '/');
        assert(rest.contains('/'));
        assert(q.len() > 4);
    }
    if name.len() > 0 {
        let q = "/bin"@ + name;
        assert(q[4] == name[0]);
        assert(name.contains(name[0]));
        if text::starts_with(q, "/bin/"@) {
            assert(q.take(5)[4] == q[4]);
        }
    }
}

/// A path may be used where it holds no null character and is no deeper than allowed; a shorter
/// one may be used too.
pub proof fn law_shorter_paths_are_allowed(a: Seq<char>, b: Seq<char>, max_depth: usize)
    requires
        path_allowed(a + seq!['/'] + b, max_depth),
    ensures
        path_allowed(a, max_depth),
        path_allowed(b, max_depth),
{
    law_depth_counts_components(a, b);
    let all = a + seq!['/'] + b;
    if a.contains('\0') {
        let i = a.index_of('\0');
        assert(all[i] == '\0');
    }
    if b.contains('\0') {
        let i = b.index_of('\0');
        assert(all[a.len() + 1 + i] == '\0');
    }
}

} // verus!
