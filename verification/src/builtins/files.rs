//! The commands on files and directories: what they are asked, what they print, and in which
//! order they go about it.

use vstd::prelude::*;

use crate::builtins;
use crate::builtins::flags;
use crate::builtins::{Failure, FailureView};
use crate::path;
use crate::sorting;
use crate::sorting::SortKey;
use crate::text;
use crate::textmap::TextMap;
use crate::vfs;
use crate::vfs::{DirEntry, EntryView, Errno, FileType, Metadata, VfsError};

verus! {

// ---- ls ----

/// What `ls` is asked to do.
pub struct LsPlan {
    pub all: bool,
    pub long: bool,
    pub paths: Vec<String>,
}

/// The operands, or the current directory where there are none.
pub open spec fn or_current(operands: Seq<Seq<char>>) -> Seq<Seq<char>> {
    if operands.len() == 0 {
        seq!["."@]
    } else {
        operands
    }
}

/// Reads the arguments of `ls`.
pub fn parse_ls_args(args: &Vec<String>) -> (r: Result<LsPlan, Failure>)
    ensures
        match flags::scanned(text::texts(args@), "al"@) {
            Ok(read) => r matches Ok(plan) && plan.all == read.letters.contains('a') && plan.long
                == read.letters.contains('l') && text::texts(plan.paths@) == or_current(
                read.operands,
            ),
            Err(letter) => r matches Err(failure) && failure@ == (FailureView {
                message: builtins::unsupported_text("ls"@, builtins::letter_option(letter)),
                code: 1,
            }),
        },
{
    match flags::split_letters(args, "al") {
        Err(letter) => Err(builtins::unsupported_letter("ls", letter, 1)),
        Ok(read) => {
            let all = flags::holds(&read.letters, 'a');
            let long = flags::holds(&read.letters, 'l');
            let mut paths = read.operands;
            if paths.len() == 0 {
                let here = text::copy(".");
                paths.push(here);
                proof {
                    assert(text::texts(paths@) =~= seq!["."@]);
                }
            }
            Ok(LsPlan { all, long, paths })
        },
    }
}

/// The heading of a directory where several paths are listed.
pub open spec fn heading_text(listed: Seq<char>, index: nat) -> Seq<char> {
    (if index > 0 {
        "\n"@
    } else {
        ""@
    }) + listed + ":\n"@
}

pub fn format_heading(listed: &str, index: usize) -> (r: String)
    ensures
        r@ == heading_text(listed@, index as nat),
{
    if index > 0 {
        text::concat3("\n", listed, ":\n")
    } else {
        text::concat3("", listed, ":\n")
    }
}

pub open spec fn mode_text(file_type: FileType) -> Seq<char> {
    match file_type {
        FileType::Directory => "drwxr-xr-x"@,
        FileType::File => "-rw-r--r--"@,
    }
}

/// An entry as `ls` prints it.
pub open spec fn ls_entry_text(name: Seq<char>, metadata: Metadata, long: bool) -> Seq<char> {
    if long {
        mode_text(metadata.file_type) + " 1 0 0 "@ + text::pad_left(
            text::decimal_text(metadata.len as nat),
            6,
        ) + " Jan  1 00:00 "@ + name + "\n"@
    } else {
        name + "\n"@
    }
}

pub fn format_ls_entry(name: &str, metadata: Metadata, long: bool) -> (r: String)
    ensures
        r@ == ls_entry_text(name@, metadata, long),
{
    if !long {
        return text::concat2(name, "\n");
    }
    let mode = match metadata.file_type {
        FileType::Directory => "drwxr-xr-x",
        FileType::File => "-rw-r--r--",
    };
    let number = text::decimal(metadata.len);
    let size = text::padded(number.as_str(), 6);
    let mut out = text::concat5(mode, " 1 0 0 ", size.as_str(), " Jan  1 00:00 ", name);
    out.append("\n");
    out
}

pub open spec fn hidden(name: Seq<char>) -> bool {
    name.len() > 0 && name[0] == '.'
}

pub open spec fn directory() -> Metadata {
    Metadata { file_type: FileType::Directory, len: 0 }
}

/// The entries that `ls` lists, before they are sorted.
pub open spec fn listed(entries: Seq<EntryView>, all: bool) -> Seq<EntryView> {
    if all {
        seq![
            EntryView { name: "."@, metadata: directory() },
            EntryView { name: ".."@, metadata: directory() },
        ] + entries
    } else {
        entries.filter(|e: EntryView| !hidden(e.name))
    }
}

/// Keys that order entries by their names.
pub open spec fn keyed_by_name(keys: Seq<SortKey>, entries: Seq<EntryView>) -> bool {
    &&& keys.len() == entries.len()
    &&& forall|i: int|
        0 <= i < keys.len() ==> (#[trigger] keys[i]).number == 0 && keys[i].text@
            == entries[i].name
}

/// Whether `result` holds the entries in the order of their names; entries of one name keep
/// their places.
pub open spec fn sorted_by_name(entries: Seq<EntryView>, result: Seq<EntryView>) -> bool {
    exists|keys: Seq<SortKey>, p: Seq<int>|
        {
            &&& keyed_by_name(keys, entries)
            &&& #[trigger] sorting::orders(keys, p)
            &&& result == Seq::new(p.len(), |i: int| entries[p[i]])
        }
}

fn copy_entry(entry: &DirEntry) -> (r: DirEntry)
    ensures
        r@ == entry@,
{
    DirEntry { name: entry.name.clone(), metadata: entry.metadata }
}

/// Sorts entries by their names.
pub fn sort_entries(entries: &Vec<DirEntry>) -> (r: Vec<DirEntry>)
    ensures
        sorted_by_name(vfs::entries_view(entries@), vfs::entries_view(r@)),
{
    let ghost all = vfs::entries_view(entries@);
    let mut keys: Vec<SortKey> = Vec::new();
    let mut i: usize = 0;
    while i < entries.len()
        invariant
            i <= entries@.len(),
            all == vfs::entries_view(entries@),
            keys@.len() == i,
            forall|k: int|
                0 <= k < i ==> (#[trigger] keys@[k]).number == 0 && keys@[k].text@ == all[k].name,
        decreases entries@.len() - i,
    {
        proof {
            assert(all[i as int] == entries@[i as int]@);
        }
        keys.push(SortKey { number: 0, text: entries[i].name.clone() });
        i = i + 1;
    }
    let order = sorting::sort_order(&keys);
    let ghost p = sorting::indices(order@);
    let ghost sorted = Seq::new(p.len(), |i: int| all[p[i]]);
    let mut out: Vec<DirEntry> = Vec::new();
    let mut i: usize = 0;
    proof {
        assert(vfs::entries_view(out@) =~= sorted.take(0));
    }
    while i < order.len()
        invariant
            i <= order@.len(),
            order@.len() == entries@.len(),
            all == vfs::entries_view(entries@),
            p == sorting::indices(order@),
            sorted == Seq::new(p.len(), |i: int| all[p[i]]),
            forall|k: int| 0 <= k < order@.len() ==> #[trigger] order@[k] < entries@.len(),
            vfs::entries_view(out@) == sorted.take(i as int),
        decreases order@.len() - i,
    {
        let k: usize = order[i];
        let ghost before = out@;
        let entry = copy_entry(&entries[k]);
        out.push(entry);
        proof {
            assert(p[i as int] == k);
            assert(all[k as int] == entries@[k as int]@);
            assert(vfs::entries_view(out@) =~= vfs::entries_view(before).push(entry@));
            assert(sorted.take(i + 1) =~= sorted.take(i as int).push(sorted[i as int]));
        }
        i = i + 1;
    }
    proof {
        assert(sorted.take(i as int) =~= sorted);
        assert(keyed_by_name(keys@, all));
    }
    out
}

fn directory_entry(name: &str) -> (r: DirEntry)
    ensures
        r@ == (EntryView { name: name@, metadata: directory() }),
{
    DirEntry {
        name: text::copy(name),
        metadata: Metadata { file_type: FileType::Directory, len: 0 },
    }
}

/// The entries of a directory as `ls` lists them.
pub fn list_entries(entries: &Vec<DirEntry>, all: bool) -> (r: Vec<DirEntry>)
    ensures
        sorted_by_name(listed(vfs::entries_view(entries@), all), vfs::entries_view(r@)),
{
    let ghost given = vfs::entries_view(entries@);
    let ghost shown = |e: EntryView| !hidden(e.name);
    let mut kept: Vec<DirEntry> = Vec::new();
    let ghost mut head: Seq<EntryView> = seq![];
    if all {
        let here = directory_entry(".");
        kept.push(here);
        let up = directory_entry("..");
        kept.push(up);
        proof {
            head = seq![
                EntryView { name: "."@, metadata: directory() },
                EntryView { name: ".."@, metadata: directory() },
            ];
            assert(vfs::entries_view(kept@) =~= head);
        }
    }
    let mut i: usize = 0;
    proof {
        assert(vfs::entries_view(kept@) =~= head);
        assert(given.take(0) =~= Seq::<EntryView>::empty());
        reveal(Seq::filter);
        assert(given.take(0).filter(shown) =~= Seq::<EntryView>::empty());
        assert(head + given.take(0) =~= head);
    }
    while i < entries.len()
        invariant
            i <= entries@.len(),
            given == vfs::entries_view(entries@),
            shown == (|e: EntryView| !hidden(e.name)),
            !all ==> head == Seq::<EntryView>::empty(),
            vfs::entries_view(kept@) == head + if all {
                given.take(i as int)
            } else {
                given.take(i as int).filter(shown)
            },
        decreases entries@.len() - i,
    {
        let ghost before = kept@;
        proof {
            assert(given[i as int] == entries@[i as int]@);
            assert(given.take(i + 1) =~= given.take(i as int).push(given[i as int]));
            assert(given.take(i + 1).drop_last() =~= given.take(i as int));
            reveal(Seq::filter);
        }
        if all || !starts_with_dot(entries[i].name.as_str()) {
            let entry = copy_entry(&entries[i]);
            kept.push(entry);
            proof {
                assert(vfs::entries_view(kept@) =~= vfs::entries_view(before).push(entry@));
                if all {
                    assert(vfs::entries_view(kept@) =~= head + given.take(i + 1));
                } else {
                    assert(vfs::entries_view(kept@) =~= head + given.take(i + 1).filter(shown));
                }
            }
        }
        i = i + 1;
    }
    proof {
        assert(given.take(i as int) =~= given);
        assert(vfs::entries_view(kept@) =~= listed(given, all));
    }
    sort_entries(&kept)
}

fn starts_with_dot(name: &str) -> (r: bool)
    ensures
        r == hidden(name@),
{
    let chars = text::to_chars(name);
    chars.len() > 0 && chars[0] == '.'
}

/// The first `n` entries as `ls` prints them.
pub open spec fn entries_text(entries: Seq<EntryView>, n: int, long: bool) -> Seq<char>
    decreases n,
{
    if n <= 0 {
        seq![]
    } else {
        entries_text(entries, n - 1, long) + ls_entry_text(
            entries[n - 1].name,
            entries[n - 1].metadata,
            long,
        )
    }
}

/// Prints entries.
pub fn format_entries(entries: &Vec<DirEntry>, long: bool) -> (r: String)
    ensures
        r@ == entries_text(vfs::entries_view(entries@), entries@.len() as int, long),
{
    let ghost all = vfs::entries_view(entries@);
    let mut out = String::new();
    let mut i: usize = 0;
    proof {
        assert(out@ =~= seq![]);
    }
    while i < entries.len()
        invariant
            i <= entries@.len(),
            all == vfs::entries_view(entries@),
            out@ == entries_text(all, i as int, long),
        decreases entries@.len() - i,
    {
        proof {
            assert(all[i as int] == entries@[i as int]@);
        }
        let line = format_ls_entry(entries[i].name.as_str(), entries[i].metadata, long);
        out.append(line.as_str());
        i = i + 1;
    }
    out
}

/// What `ls` does with an operand.
#[derive(Debug, PartialEq, Eq)]
pub enum LsOperand {
    /// Prints the heading, and then the entries of the directory.
    Directory(String),
    /// Prints the line of the file.
    File(String),
    /// Says that it is not there; the status is this one unless a later operand fails.
    Missing(String, i32),
}

/// Decides what `ls` does with an operand, from what it is. Directories have headings where there
/// are several operands.
pub fn ls_operand(plan: &LsPlan, index: usize, found: Result<Metadata, VfsError>) -> (r: LsOperand)
    requires
        index < plan.paths@.len(),
    ensures
        ({
            let shown = plan.paths@[index as int]@;
            match found {
                Err(err) => r matches LsOperand::Missing(message, status) && message@
                    == builtins::vfs_error_text("ls"@, shown, err.errno) && status == 2,
                Ok(metadata) => if metadata.file_type == FileType::Directory {
                    r matches LsOperand::Directory(heading) && heading@ == (if plan.paths@.len()
                        > 1 {
                        heading_text(shown, index as nat)
                    } else {
                        ""@
                    })
                } else {
                    r matches LsOperand::File(line) && line@ == ls_entry_text(
                        path::base_name(shown),
                        metadata,
                        plan.long,
                    )
                },
            }
        }),
{
    let shown = plan.paths[index].as_str();
    match found {
        Err(err) => LsOperand::Missing(builtins::vfs_error_message("ls", shown, err), 2),
        Ok(metadata) => match metadata.file_type {
            FileType::Directory => {
                if plan.paths.len() > 1 {
                    LsOperand::Directory(format_heading(shown, index))
                } else {
                    LsOperand::Directory(text::copy(""))
                }
            },
            FileType::File => {
                let name = path::basename(shown);
                LsOperand::File(format_ls_entry(name.as_str(), metadata, plan.long))
            },
        },
    }
}

/// What `ls` prints for the entries of a directory, or what it says where it cannot list them,
/// with its status unless a later operand fails.
pub fn ls_listing(plan: &LsPlan, shown: &str, found: Result<Vec<DirEntry>, VfsError>) -> (r: Result<
    String,
    (String, i32),
>)
    ensures
        match found {
            Err(err) => r matches Err((message, status)) && message@ == builtins::vfs_error_text(
                "ls"@,
                shown@,
                err.errno,
            ) && status == 1,
            Ok(entries) => r matches Ok(printed) && exists|sorted: Seq<EntryView>|
                {
                    &&& #[trigger] sorted_by_name(
                        listed(vfs::entries_view(entries@), plan.all),
                        sorted,
                    )
                    &&& printed@ == entries_text(sorted, sorted.len() as int, plan.long)
                },
        },
{
    match found {
        Err(err) => Err((builtins::vfs_error_message("ls", shown, err), 1)),
        Ok(entries) => {
            let sorted = list_entries(&entries, plan.all);
            let printed = format_entries(&sorted, plan.long);
            proof {
                let view = vfs::entries_view(sorted@);
                assert(sorted_by_name(listed(vfs::entries_view(entries@), plan.all), view));
                assert(view.len() == sorted@.len());
            }
            Ok(printed)
        },
    }
}

// ---- mkdir ----

/// What `mkdir` is asked to do.
pub struct MkdirPlan {
    pub parents: bool,
    pub paths: Vec<String>,
}

/// The arguments as far as they have been read: whether parents are made, and the paths; or the
/// first option that is not known.
pub open spec fn mkdir_scan(args: Seq<Seq<char>>, n: int) -> Result<
    (bool, Seq<Seq<char>>),
    Seq<char>,
>
    decreases n,
{
    if n <= 0 {
        Ok((false, seq![]))
    } else {
        match mkdir_scan(args, n - 1) {
            Err(flag) => Err(flag),
            Ok((parents, paths)) => {
                let arg = args[n - 1];
                if arg == "-p"@ {
                    Ok((true, paths))
                } else if builtins::is_option(arg) {
                    Err(arg)
                } else {
                    Ok((parents, paths.push(arg)))
                }
            },
        }
    }
}

proof fn lemma_mkdir_error(args: Seq<Seq<char>>, n: int, m: int)
    requires
        0 <= n <= m,
        mkdir_scan(args, n) is Err,
    ensures
        mkdir_scan(args, m) == mkdir_scan(args, n),
    decreases m - n,
{
    if n < m {
        lemma_mkdir_error(args, n, m - 1);
    }
}

/// Reads the arguments of `mkdir`.
pub fn parse_mkdir_args(args: &Vec<String>) -> (r: Result<MkdirPlan, Failure>)
    ensures
        match mkdir_scan(text::texts(args@), args@.len() as int) {
            Err(flag) => r matches Err(failure) && failure@ == (FailureView {
                message: builtins::unsupported_text("mkdir"@, flag),
                code: 1,
            }),
            Ok((parents, paths)) => if paths.len() == 0 {
                r matches Err(failure) && failure@ == (FailureView {
                    message: "mkdir: missing operand\n"@,
                    code: 1,
                })
            } else {
                r matches Ok(plan) && plan.parents == parents && text::texts(plan.paths@) == paths
            },
        },
{
    let ghost all = text::texts(args@);
    let mut parents = false;
    let mut paths: Vec<String> = Vec::new();
    let mut i: usize = 0;
    proof {
        assert(text::texts(paths@) =~= seq![]);
    }
    while i < args.len()
        invariant
            i <= args@.len(),
            all == text::texts(args@),
            mkdir_scan(all, i as int) == Ok::<(bool, Seq<Seq<char>>), Seq<char>>(
                (parents, text::texts(paths@)),
            ),
        decreases args@.len() - i,
    {
        let arg = &args[i];
        proof {
            assert(all[i as int] == arg@);
        }
        if text::str_eq(arg.as_str(), "-p") {
            parents = true;
        } else if builtins::is_option_arg(arg.as_str()) {
            proof {
                assert(mkdir_scan(all, i + 1) == Err::<(bool, Seq<Seq<char>>), Seq<char>>(arg@));
                lemma_mkdir_error(all, i + 1, args@.len() as int);
            }
            return Err(builtins::unsupported("mkdir", arg.as_str(), 1));
        } else {
            let ghost before = paths@;
            paths.push(arg.clone());
            proof {
                assert(text::texts(paths@) =~= text::texts(before).push(arg@));
            }
        }
        i = i + 1;
    }
    proof {
        assert(paths@.len() == text::texts(paths@).len());
    }
    if paths.len() == 0 {
        return Err(builtins::failure("mkdir: missing operand\n", 1));
    }
    Ok(MkdirPlan { parents, paths })
}

/// The directories to make, one after another, for the first `n` components of a path: each
/// ends with one more component, and all of them start at the root.
pub open spec fn mkdir_prefixes(components: Seq<Seq<char>>, n: int) -> Seq<Seq<char>>
    decreases n,
{
    if n <= 0 {
        seq![]
    } else {
        let before = mkdir_prefixes(components, n - 1);
        let part = components[n - 1];
        if part.len() == 0 {
            before
        } else if before.len() == 0 {
            before.push(seq!['/'] + part)
        } else {
            before.push(before.last() + seq!['/'] + part)
        }
    }
}

/// The directories that `mkdir -p` makes, from the outermost on. A relative path is taken from the
/// current directory.
pub fn mkdir_steps(cwd: &str, target: &str) -> (r: Vec<String>)
    ensures
        ({
            let components = path::split(path::resolved(cwd@, target@), '/');
            text::texts(r@) == mkdir_prefixes(components, components.len() as int)
        }),
{
    let resolved = path::resolve(cwd, target);
    let components = path::split_char(resolved.as_str(), '/');
    let ghost all = path::split(path::resolved(cwd@, target@), '/');
    let mut steps: Vec<String> = Vec::new();
    let mut current = String::new();
    let mut i: usize = 0;
    proof {
        assert(text::texts(steps@) =~= seq![]);
        assert(current@ =~= seq![]);
    }
    while i < components.len()
        invariant
            i <= components@.len(),
            all == text::texts(components@),
            text::texts(steps@) == mkdir_prefixes(all, i as int),
            steps@.len() == 0 ==> current@ == Seq::<char>::empty(),
            steps@.len() > 0 ==> current@ == text::texts(steps@).last(),
        decreases components@.len() - i,
    {
        let part = &components[i];
        proof {
            assert(all[i as int] == part@);
            assert(text::texts(steps@).len() == steps@.len());
        }
        if !part.as_str().is_empty() {
            let ghost was = current@;
            current.push('/');
            current.append(part.as_str());
            proof {
                if steps@.len() == 0 {
                    assert(current@ =~= seq!['/'] + part@);
                } else {
                    assert(current@ =~= was + seq!['/'] + part@);
                }
            }
            let ghost before = steps@;
            steps.push(current.clone());
            proof {
                assert(text::texts(steps@) =~= text::texts(before).push(current@));
            }
        }
        i = i + 1;
    }
    steps
}

/// What is done after a directory of a path was made, or could not be.
pub fn mkdir_all_step(made: Result<(), VfsError>, found: Option<Result<Metadata, VfsError>>) -> (r:
    Result<bool, VfsError>)
    ensures
        match made {
            Ok(()) => r == Ok::<bool, VfsError>(true),
            Err(err) => if err.errno != Errno::EEXIST {
                r == Err::<bool, VfsError>(err)
            } else {
                match found {
                    None => r == Ok::<bool, VfsError>(false),
                    Some(Ok(metadata)) => r == (if metadata.file_type == FileType::Directory {
                        Ok::<bool, VfsError>(true)
                    } else {
                        Err(err)
                    }),
                    Some(Err(other)) => r == Err::<bool, VfsError>(other),
                }
            },
        },
{
    match made {
        Ok(()) => Ok(true),
        Err(err) => {
            let exists = match err.errno() {
                Errno::EEXIST => true,
                _ => false,
            };
            if !exists {
                return Err(err);
            }
            match found {
                None => Ok(false),
                Some(Ok(metadata)) => match metadata.file_type {
                    FileType::Directory => Ok(true),
                    FileType::File => Err(err),
                },
                Some(Err(other)) => Err(other),
            }
        },
    }
}

// ---- cp and mv ----

/// What `cp` or `mv` is asked to do.
pub struct TransferPlan {
    pub recursive: bool,
    pub sources: Vec<String>,
    pub dest: String,
}

fn split_dest(cmd: &str, recursive: bool, operands: Vec<String>) -> (r: Result<
    TransferPlan,
    Failure,
>)
    ensures
        if operands@.len() < 2 {
            r matches Err(failure) && failure@ == (FailureView {
                message: cmd@ + ": missing file operand\n"@,
                code: 1,
            })
        } else {
            r matches Ok(plan) && plan.recursive == recursive && plan.dest@ == text::texts(
                operands@,
            ).last() && text::texts(plan.sources@) == text::texts(operands@).drop_last()
        },
{
    if operands.len() < 2 {
        return Err(Failure::new(text::concat2(cmd, ": missing file operand\n"), 1));
    }
    let ghost all = operands@;
    let mut sources = operands;
    let dest = match sources.pop() {
        Some(dest) => dest,
        None => String::new(),
    };
    proof {
        assert(text::texts(all).last() == all.last()@);
        assert(text::texts(sources@) =~= text::texts(all).drop_last());
    }
    Ok(TransferPlan { recursive, sources, dest })
}

/// Reads the arguments of `cp`.
pub fn parse_cp_args(args: &Vec<String>) -> (r: Result<TransferPlan, Failure>)
    ensures
        match flags::scanned(text::texts(args@), "rR"@) {
            Err(letter) => r matches Err(failure) && failure@ == (FailureView {
                message: builtins::unsupported_text("cp"@, builtins::letter_option(letter)),
                code: 1,
            }),
            Ok(read) => if read.operands.len() < 2 {
                r matches Err(failure) && failure@ == (FailureView {
                    message: "cp"@ + ": missing file operand\n"@,
                    code: 1,
                })
            } else {
                r matches Ok(plan) && plan.recursive == (read.letters.contains('r')
                    || read.letters.contains('R')) && plan.dest@ == read.operands.last()
                    && text::texts(plan.sources@) == read.operands.drop_last()
            },
        },
{
    match flags::split_letters(args, "rR") {
        Err(letter) => Err(builtins::unsupported_letter("cp", letter, 1)),
        Ok(read) => {
            let recursive = flags::holds(&read.letters, 'r') || flags::holds(&read.letters, 'R');
            proof {
                assert(text::texts(read.operands@).len() == read.operands@.len());
            }
            split_dest("cp", recursive, read.operands)
        },
    }
}

fn copy_strings(v: &Vec<String>) -> (r: Vec<String>)
    ensures
        text::texts(r@) == text::texts(v@),
{
    let mut r: Vec<String> = Vec::new();
    let mut i: usize = 0;
    proof {
        assert(text::texts(r@) =~= text::texts(v@).take(0));
    }
    while i < v.len()
        invariant
            i <= v@.len(),
            text::texts(r@) == text::texts(v@).take(i as int),
        decreases v@.len() - i,
    {
        let ghost before = r@;
        r.push(v[i].clone());
        proof {
            assert(text::texts(r@) =~= text::texts(before).push(v@[i as int]@));
            assert(text::texts(v@).take(i + 1) =~= text::texts(v@).take(i as int).push(
                text::texts(v@)[i as int],
            ));
        }
        i = i + 1;
    }
    proof {
        assert(text::texts(v@).take(i as int) =~= text::texts(v@));
    }
    r
}

/// Reads the arguments of `mv`.
pub fn parse_mv_args(args: &Vec<String>) -> (r: Result<TransferPlan, Failure>)
    ensures
        ({
            let all = text::texts(args@);
            let i = builtins::first_option(all, 0);
            if i < all.len() {
                r matches Err(failure) && failure@ == (FailureView {
                    message: builtins::unsupported_text("mv"@, all[i]),
                    code: 1,
                })
            } else if all.len() < 2 {
                r matches Err(failure) && failure@ == (FailureView {
                    message: "mv"@ + ": missing file operand\n"@,
                    code: 1,
                })
            } else {
                r matches Ok(plan) && !plan.recursive && plan.dest@ == all.last() && text::texts(
                    plan.sources@,
                ) == all.drop_last()
            }
        }),
{
    match builtins::unsupported_flag(args) {
        Some(flag) => Err(builtins::unsupported("mv", flag.as_str(), 1)),
        None => {
            let operands = copy_strings(args);
            proof {
                assert(text::texts(operands@).len() == operands@.len());
                assert(text::texts(args@).len() == args@.len());
            }
            split_dest("mv", false, operands)
        },
    }
}

/// Several sources need a directory to go to.
pub fn check_target(cmd: &str, plan: &TransferPlan, dest_is_directory: bool) -> (r: Result<
    (),
    Failure,
>)
    ensures
        r is Err <==> plan.sources@.len() > 1 && !dest_is_directory,
        r matches Err(failure) ==> failure@ == (FailureView {
            message: cmd@ + ": target '"@ + plan.dest@ + "': Not a directory\n"@,
            code: 1,
        }),
{
    if plan.sources.len() > 1 && !dest_is_directory {
        Err(
            Failure::new(
                text::concat4(cmd, ": target '", plan.dest.as_str(), "': Not a directory\n"),
                1,
            ),
        )
    } else {
        Ok(())
    }
}

/// Where a source goes: into the destination where that is a directory, else in its place.
pub open spec fn destination(source: Seq<char>, dest: Seq<char>, dest_is_directory: bool) -> Seq<
    char,
> {
    if dest_is_directory {
        path::joined_path(dest, path::base_name(source))
    } else {
        dest
    }
}

pub fn destination_for(source: &str, dest: &str, dest_is_directory: bool) -> (r: String)
    ensures
        r@ == destination(source@, dest@, dest_is_directory),
{
    if dest_is_directory {
        let name = path::basename(source);
        path::join_path(dest, name.as_str())
    } else {
        text::copy(dest)
    }
}

// ---- rm ----

/// What `rm` is asked to do.
pub struct RmPlan {
    pub recursive: bool,
    pub force: bool,
    pub paths: Vec<String>,
}

/// Reads the arguments of `rm`. Without paths there is nothing to do where it is forced.
pub fn parse_rm_args(args: &Vec<String>) -> (r: Result<RmPlan, Failure>)
    ensures
        match flags::scanned(text::texts(args@), "rRf"@) {
            Err(letter) => r matches Err(failure) && failure@ == (FailureView {
                message: builtins::unsupported_text("rm"@, builtins::letter_option(letter)),
                code: 1,
            }),
            Ok(read) => if read.operands.len() == 0 && !read.letters.contains('f') {
                r matches Err(failure) && failure@ == (FailureView {
                    message: "rm: missing operand\n"@,
                    code: 1,
                })
            } else {
                r matches Ok(plan) && plan.recursive == (read.letters.contains('r')
                    || read.letters.contains('R')) && plan.force == read.letters.contains('f')
                    && text::texts(plan.paths@) == read.operands
            },
        },
{
    match flags::split_letters(args, "rRf") {
        Err(letter) => Err(builtins::unsupported_letter("rm", letter, 1)),
        Ok(read) => {
            let recursive = flags::holds(&read.letters, 'r') || flags::holds(&read.letters, 'R');
            let force = flags::holds(&read.letters, 'f');
            proof {
                assert(text::texts(read.operands@).len() == read.operands@.len());
            }
            if read.operands.len() == 0 && !force {
                return Err(builtins::failure("rm: missing operand\n", 1));
            }
            Ok(RmPlan { recursive, force, paths: read.operands })
        },
    }
}

/// What `rm` reports of a path: nothing where it was removed, or where it was not there and the
/// removal is forced.
pub fn rm_report(removed: Result<(), VfsError>, removed_path: &str, force: bool) -> (r: Option<
    String,
>)
    ensures
        match removed {
            Err(err) if !(force && err.errno == Errno::ENOENT) => r matches Some(message)
                && message@ == builtins::vfs_error_text("rm"@, removed_path@, err.errno),
            _ => r is None,
        },
{
    match removed {
        Ok(()) => None,
        Err(err) => if force && err.errno == Errno::ENOENT {
            None
        } else {
            Some(builtins::vfs_error_message("rm", removed_path, err))
        },
    }
}

// ---- stat, touch, which and pwd ----

pub open spec fn kind_text(file_type: FileType) -> Seq<char> {
    match file_type {
        FileType::Directory => "directory"@,
        FileType::File => "regular file"@,
    }
}

/// A file as `stat` prints it.
pub open spec fn stat_text(shown: Seq<char>, metadata: Metadata) -> Seq<char> {
    "  File: "@ + shown + "\n  Size: "@ + text::decimal_text(metadata.len as nat) + "\n  Type: "@
        + kind_text(metadata.file_type) + "\n"@
}

pub fn format_stat(shown: &str, metadata: Metadata) -> (r: String)
    ensures
        r@ == stat_text(shown@, metadata),
{
    let kind = match metadata.file_type {
        FileType::Directory => "directory",
        FileType::File => "regular file",
    };
    let size = text::decimal(metadata.len);
    let mut out = text::concat5("  File: ", shown, "\n  Size: ", size.as_str(), "\n  Type: ");
    out.append(kind);
    out.append("\n");
    out
}

/// Checks that a command without options has operands.
pub fn require_operands(args: &Vec<String>, missing: &str) -> (r: Result<(), Failure>)
    ensures
        r is Ok <==> args@.len() > 0,
        r matches Err(failure) ==> failure@ == (FailureView { message: missing@, code: 1 }),
{
    if args.len() == 0 {
        Err(builtins::failure(missing, 1))
    } else {
        Ok(())
    }
}

/// Checks the arguments of a command that has no options.
pub fn refuse_options(cmd: &str, args: &Vec<String>) -> (r: Result<(), Failure>)
    ensures
        ({
            let all = text::texts(args@);
            let i = builtins::first_option(all, 0);
            if i < all.len() {
                r matches Err(failure) && failure@ == (FailureView {
                    message: builtins::unsupported_text(cmd@, all[i]),
                    code: 1,
                })
            } else {
                r is Ok
            }
        }),
{
    match builtins::unsupported_flag(args) {
        Some(flag) => Err(builtins::unsupported(cmd, flag.as_str(), 1)),
        None => Ok(()),
    }
}

/// The paths of the first `n` names that are commands.
pub open spec fn which_text(names: Seq<Seq<char>>, n: int, commands: Set<Seq<char>>) -> Seq<char>
    decreases n,
{
    if n <= 0 {
        ""@
    } else if commands.contains(names[n - 1]) {
        which_text(names, n - 1, commands) + "/bin/"@ + names[n - 1] + "\n"@
    } else {
        which_text(names, n - 1, commands)
    }
}

/// Whether all the first `n` names are commands.
pub open spec fn all_known(names: Seq<Seq<char>>, n: int, commands: Set<Seq<char>>) -> bool {
    forall|i: int| 0 <= i < n ==> commands.contains(#[trigger] names[i])
}

/// What `which` prints, and its exit code.
pub fn which_output(names: &Vec<String>, commands: &TextMap<()>) -> (r: (String, i32))
    ensures
        r.0@ == which_text(text::texts(names@), names@.len() as int, commands@.dom()),
        r.1 == if all_known(text::texts(names@), names@.len() as int, commands@.dom()) {
            0i32
        } else {
            1i32
        },
{
    let ghost all = text::texts(names@);
    let mut out = text::copy("");
    let mut exit: i32 = 0;
    let mut i: usize = 0;
    while i < names.len()
        invariant
            i <= names@.len(),
            all == text::texts(names@),
            out@ == which_text(all, i as int, commands@.dom()),
            exit == if all_known(all, i as int, commands@.dom()) {
                0i32
            } else {
                1i32
            },
        decreases names@.len() - i,
    {
        proof {
            assert(all[i as int] == names@[i as int]@);
        }
        match commands.get(names[i].as_str()) {
            Some(_) => {
                out.append("/bin/");
                out.append(names[i].as_str());
                out.append("\n");
                proof {
                    if all_known(all, i as int, commands@.dom()) {
                        assert forall|k: int| 0 <= k < i + 1 implies commands@.dom().contains(
                            #[trigger] all[k],
                        ) by {}
                    } else if all_known(all, i + 1, commands@.dom()) {
                        assert(all_known(all, i as int, commands@.dom()));
                    }
                }
            },
            None => {
                exit = 1;
                proof {
                    assert(!commands@.dom().contains(all[i as int]));
                }
            },
        }
        i = i + 1;
    }
    (out, exit)
}

/// What `pwd` prints.
pub fn pwd_output(args: &Vec<String>, cwd: &str) -> (r: Result<String, Failure>)
    ensures
        ({
            let all = text::texts(args@);
            let at = builtins::first_option(all, 0);
            if at < all.len() {
                r matches Err(f) && f@ == (builtins::FailureView {
                    message: builtins::unsupported_text("pwd"@, all[at]),
                    code: 1,
                })
            } else {
                r matches Ok(line) && line@ == cwd@ + "\n"@
            }
        }),
{
    match builtins::unsupported_flag(args) {
        Some(flag) => Err(builtins::unsupported("pwd", flag.as_str(), 1)),
        None => Ok(text::concat2(cwd, "\n")),
    }
}

/// Each file goes on a line of its own, in the order of the entries, and each entry is printed for
/// itself.
pub proof fn law_entries_are_printed_in_turn(a: Seq<EntryView>, b: Seq<EntryView>, long: bool)
    ensures
        entries_text(a + b, (a + b).len() as int, long) == entries_text(a, a.len() as int, long)
            + entries_text(b, b.len() as int, long),
        a.len() == 1 && !long ==> entries_text(a, 1, long) == a[0].name.push('\n'),
        a.len() == 0 ==> entries_text(a, 0, long).len() == 0,
{
    lemma_entries_text(a, b, b.len() as int, long);
    if a.len() == 1 {
        reveal_with_fuel(entries_text, 2);
        reveal_strlit("\n");
        assert(!long ==> entries_text(a, 1, long) =~= a[0].name.push('\n'));
    }
}

proof fn lemma_entries_front(a: Seq<EntryView>, b: Seq<EntryView>, n: int, long: bool)
    requires
        0 <= n <= a.len(),
    ensures
        entries_text(a + b, n, long) == entries_text(a, n, long),
    decreases n,
{
    if n > 0 {
        lemma_entries_front(a, b, n - 1, long);
        assert((a + b)[n - 1] == a[n - 1]);
    }
}

proof fn lemma_entries_text(a: Seq<EntryView>, b: Seq<EntryView>, n: int, long: bool)
    requires
        0 <= n <= b.len(),
    ensures
        entries_text(a + b, a.len() + n, long) == entries_text(a, a.len() as int, long)
            + entries_text(b, n, long),
    decreases n,
{
    let front = entries_text(a, a.len() as int, long);
    if n == 0 {
        lemma_entries_front(a, b, a.len() as int, long);
        assert(front + entries_text(b, 0, long) =~= front);
    } else {
        lemma_entries_text(a, b, n - 1, long);
        assert((a + b)[a.len() + n - 1] == b[n - 1]);
        let own = ls_entry_text(b[n - 1].name, b[n - 1].metadata, long);
        assert((front + entries_text(b, n - 1, long)) + own =~= front + (entries_text(
            b,
            n - 1,
            long,
        ) + own));
    }
}

/// A long entry ends as the short one does, with the name and a newline, and starts with the kind
/// of the file.
pub proof fn law_long_entries_end_with_the_name(name: Seq<char>, metadata: Metadata)
    ensures
        ({
            let short = ls_entry_text(name, metadata, false);
            let long = ls_entry_text(name, metadata, true);
            &&& short == name.push('\n')
            &&& short.is_suffix_of(long)
            &&& long[0] == (if metadata.file_type == FileType::Directory {
                'd'
            } else {
                '-'
            })
        }),
{
    reveal_strlit("\n");
    reveal_strlit("drwxr-xr-x");
    reveal_strlit("-rw-r--r--");
    let short = ls_entry_text(name, metadata, false);
    let long = ls_entry_text(name, metadata, true);
    assert(short =~= name.push('\n'));
    assert(long.subrange(long.len() - short.len(), long.len() as int) =~= short);
}

/// Without `-a` the entries are listed but for those whose name starts with a dot; with `-a` all of
/// them are, and `.` and `..` besides.
pub proof fn law_hidden_entries_are_left_out(entries: Seq<EntryView>, e: EntryView)
    ensures
        listed(entries, false).contains(e) <==> entries.contains(e) && (e.name.len() == 0
            || e.name[0] != '.'),
        listed(entries, true).contains(e) <==> entries.contains(e) || (e.metadata == (Metadata {
            file_type: FileType::Directory,
            len: 0,
        }) && (e.name == "."@ || e.name == ".."@)),
        listed(entries, true).len() == entries.len() + 2,
{
    let shown = |e: EntryView| !hidden(e.name);
    let kept = listed(entries, false);
    assert(kept == entries.filter(shown));
    if entries.contains(e) && shown(e) {
        let i = entries.index_of(e);
        entries.lemma_filter_contains(shown, i);
    }
    if kept.contains(e) {
        let i = kept.index_of(e);
        entries.lemma_filter_pred(shown, i);
        entries.lemma_filter_contains_rev(shown, e);
    }
    let here = EntryView { name: "."@, metadata: directory() };
    let up = EntryView { name: ".."@, metadata: directory() };
    let all = listed(entries, true);
    assert(all[0] == here && all[1] == up);
    if entries.contains(e) {
        let i = entries.index_of(e);
        assert(all[i + 2] == e);
    }
    if all.contains(e) {
        let i = all.index_of(e);
        if i >= 2 {
            assert(entries[i - 2] == e);
        }
    }
}

/// The listing that is printed holds the entries that are listed, all of them, and by their names.
pub proof fn law_listings_go_by_name(entries: Seq<EntryView>, result: Seq<EntryView>)
    requires
        sorted_by_name(entries, result),
    ensures
        result.len() == entries.len(),
        forall|e: EntryView| #[trigger] result.contains(e) <==> entries.contains(e),
        forall|i: int, j: int|
            0 <= i < j < result.len() ==> !crate::order::text_lt(
                (#[trigger] result[j]).name,
                (#[trigger] result[i]).name,
            ),
{
    let (keys, p) = choose|keys: Seq<SortKey>, p: Seq<int>|
        {
            &&& keyed_by_name(keys, entries)
            &&& #[trigger] sorting::orders(keys, p)
            &&& result == Seq::new(p.len(), |i: int| entries[p[i]])
        };
    sorting::law_order_covers_every_item(keys, p);
    assert forall|e: EntryView| #[trigger] result.contains(e) <==> entries.contains(e) by {
        if result.contains(e) {
            let i = result.index_of(e);
            assert(entries[p[i]] == e);
        }
        if entries.contains(e) {
            let k = entries.index_of(e);
            assert(p.contains(k));
            let i = p.index_of(k);
            assert(result[i] == e);
        }
    }
    assert forall|i: int, j: int| 0 <= i < j < result.len() implies !crate::order::text_lt(
        (#[trigger] result[j]).name,
        (#[trigger] result[i]).name,
    ) by {
        assert(sorting::before(keys, p[i], p[j]));
        assert(keys[p[i]].text@ == result[i].name);
        assert(keys[p[j]].text@ == result[j].name);
        crate::order::law_text_order_is_irreflexive(result[i].name);
        if crate::order::text_lt(result[j].name, result[i].name) && crate::order::text_lt(
            result[i].name,
            result[j].name,
        ) {
            crate::order::law_text_order_is_transitive(
                result[i].name,
                result[j].name,
                result[i].name,
            );
        }
    }
}

/// The directories that `mkdir -p` makes for a path: each is an entry of the one before it, the
/// first is one of the root, the last is the path, and there is one for each component.
pub proof fn law_parents_are_made_first(parts: Seq<Seq<char>>)
    requires
        forall|i: int| 0 <= i < parts.len() ==> (#[trigger] parts[i]).len() > 0,
    ensures
        ({
            let components = seq![Seq::<char>::empty()] + parts;
            let made = mkdir_prefixes(components, components.len() as int);
            &&& made.len() == parts.len()
            &&& parts.len() > 0 ==> made[0] == seq!['/'] + parts[0]
            &&& forall|i: int|
                0 < i < made.len() ==> #[trigger] made[i] == made[i - 1] + seq!['/'] + parts[i]
            &&& parts.len() > 0 ==> made.last() == path::render(parts)
        }),
{
    let components = seq![Seq::<char>::empty()] + parts;
    lemma_prefixes(parts, parts.len() as int);
    if parts.len() > 0 {
        assert(parts.take(parts.len() as int) =~= parts);
    }
}

proof fn lemma_prefixes(parts: Seq<Seq<char>>, n: int)
    requires
        forall|i: int| 0 <= i < parts.len() ==> (#[trigger] parts[i]).len() > 0,
        0 <= n <= parts.len(),
    ensures
        ({
            let components = seq![Seq::<char>::empty()] + parts;
            let made = mkdir_prefixes(components, n + 1);
            &&& made.len() == n
            &&& n > 0 ==> made[0] == seq!['/'] + parts[0]
            &&& forall|i: int|
                0 < i < made.len() ==> #[trigger] made[i] == made[i - 1] + seq!['/'] + parts[i]
            &&& n > 0 ==> made.last() == path::slashed(parts, n)
        }),
    decreases n,
{
    let components = seq![Seq::<char>::empty()] + parts;
    if n == 0 {
        reveal_with_fuel(mkdir_prefixes, 2);
        assert(components[0].len() == 0);
    } else {
        lemma_prefixes(parts, n - 1);
        assert(components[n] == parts[n - 1]);
        assert(parts[n - 1].len() > 0);
        let before = mkdir_prefixes(components, n);
        let made = mkdir_prefixes(components, n + 1);
        if n == 1 {
            reveal_with_fuel(path::slashed, 2);
            assert(path::slashed(parts, 1) =~= seq!['/'] + parts[0]);
        }
        assert forall|i: int| 0 < i < made.len() implies #[trigger] made[i] == made[i - 1] + seq!['/']
            + parts[i] by {
            if i < n - 1 {
                assert(before[i] == before[i - 1] + seq!['/'] + parts[i]);
            }
        }
    }
}

/// `-p` may stand anywhere, and the paths keep their order; what two rows of arguments ask for
/// together is what each asks for.
pub proof fn law_mkdir_arguments_are_read_in_turn(a: Seq<Seq<char>>, b: Seq<Seq<char>>)
    ensures
        mkdir_scan(a + b, (a + b).len() as int) == (match (
            mkdir_scan(a, a.len() as int),
            mkdir_scan(b, b.len() as int),
        ) {
            (Err(flag), _) => Err(flag),
            (Ok(_), Err(flag)) => Err(flag),
            (Ok((x, paths)), Ok((y, more))) => Ok::<(bool, Seq<Seq<char>>), Seq<char>>(
                (x || y, paths + more),
            ),
        }),
        forall|arg: Seq<char>|
            #[trigger] mkdir_scan(seq![arg], 1) == (if arg == seq!['-', 'p'] {
                Ok::<(bool, Seq<Seq<char>>), Seq<char>>((true, seq![]))
            } else if arg.len() > 1 && arg[0] == '-' {
                Err(arg)
            } else {
                Ok((false, seq![arg]))
            }),
{
    lemma_mkdir_in_turn(a, b, b.len() as int);
    reveal_strlit("-p");
    assert("-p"@ =~= seq!['-', 'p']);
    assert forall|arg: Seq<char>|
        #[trigger] mkdir_scan(seq![arg], 1) == (if arg == seq!['-', 'p'] {
            Ok::<(bool, Seq<Seq<char>>), Seq<char>>((true, seq![]))
        } else if arg.len() > 1 && arg[0] == '-' {
            Err(arg)
        } else {
            Ok((false, seq![arg]))
        }) by {
        reveal_with_fuel(mkdir_scan, 2);
        assert(seq![arg][0] == arg);
        assert(Seq::<Seq<char>>::empty().push(arg) =~= seq![arg]);
    }
}

proof fn lemma_mkdir_front(a: Seq<Seq<char>>, b: Seq<Seq<char>>, n: int)
    requires
        0 <= n <= a.len(),
    ensures
        mkdir_scan(a + b, n) == mkdir_scan(a, n),
    decreases n,
{
    if n > 0 {
        lemma_mkdir_front(a, b, n - 1);
        assert((a + b)[n - 1] == a[n - 1]);
    }
}

proof fn lemma_mkdir_in_turn(a: Seq<Seq<char>>, b: Seq<Seq<char>>, n: int)
    requires
        0 <= n <= b.len(),
    ensures
        mkdir_scan(a + b, a.len() + n) == (match (
            mkdir_scan(a, a.len() as int),
            mkdir_scan(b, n),
        ) {
            (Err(flag), _) => Err(flag),
            (Ok(_), Err(flag)) => Err(flag),
            (Ok((x, paths)), Ok((y, more))) => Ok::<(bool, Seq<Seq<char>>), Seq<char>>(
                (x || y, paths + more),
            ),
        }),
    decreases n,
{
    if n == 0 {
        lemma_mkdir_front(a, b, a.len() as int);
        if let Ok((_, paths)) = mkdir_scan(a, a.len() as int) {
            assert(paths + Seq::<Seq<char>>::empty() =~= paths);
        }
    } else {
        lemma_mkdir_in_turn(a, b, n - 1);
        assert((a + b)[a.len() + n - 1] == b[n - 1]);
        match (mkdir_scan(a, a.len() as int), mkdir_scan(b, n - 1)) {
            (Ok((_, paths)), Ok((_, more))) => {
                assert((paths + more).push(b[n - 1]) =~= paths + more.push(b[n - 1]));
            },
            _ => {},
        }
    }
}

/// A source keeps its name in a directory that it goes into, and takes that of the destination
/// otherwise.
pub proof fn law_sources_keep_their_names_in_directories(
    dir: Seq<char>,
    name: Seq<char>,
    dest: Seq<char>,
)
    requires
        name.len() > 0,
        !name.contains('/'),
    ensures
        destination(dir + seq!['/'] + name, dest, false) == dest,
        dest != seq!['/'] ==> destination(dir + seq!['/'] + name, dest, true) == dest + seq!['/']
            + name,
        destination(dir + seq!['/'] + name, seq!['/'], true) == seq!['/'] + name,
        destination(name, dest, true) == destination(dir + seq!['/'] + name, dest, true),
{
    path::law_base_names_are_last_components(dir, name);
}

/// `which` prints the path of each name that is a command, in order, and nothing for the others.
pub proof fn law_names_are_looked_up_in_turn(
    a: Seq<Seq<char>>,
    b: Seq<Seq<char>>,
    commands: Set<Seq<char>>,
)
    ensures
        which_text(a + b, (a + b).len() as int, commands) == which_text(a, a.len() as int, commands)
            + which_text(b, b.len() as int, commands),
        all_known(a + b, (a + b).len() as int, commands) <==> all_known(a, a.len() as int, commands)
            && all_known(b, b.len() as int, commands),
        a.len() == 1 && commands.contains(a[0]) ==> which_text(a, 1, commands) == "/bin/"@ + a[0]
            + "\n"@,
        a.len() == 1 ==> (all_known(a, 1, commands) <==> commands.contains(a[0])),
        a.len() == 1 && !commands.contains(a[0]) ==> which_text(a, 1, commands).len() == 0,
{
    lemma_which(a, b, b.len() as int, commands);
    let all = a + b;
    if all_known(all, all.len() as int, commands) {
        assert forall|i: int| 0 <= i < a.len() implies commands.contains(#[trigger] a[i]) by {
            assert(all[i] == a[i]);
        }
        assert forall|i: int| 0 <= i < b.len() implies commands.contains(#[trigger] b[i]) by {
            assert(all[a.len() + i] == b[i]);
        }
    }
    if a.len() == 1 {
        reveal_with_fuel(which_text, 2);
        reveal_strlit("");
        assert(""@ + "/bin/"@ + a[0] + "\n"@ =~= "/bin/"@ + a[0] + "\n"@);
        if all_known(a, 1, commands) {
            assert(commands.contains(a[0]));
        }
    }
}

proof fn lemma_which_front(a: Seq<Seq<char>>, b: Seq<Seq<char>>, n: int, commands: Set<Seq<char>>)
    requires
        0 <= n <= a.len(),
    ensures
        which_text(a + b, n, commands) == which_text(a, n, commands),
    decreases n,
{
    if n > 0 {
        lemma_which_front(a, b, n - 1, commands);
        assert((a + b)[n - 1] == a[n - 1]);
    }
}

proof fn lemma_which(a: Seq<Seq<char>>, b: Seq<Seq<char>>, n: int, commands: Set<Seq<char>>)
    requires
        0 <= n <= b.len(),
    ensures
        which_text(a + b, a.len() + n, commands) == which_text(a, a.len() as int, commands)
            + which_text(b, n, commands),
    decreases n,
{
    let front = which_text(a, a.len() as int, commands);
    if n == 0 {
        lemma_which_front(a, b, a.len() as int, commands);
        reveal_strlit("");
        assert(front + ""@ =~= front);
    } else {
        lemma_which(a, b, n - 1, commands);
        assert((a + b)[a.len() + n - 1] == b[n - 1]);
        let before = which_text(b, n - 1, commands);
        assert((front + before) + "/bin/"@ + b[n - 1] + "\n"@ =~= front + (before + "/bin/"@ + b[n
            - 1] + "\n"@));
    }
}

/// The heading of a directory is its name and a colon, and all but the first stand behind an
/// empty line.
pub proof fn law_headings_stand_behind_an_empty_line(shown: Seq<char>, index: nat)
    requires
        index > 0,
    ensures
        heading_text(shown, index) == "\n"@ + heading_text(shown, 0),
        heading_text(shown, 0) == shown + ":\n"@,
{
    reveal_strlit("");
    assert(heading_text(shown, 0) =~= shown + ":\n"@);
    assert("\n"@ + shown + ":\n"@ =~= "\n"@ + (shown + ":\n"@));
}

} // verus!
