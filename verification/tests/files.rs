use tinysandbox::builtins::builtin_names;
use tinysandbox::builtins::files::{
    check_target, destination_for, format_entries, format_heading, format_ls_entry, format_stat,
    list_entries, ls_listing, ls_operand, mkdir_all_step, mkdir_steps, parse_cp_args,
    parse_ls_args, parse_mkdir_args, parse_mv_args, parse_rm_args, pwd_output, refuse_options,
    require_operands, rm_report, which_output, LsOperand,
};
use tinysandbox::fs::{
    after_write, check_buffer, check_moved, check_path, check_write_size, is_bin_path,
    max_io_bytes, next_write_end, with_bin_entry, write_file_mode, FileRead, FileReader, FsScope,
    Listing, Lookup, ReadStep, StreamBuffer,
};
use tinysandbox::path::{basename, join_path, normalize_absolute, resolve, split_char};
use tinysandbox::textmap::TextMap;
use tinysandbox::vfs::{
    errno_message, DirEntry, Errno, FileType, Metadata, OpenMode, VfsError,
};
use tinysandbox::walk::{made_directory, visit, TreeWalk, Visit, WalkItem, WalkKind};

fn args(list: &[&str]) -> Vec<String> {
    list.iter().map(|arg| arg.to_string()).collect()
}

fn entry(name: &str, directory: bool) -> DirEntry {
    let file_type = if directory { FileType::Directory } else { FileType::File };
    DirEntry { name: name.to_string(), metadata: Metadata { file_type, len: 0 } }
}

fn names(entries: &[DirEntry]) -> Vec<&str> {
    entries.iter().map(|entry| entry.name.as_str()).collect()
}

fn commands(list: &[&str]) -> TextMap<()> {
    let mut map = TextMap::new();
    for name in list {
        map.insert(name.to_string(), ());
    }
    map
}

const MISSING: VfsError = VfsError { errno: Errno::ENOENT };

#[test]
fn basename_handles_root_and_trailing_slashes() {
    assert_eq!(basename("/"), "/");
    assert_eq!(basename("////"), "/");
    assert_eq!(basename("/tmp/file///"), "file");
}

#[test]
fn paths_are_contained_at_the_root() {
    assert_eq!(normalize_absolute("/../../etc/./x//y/.."), "/etc/x");
    assert_eq!(normalize_absolute("/.."), "/");
    assert_eq!(normalize_absolute(&normalize_absolute("/a//b/../c/")), "/a/c");
    assert_eq!(resolve("/a/b", "../c"), "/a/c");
    assert_eq!(resolve("/a/b", "/c"), "/c");
    assert_eq!(resolve("/a", "../../.."), "/");
    assert_eq!(join_path("/a", "b"), "/a/b");
    assert_eq!(join_path("/", "b"), "/b");
    assert_eq!(split_char("a//b", '/'), args(&["a", "", "b"]));
    assert_eq!(basename("a"), "a");
}

#[test]
fn bin_is_made_of_the_commands_and_cannot_be_written() {
    let registry = commands(&["cat", "ls"]);
    let scope = FsScope { cwd: "/bin", commands: &registry, max_depth: 10, cancelled: false };
    let file = Metadata { file_type: FileType::File, len: 0 };
    assert_eq!(scope.plan_stat("cat"), Ok(Lookup::Known(file)));
    assert_eq!(scope.plan_stat("nope"), Err(MISSING));
    let Ok(Listing::Known(listed)) = scope.plan_readdir("/bin") else { panic!("listed") };
    assert_eq!(names(&listed), vec!["cat", "ls"]);
    assert_eq!(scope.plan_readdir("/"), Ok(Listing::Root));
    assert_eq!(scope.plan_change("cat"), Err(VfsError::new(Errno::EACCES)));
    assert_eq!(scope.plan_rename("/x", "/bin/y"), Err(VfsError::new(Errno::EACCES)));
    assert_eq!(
        scope.plan_open("/bin/new", OpenMode::write_only().create()),
        Err(VfsError::new(Errno::EACCES))
    );
    assert_eq!(
        scope.plan_open("/bin", OpenMode::write_only()),
        Err(VfsError::new(Errno::EISDIR))
    );
    assert!(is_bin_path("/bin") && is_bin_path("/bin/x") && !is_bin_path("/binary"));
}

#[test]
fn other_paths_are_resolved_and_handed_on() {
    let registry = commands(&[]);
    let scope = FsScope { cwd: "/w", commands: &registry, max_depth: 3, cancelled: false };
    assert_eq!(scope.plan_stat("a/../b"), Ok(Lookup::Ask("/w/b".to_string())));
    assert_eq!(scope.plan_readdir("."), Ok(Listing::Ask("/w".to_string())));
    assert_eq!(scope.plan_change("x"), Ok("/w/x".to_string()));
    assert_eq!(scope.plan_rename("x", "/y"), Ok(("/w/x".to_string(), "/y".to_string())));
    assert_eq!(scope.plan_open("x", OpenMode::read_only()), Ok("/w/x".to_string()));
    assert_eq!(scope.plan_read_file("x"), Ok(FileRead::Ask("/w/x".to_string())));
    assert_eq!(scope.plan_stat("a/b/c"), Err(VfsError::new(Errno::EINVAL)));
    assert_eq!(scope.resolve("x"), "/w/x");
    let ended = FsScope { cancelled: true, ..scope };
    assert_eq!(ended.plan_stat("x"), Err(VfsError::new(Errno::EIO)));
    assert!(check_path("/a/b/c", 3).is_ok());
    assert!(check_path("/a/b/c/d", 3).is_err());
}

#[test]
fn the_root_lists_bin_in_its_place() {
    let listed = with_bin_entry(vec![entry("z", false), entry("a", true)]);
    assert_eq!(names(&listed), vec!["a", "bin", "z"]);
    assert_eq!(listed[1].metadata.file_type, FileType::Directory);
}

#[test]
fn a_file_is_gathered_up_to_its_limit() {
    let file: Vec<u8> = (0..100).collect();
    let mut reader = FileReader::new(100);
    let mut at = 0;
    loop {
        let end = (at + 30).min(file.len()).min(at + reader.want());
        match reader.take(&file[at..end]) {
            Ok(ReadStep::More) => at = end,
            Ok(ReadStep::Done) => break,
            Err(err) => panic!("{err:?}"),
        }
    }
    assert_eq!(reader.data, file);
    let mut reader = FileReader::new(5);
    assert_eq!(reader.want(), 6);
    assert_eq!(reader.take(b"123456"), Err(VfsError::new(Errno::EFBIG)));
    assert_eq!(reader.take(b"12345"), Ok(ReadStep::More));
    assert_eq!(reader.want(), 1);
    assert_eq!(reader.take(b""), Ok(ReadStep::Done));
}

#[test]
fn a_stream_hands_out_what_it_read_ahead() {
    let mut buffer = StreamBuffer::new(b"abcde".to_vec());
    assert_eq!(buffer.take(2), b"ab".to_vec());
    assert_eq!(buffer.take(0), b"".to_vec());
    assert_eq!(buffer.take(10), b"cde".to_vec());
    assert_eq!(buffer.take(1), b"".to_vec());
}

#[test]
fn reads_and_writes_are_bounded() {
    assert_eq!(max_io_bytes(10), 65_536);
    assert_eq!(max_io_bytes(100_000), 100_000);
    assert!(check_buffer(65_536, 10).is_ok());
    assert_eq!(check_buffer(65_537, 10), Err(VfsError::new(Errno::EFBIG)));
    assert_eq!(check_moved(3, 3), Ok(3));
    assert_eq!(check_moved(4, 3), Err(VfsError::new(Errno::EIO)));
    assert!(check_write_size(10, 10).is_ok());
    assert_eq!(check_write_size(11, 10), Err(VfsError::new(Errno::EFBIG)));
    assert_eq!(next_write_end(0, 70_000), 65_536);
    assert_eq!(next_write_end(65_536, 70_000), 70_000);
    assert_eq!(after_write(0, 5, 10), Ok(5));
    assert_eq!(after_write(5, 0, 10), Err(VfsError::new(Errno::ENOSPC)));
    assert_eq!(write_file_mode(false), OpenMode::write_only().create().truncate());
    assert_eq!(write_file_mode(true), OpenMode::write_only().create().append());
}

fn walk(kind: WalkKind) -> Vec<String> {
    let mut walk = TreeWalk::new(kind, "/d", "/e");
    let mut seen = Vec::new();
    while let Some(item) = walk.next() {
        match item {
            WalkItem::Visit { path, dest, directory } => {
                seen.push(format!("{path}>{dest}"));
                if directory {
                    let entries = match path.as_str() {
                        "/d" => vec![entry("b", false), entry("sub", true)],
                        _ => vec![entry("x", false)],
                    };
                    walk.enter(&path, &dest, &entries);
                }
            }
            WalkItem::Leave { path } => seen.push(format!("leave {path}")),
        }
    }
    seen
}

#[test]
fn walks_follow_the_listing() {
    let through = args(&["/d>/e", "/d/b>/e/b", "/d/sub>/e/sub", "/d/sub/x>/e/sub/x"]);
    assert_eq!(walk(WalkKind::Collect), through);
    assert_eq!(walk(WalkKind::Copy), through);
    assert_eq!(
        walk(WalkKind::Remove),
        args(&[
            "/d>/e",
            "/d/b>/e/b",
            "/d/sub>/e/sub",
            "/d/sub/x>/e/sub/x",
            "leave /d/sub",
            "leave /d"
        ])
    );
}

#[test]
fn directories_need_a_recursive_walk() {
    let dir = Metadata { file_type: FileType::Directory, len: 0 };
    let file = Metadata { file_type: FileType::File, len: 1 };
    assert_eq!(visit(Ok(file), false), Ok(Visit::File));
    assert_eq!(visit(Ok(dir), true), Ok(Visit::Directory));
    assert_eq!(visit(Ok(dir), false), Err(VfsError::new(Errno::EISDIR)));
    assert_eq!(visit(Err(MISSING), true), Err(MISSING));
    assert_eq!(made_directory(Err(VfsError::new(Errno::EEXIST))), Ok(()));
    assert_eq!(made_directory(Err(MISSING)), Err(MISSING));
}

#[test]
fn listings_are_sorted_and_hide_dot_files() {
    let entries = vec![entry("b", false), entry(".h", false), entry("a", true)];
    assert_eq!(names(&list_entries(&entries, false)), vec!["a", "b"]);
    assert_eq!(names(&list_entries(&entries, true)), vec![".", "..", ".h", "a", "b"]);
    let file = Metadata { file_type: FileType::File, len: 42 };
    assert_eq!(format_ls_entry("f", file, false), "f\n");
    assert_eq!(format_ls_entry("f", file, true), "-rw-r--r-- 1 0 0     42 Jan  1 00:00 f\n");
    let dir = Metadata { file_type: FileType::Directory, len: 0 };
    assert_eq!(format_ls_entry("d", dir, true), "drwxr-xr-x 1 0 0      0 Jan  1 00:00 d\n");
    assert_eq!(format_heading("d", 0), "d:\n");
    assert_eq!(format_heading("d", 1), "\nd:\n");
    assert_eq!(format_stat("f", file), "  File: f\n  Size: 42\n  Type: regular file\n");
    assert_eq!(format_stat("d", dir), "  File: d\n  Size: 0\n  Type: directory\n");
}

#[test]
fn listings_of_operands() {
    let dir = Metadata { file_type: FileType::Directory, len: 0 };
    let file = Metadata { file_type: FileType::File, len: 1 };
    let Ok(plan) = parse_ls_args(&args(&["/x/f", "d"])) else { panic!("accepted") };
    assert_eq!(ls_operand(&plan, 0, Ok(file)), LsOperand::File("f\n".to_string()));
    assert_eq!(ls_operand(&plan, 1, Ok(dir)), LsOperand::Directory("\nd:\n".to_string()));
    let missing = "ls: d: No such file or directory\n".to_string();
    assert_eq!(ls_operand(&plan, 1, Err(MISSING)), LsOperand::Missing(missing.clone(), 2));
    let entries = vec![entry("b", false), entry(".h", false), entry("a", true)];
    assert_eq!(format_entries(&entries, false), "b\n.h\na\n");
    assert_eq!(ls_listing(&plan, "d", Ok(entries)), Ok("a\nb\n".to_string()));
    assert_eq!(ls_listing(&plan, "d", Err(MISSING)), Err((missing, 1)));
    let Ok(plan) = parse_ls_args(&args(&["d"])) else { panic!("accepted") };
    assert_eq!(ls_operand(&plan, 0, Ok(dir)), LsOperand::Directory(String::new()));
}

#[test]
fn arguments_of_file_commands() {
    let Ok(plan) = parse_ls_args(&args(&["-la"])) else { panic!("accepted") };
    assert!(plan.all && plan.long);
    assert_eq!(plan.paths, args(&["."]));
    let Err(failure) = parse_ls_args(&args(&["-R"])) else { panic!("refused") };
    assert_eq!(failure.message, "ls: unsupported option '-R'\n");
    let Ok(plan) = parse_mkdir_args(&args(&["-p", "a"])) else { panic!("accepted") };
    assert!(plan.parents);
    let Ok(plan) = parse_mkdir_args(&args(&["-"])) else { panic!("accepted") };
    assert_eq!(plan.paths, args(&["-"]));
    let Err(failure) = parse_mkdir_args(&args(&["-p"])) else { panic!("refused") };
    assert_eq!(failure.message, "mkdir: missing operand\n");
    let Err(failure) = parse_mkdir_args(&args(&["-pv", "a"])) else { panic!("refused") };
    assert_eq!(failure.message, "mkdir: unsupported option '-pv'\n");
    let Ok(plan) = parse_cp_args(&args(&["-r", "a", "b", "c"])) else { panic!("accepted") };
    assert!(plan.recursive);
    assert_eq!(plan.sources, args(&["a", "b"]));
    assert_eq!(plan.dest, "c");
    let Err(failure) = check_target("cp", &plan, false) else { panic!("refused") };
    assert_eq!(failure.message, "cp: target 'c': Not a directory\n");
    assert!(check_target("cp", &plan, true).is_ok());
    let Err(failure) = parse_cp_args(&args(&["a"])) else { panic!("refused") };
    assert_eq!(failure.message, "cp: missing file operand\n");
    let Err(failure) = parse_mv_args(&args(&["-f", "a", "b"])) else { panic!("refused") };
    assert_eq!(failure.message, "mv: unsupported option '-f'\n");
    let Ok(plan) = parse_mv_args(&args(&["a", "b"])) else { panic!("accepted") };
    assert!(check_target("mv", &plan, false).is_ok());
    let Ok(plan) = parse_rm_args(&args(&["-Rf", "a"])) else { panic!("accepted") };
    assert!(plan.recursive && plan.force);
    let Err(failure) = parse_rm_args(&args(&["-r"])) else { panic!("refused") };
    assert_eq!(failure.message, "rm: missing operand\n");
    assert!(parse_rm_args(&args(&["-f"])).is_ok());
}

#[test]
fn targets_and_steps() {
    assert_eq!(destination_for("/a/b/", "/d", true), "/d/b");
    assert_eq!(destination_for("/a/b", "/d", false), "/d");
    assert_eq!(mkdir_steps("/", "a//b/c"), args(&["/a", "/a/b", "/a/b/c"]));
    assert_eq!(
        mkdir_steps("/workspace", "a/b"),
        args(&["/workspace", "/workspace/a", "/workspace/a/b"])
    );
    assert_eq!(mkdir_steps("/workspace", "/x/./y"), args(&["/x", "/x/y"]));
    assert_eq!(mkdir_steps("/workspace", "../z"), args(&["/z"]));
    assert!(mkdir_steps("/workspace", "/").is_empty());
    let exists = VfsError::new(Errno::EEXIST);
    let dir = Metadata { file_type: FileType::Directory, len: 0 };
    let file = Metadata { file_type: FileType::File, len: 3 };
    assert_eq!(mkdir_all_step(Ok(()), None), Ok(true));
    assert_eq!(mkdir_all_step(Err(exists), None), Ok(false));
    assert_eq!(mkdir_all_step(Err(exists), Some(Ok(dir))), Ok(true));
    assert_eq!(mkdir_all_step(Err(exists), Some(Ok(file))), Err(exists));
    assert_eq!(mkdir_all_step(Err(MISSING), None), Err(MISSING));
    assert_eq!(rm_report(Err(MISSING), "x", true), None);
    assert_eq!(
        rm_report(Err(MISSING), "x", false),
        Some("rm: x: No such file or directory\n".to_string())
    );
    assert_eq!(
        rm_report(Err(VfsError::new(Errno::EISDIR)), "x", true),
        Some("rm: x: Is a directory\n".to_string())
    );
    assert_eq!(rm_report(Ok(()), "x", false), None);
}

#[test]
fn small_commands() {
    let registry = commands(&["cat"]);
    assert_eq!(
        which_output(&args(&["cat", "dog"]), &registry),
        ("/bin/cat\n".to_string(), 1)
    );
    assert_eq!(which_output(&args(&["cat"]), &registry), ("/bin/cat\n".to_string(), 0));
    let Err(failure) = require_operands(&args(&[]), "which: missing operand\n") else {
        panic!("refused")
    };
    assert_eq!((failure.message.as_str(), failure.code), ("which: missing operand\n", 1));
    assert!(refuse_options("touch", &args(&["a", "-"])).is_ok());
    let Err(failure) = refuse_options("touch", &args(&["-c"])) else { panic!("refused") };
    assert_eq!(failure.message, "touch: unsupported option '-c'\n");
    assert!(matches!(pwd_output(&args(&[]), "/w"), Ok(line) if line == "/w\n"));
    let Err(failure) = pwd_output(&args(&["-P"]), "/w") else { panic!("refused") };
    assert_eq!(failure.message, "pwd: unsupported option '-P'\n");
}

#[test]
fn the_prompt_names_every_builtin() {
    for name in builtin_names() {
        assert!(tinysandbox::prompts::BUILTINS.contains(name), "{name}");
    }
}

#[test]
fn errors_have_words() {
    assert_eq!(errno_message(Errno::ENOTEMPTY), "Directory not empty");
    assert_eq!(errno_message(Errno::EACCES), "Permission denied");
    assert_eq!(errno_message(Errno::EFBIG), "File too large");
    assert_eq!(VfsError::new(Errno::EIO).errno(), Errno::EIO);
    let mode = OpenMode::read_write().create_new();
    assert!(mode.read && mode.write && mode.create_new);
}
