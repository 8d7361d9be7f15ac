use tinysandbox::builtins::cat::{cat_transform, parse_cat_args, CatFlags, CatState};
use tinysandbox::builtins::echo::{echo_output, expand_echo_escapes};
use tinysandbox::builtins::grep::{
    compile_pattern, file_label, grep_status, parse_grep_args, shows_path, GrepFlags, GrepSearch,
};
use tinysandbox::builtins::head_tail::{
    format_header, parse_head_tail_args, parse_head_tail_count, LineSelector, Taken, TailCount,
};
use tinysandbox::builtins::lines::{
    line_text_lossy, lines_with_endings, text_lines, text_lines_lossy, LineReader, NextLine,
    MAX_STREAM_LINE_BYTES,
};
use tinysandbox::builtins::operands::{
    grep_operand, operands_or_stdin, GrepOperand, OperandCommand, OperandFault, OperandRun,
    OperandStep,
};
use tinysandbox::builtins::sed::{
    apply_sed_substitution, parse_sed_args, parse_sed_substitution, split_sed_parts, substitute,
    validate_sed_replacement,
};
use tinysandbox::builtins::sort::{
    check_sort_input, format_sorted, numeric_prefix, parse_sort_args, read_sort_input, sort_lines,
    SortModes,
};
use tinysandbox::builtins::uniq::{format_run, parse_uniq_args, Runs, UniqModes};
use tinysandbox::builtins::wc::{
    decimal_width, format_counts, parse_wc_args, wc_report, Counter, Counts, WcShow, STDIN_WIDTH,
};
use tinysandbox::builtins::{report_stream_error, vfs_error_message, StreamError};
use tinysandbox::order::{order_bytes, order_texts, Order};
use tinysandbox::sorting::{sort_order, SortKey};
use tinysandbox::vfs::{Errno, FileType, Metadata, VfsError};

fn args(list: &[&str]) -> Vec<String> {
    list.iter().map(|arg| arg.to_string()).collect()
}

fn cat(input: &str, flags: CatFlags) -> String {
    let mut state = CatState::new();
    let mut out = Vec::new();
    cat_transform(input.as_bytes(), &flags, &mut state, &mut out);
    String::from_utf8(out).expect("text")
}

const PLAIN: CatFlags = CatFlags {
    number: false,
    number_nonblank: false,
    squeeze: false,
    show_ends: false,
    show_tabs: false,
};

#[test]
fn cat_numbers_squeezes_and_marks() {
    assert_eq!(cat("a\n\nb", PLAIN), "a\n\nb");
    assert_eq!(cat("a\n\nb", CatFlags { number: true, ..PLAIN }), "     1\ta\n     2\t\n     3\tb");
    assert_eq!(
        cat("a\n\nb\n", CatFlags { number: true, number_nonblank: true, ..PLAIN }),
        "     1\ta\n\n     2\tb\n"
    );
    assert_eq!(cat("a\n\n\n\nb\n", CatFlags { squeeze: true, ..PLAIN }), "a\n\nb\n");
    assert_eq!(cat("a\tb\nc", CatFlags { show_ends: true, show_tabs: true, ..PLAIN }), "a^Ib$\nc");
}

#[test]
fn cat_numbers_continue_into_the_next_file() {
    let flags = CatFlags { number: true, squeeze: true, ..PLAIN };
    let mut state = CatState::new();
    let mut out = Vec::new();
    cat_transform(b"a\n\n", &flags, &mut state, &mut out);
    cat_transform(b"\nb\n", &flags, &mut state, &mut out);
    assert_eq!(out, b"     1\ta\n     2\t\n     3\tb\n".to_vec());
}

#[test]
fn cat_of_two_inputs_is_cat_of_both_joined() {
    let flags = CatFlags { number: true, squeeze: true, show_ends: true, ..PLAIN };
    for (a, b, expected) in [
        ("a\n\n", "\nb\nc", "     1\ta$\n     2\t$\n     3\tb$\n     4\tc"),
        ("a\nb", "c\n\n\nd", "     1\ta$\n     2\tbc$\n     3\t$\n     4\td"),
        ("a", "\n\n", "     1\ta$\n     2\t$\n"),
        ("", "a", "     1\ta"),
        ("a", "", "     1\ta"),
    ] {
        let mut state = CatState::new();
        let mut apart = Vec::new();
        cat_transform(a.as_bytes(), &flags, &mut state, &mut apart);
        cat_transform(b.as_bytes(), &flags, &mut state, &mut apart);
        let mut whole = CatState::new();
        let mut joined = Vec::new();
        cat_transform(format!("{a}{b}").as_bytes(), &flags, &mut whole, &mut joined);
        assert_eq!(apart, joined, "{a:?} {b:?}");
        assert_eq!(state, whole, "{a:?} {b:?}");
        assert_eq!(String::from_utf8(joined).expect("text"), expected);
    }
}

#[test]
fn cat_arguments() {
    let Ok(plan) = parse_cat_args(&args(&["-nE", "f", "-", "-T"])) else { panic!("accepted") };
    assert_eq!(plan.paths, args(&["f", "-"]));
    assert_eq!(plan.flags, CatFlags { number: true, show_ends: true, show_tabs: true, ..PLAIN });
    let Ok(plan) = parse_cat_args(&args(&[])) else { panic!("accepted") };
    assert_eq!(plan.paths, args(&["-"]));
    assert!(plan.flags.plain());
    let Err(failure) = parse_cat_args(&args(&["-nx"])) else { panic!("refused") };
    assert_eq!(failure.message, "cat: unsupported option '-x'\n");
    assert_eq!(failure.code, 1);
}

#[test]
fn echo_joins_its_arguments() {
    assert_eq!(echo_output(&args(&["a", "b"])), "a b\n");
    assert_eq!(echo_output(&args(&["-n", "a"])), "a");
    assert_eq!(echo_output(&args(&["-nx", "a"])), "-nx a\n");
    assert_eq!(echo_output(&args(&["-e", "-E", "a\\n"])), "a\\n\n");
    assert_eq!(echo_output(&args(&["-e", "a\\nb\\cc"])), "a\nb");
    assert_eq!(echo_output(&args(&["-"])), "-\n");
    assert_eq!(echo_output(&args(&[])), "\n");
}

#[test]
fn echo_escapes() {
    let expanded = |s: &str| expand_echo_escapes(s).0;
    assert_eq!(expanded("\\a\\b\\e\\f\\r\\t\\v\\\\"), "\u{7}\u{8}\u{1b}\u{c}\r\t\u{b}\\");
    assert_eq!(expanded("\\0101\\x41\\x4g"), "AA\u{4}g");
    assert_eq!(expanded("\\u00e9\\U0001F600"), "é😀");
    assert_eq!(expanded("\\xg\\uz\\q"), "\\xg\\uz\\q");
    assert_eq!(expanded("\\uD800!"), "!");
    assert_eq!(expanded("\\"), "\\");
    assert_eq!(expand_echo_escapes("a\\cb"), ("a".to_string(), true));
    assert_eq!(expand_echo_escapes("a"), ("a".to_string(), false));
}

#[test]
fn words_lines_and_bytes_are_counted() {
    let mut counter = Counter::new();
    counter.feed(b"one t");
    counter.feed(b"wo\n three\n\xff");
    assert_eq!(counter.counts(), Counts { lines: 2, words: 4, bytes: 16 });
    let mut spaced = Counter::new();
    spaced.feed(b"a\x0bb\x0cc\rd\te");
    assert_eq!(spaced.counts().words, 5);
    assert_eq!(decimal_width(0), 1);
    assert_eq!(decimal_width(1000), 4);
}

#[test]
fn counts_of_the_input_are_padded_and_those_of_files_aligned() {
    let lines = WcShow { lines: true, words: false, bytes: false };
    let two = Counts { lines: 2, words: 2, bytes: 11 };
    assert_eq!(format_counts(two, None, lines, STDIN_WIDTH), "      2\n");
    let all = WcShow { lines: true, words: true, bytes: true };
    assert_eq!(
        wc_report(&vec![two, Counts { lines: 1, words: 1, bytes: 5 }], &args(&["a", "b"]), true, all),
        " 2  2 11 a\n 1  1  5 b\n 3  3 16 total\n"
    );
    assert_eq!(wc_report(&vec![two], &args(&["a"]), false, lines), "2 a\n");
    assert_eq!(wc_report(&vec![], &args(&[]), true, lines), "0 total\n");
    let Ok(plan) = parse_wc_args(&args(&["-l"])) else { panic!("accepted") };
    assert_eq!(plan.operands(), args(&["-"]));
    assert_eq!(plan.report(&vec![two], &args(&["-"])), "      2\n");
    let Ok(plan) = parse_wc_args(&args(&["-l", "a", "gone"])) else { panic!("accepted") };
    assert_eq!(plan.operands(), args(&["a", "gone"]));
    assert_eq!(plan.report(&vec![two], &args(&["a"])), "2 a\n2 total\n");
}

#[test]
fn wc_arguments() {
    let Ok(plan) = parse_wc_args(&args(&["-lc", "f"])) else { panic!("accepted") };
    assert_eq!(plan.show, WcShow { lines: true, words: false, bytes: true });
    assert_eq!(plan.files, args(&["f"]));
    let Ok(plan) = parse_wc_args(&args(&[])) else { panic!("accepted") };
    assert_eq!(plan.show, WcShow { lines: true, words: true, bytes: true });
    assert!(plan.files.is_empty());
    let Err(failure) = parse_wc_args(&args(&["-m"])) else { panic!("refused") };
    assert_eq!(failure.message, "wc: unsupported option '-m'\n");
}

fn uniq(lines: &[&str], modes: UniqModes) -> String {
    let mut runs = Runs::new();
    let mut out = String::new();
    for line in lines {
        if let Some((line, n)) = runs.push(line.to_string()) {
            out.push_str(&format_run(&line, n, modes).unwrap_or_default());
        }
    }
    if let Some((line, n)) = runs.finish() {
        out.push_str(&format_run(&line, n, modes).unwrap_or_default());
    }
    out
}

#[test]
fn uniq_collapses_neighbours() {
    let modes = UniqModes { count: false, repeated: false, unique_only: false };
    let lines = ["a", "a", "b", "a"];
    assert_eq!(uniq(&lines, modes), "a\nb\na\n");
    assert_eq!(uniq(&lines, UniqModes { count: true, ..modes }), "      2 a\n      1 b\n      1 a\n");
    assert_eq!(uniq(&lines, UniqModes { repeated: true, ..modes }), "a\n");
    assert_eq!(uniq(&lines, UniqModes { unique_only: true, ..modes }), "b\na\n");
    assert_eq!(uniq(&lines, UniqModes { repeated: true, unique_only: true, ..modes }), "");
    assert_eq!(uniq(&[], modes), "");
}

#[test]
fn uniq_arguments() {
    let Ok(plan) = parse_uniq_args(&args(&["-c", "f", "-d"])) else { panic!("accepted") };
    assert_eq!(plan.modes, UniqModes { count: true, repeated: true, unique_only: false });
    assert_eq!(plan.file, Some("f".to_string()));
    let Err(failure) = parse_uniq_args(&args(&["a", "b"])) else { panic!("refused") };
    assert_eq!(failure.message, "uniq: extra operand\n");
    let Ok(plan) = parse_uniq_args(&args(&["-"])) else { panic!("accepted") };
    assert_eq!(plan.file, Some("-".to_string()));
    let Err(failure) = parse_uniq_args(&args(&["-cd"])) else { panic!("refused") };
    assert_eq!(failure.message, "uniq: unsupported option '-cd'\n");
}

#[test]
fn heads_and_tails_are_counted() {
    assert_eq!(parse_head_tail_count("3", true), Some(TailCount::Last(3)));
    assert_eq!(parse_head_tail_count("+3", false), Some(TailCount::From(3)));
    assert_eq!(parse_head_tail_count("+0", false), Some(TailCount::From(1)));
    assert_eq!(parse_head_tail_count("+3", true), None);
    assert_eq!(parse_head_tail_count("-1", false), None);
    assert_eq!(parse_head_tail_count("x", true), None);
    let Ok(plan) = parse_head_tail_args(&args(&["-v", "-n", "2", "f"]), true) else {
        panic!("accepted")
    };
    assert_eq!(plan.count, TailCount::Last(2));
    assert!(plan.verbose);
    assert_eq!(plan.files, args(&["f"]));
    let Ok(plan) = parse_head_tail_args(&args(&["f", "-"]), true) else { panic!("accepted") };
    assert_eq!(plan.operands(), args(&["f", "-"]));
    assert_eq!(plan.header("-", 1), Some("\n==> standard input <==\n".to_string()));
    let refused = |list: &[&str], head: bool| match parse_head_tail_args(&args(list), head) {
        Ok(_) => panic!("refused"),
        Err(failure) => (failure.message, failure.code),
    };
    assert_eq!(
        refused(&["-n"], true),
        ("head: option requires an argument -- 'n'\n".to_string(), 1)
    );
    assert_eq!(
        refused(&["-n", "q"], false),
        ("tail: invalid number of lines: 'q'\n".to_string(), 1)
    );
    assert_eq!(refused(&["-5"], false), ("tail: unsupported option '-5'\n".to_string(), 1));
    assert_eq!(format_header("f", 0), "==> f <==\n");
    assert_eq!(format_header("f", 1), "\n==> f <==\n");
    let Ok(plan) = parse_head_tail_args(&args(&["a", "b"]), true) else { panic!("accepted") };
    assert_eq!(plan.header("b", 1).as_deref(), Some("\n==> b <==\n"));
    let Ok(plan) = parse_head_tail_args(&args(&[]), true) else { panic!("accepted") };
    assert_eq!((plan.operands(), plan.header("-", 0)), (args(&["-"]), None));
    let Ok(plan) = parse_head_tail_args(&args(&["-v"]), true) else { panic!("accepted") };
    assert_eq!(plan.header("-", 0).as_deref(), Some("==> standard input <==\n"));
    let Ok(plan) = parse_head_tail_args(&args(&["-v", "a"]), false) else { panic!("accepted") };
    assert_eq!(plan.header("a", 0).as_deref(), Some("==> a <==\n"));
}

fn select(count: TailCount, head: bool, max: usize, lines: &[&str]) -> Option<Vec<String>> {
    let mut selector = LineSelector::new(count, head, max);
    let mut out = Vec::new();
    for line in lines {
        if selector.done() {
            break;
        }
        match selector.push(line.as_bytes().to_vec()) {
            Taken::Print(line) => out.push(String::from_utf8(line).expect("text")),
            Taken::Keep => {}
            Taken::TooLarge => return None,
        }
    }
    for line in selector.finish() {
        out.push(String::from_utf8(line).expect("text"));
    }
    Some(out)
}

#[test]
fn lines_are_selected_from_both_ends() {
    let lines = ["a\n", "b\n", "c\n"];
    assert_eq!(select(TailCount::Last(2), true, 100, &lines), Some(args(&["a\n", "b\n"])));
    assert_eq!(select(TailCount::Last(0), true, 100, &lines), Some(vec![]));
    assert_eq!(select(TailCount::Last(2), false, 100, &lines), Some(args(&["b\n", "c\n"])));
    assert_eq!(select(TailCount::Last(9), false, 100, &lines), Some(args(&lines)));
    assert_eq!(select(TailCount::From(2), false, 100, &lines), Some(args(&["b\n", "c\n"])));
    assert_eq!(select(TailCount::Last(0), false, 100, &lines), Some(vec![]));
}

#[test]
fn what_a_tail_holds_is_limited() {
    let lines = ["aaaa\n", "bbbb\n"];
    assert_eq!(select(TailCount::Last(2), false, 9, &lines), None);
    assert_eq!(select(TailCount::Last(2), false, 10, &lines), Some(args(&lines)));
}

fn sorted(lines: &[&str], numbers: &[i64], modes: SortModes) -> Vec<String> {
    sort_lines(args(lines), numbers.to_vec(), modes)
}

#[test]
fn lines_are_sorted() {
    let modes = SortModes { reverse: false, numeric: false, unique: false };
    assert_eq!(sorted(&["b", "a", "B", "a"], &[0, 0, 0, 0], modes), args(&["B", "a", "a", "b"]));
    assert_eq!(
        sorted(&["b", "a", "a"], &[0, 0, 0], SortModes { reverse: true, unique: true, ..modes }),
        args(&["b", "a"])
    );
    // without -n the numbers are not looked at
    assert_eq!(sorted(&["b", "a"], &[0, 1], modes), args(&["a", "b"]));
    let numeric = SortModes { numeric: true, ..modes };
    assert_eq!(sorted(&["10", "9", "x"], &[10, 9, 0], numeric), args(&["x", "9", "10"]));
    assert_eq!(
        sorted(&["2", "1.0", "1"], &[2, 1, 1], SortModes { unique: true, ..numeric }),
        args(&["1.0", "2"])
    );
}

#[test]
fn sort_puts_the_lines_of_its_input_in_order() {
    let modes = SortModes { reverse: false, numeric: false, unique: false };
    let read = |data: &[u8]| match read_sort_input(data, 8) {
        Ok(lines) => lines,
        Err(failure) => panic!("{}", failure.message),
    };
    let lines = read(b"b\na\nb\na");
    let numbers = vec![0; lines.len()];
    assert_eq!(format_sorted(&sort_lines(lines, numbers, modes)), "a\na\nb\nb\n");
    let unique = SortModes { reverse: true, unique: true, ..modes };
    let lines = read(b"b\na\nb\na\n");
    let numbers = vec![0; lines.len()];
    assert_eq!(format_sorted(&sort_lines(lines, numbers, unique)), "b\na\n");
    assert_eq!(read(b""), Vec::<String>::new());
    let Err(failure) = read_sort_input(b"a\nb\nc\nd\ne", 8) else { panic!("refused") };
    assert_eq!(failure.message, "sort: input too large for tinysandbox sort\n");
    assert_eq!(failure.code, 2);
}

#[test]
fn sort_arguments_and_limits() {
    let Ok(plan) = parse_sort_args(&args(&["-rn", "f", "-u"])) else { panic!("accepted") };
    assert_eq!(plan.modes, SortModes { reverse: true, numeric: true, unique: true });
    assert_eq!(plan.files, args(&["f"]));
    let Err(failure) = parse_sort_args(&args(&["-k"])) else { panic!("refused") };
    assert_eq!((failure.message.as_str(), failure.code), ("sort: unsupported option '-k'\n", 2));
    assert!(check_sort_input(10, 10).is_ok());
    let Err(failure) = check_sort_input(11, 10) else { panic!("refused") };
    assert_eq!(failure.message, "sort: input too large for tinysandbox sort\n");
    assert_eq!(failure.code, 2);
}

#[test]
fn numbers_at_the_front_of_lines() {
    assert_eq!(numeric_prefix("  -12.5abc"), Some("-12.5".to_string()));
    assert_eq!(numeric_prefix("+7"), None);
    assert_eq!(numeric_prefix("5."), Some("5.".to_string()));
    assert_eq!(numeric_prefix(".5"), Some(".5".to_string()));
    assert_eq!(numeric_prefix("-.25x"), Some("-.25".to_string()));
    assert_eq!(numeric_prefix("."), None);
    assert_eq!(numeric_prefix("-."), None);
    assert_eq!(numeric_prefix("-"), None);
    assert_eq!(numeric_prefix("x1"), None);
}

#[test]
fn an_order_covers_every_item_and_keeps_equals_in_place() {
    let key = |number: i64, text: &str| SortKey { number, text: text.to_string() };
    let keys = vec![key(1, "b"), key(0, "z"), key(1, "a"), key(1, "b")];
    assert_eq!(sort_order(&keys), vec![1, 2, 0, 3]);
    assert!(sort_order(&vec![]).is_empty());
    assert_eq!(order_bytes(b"ab", b"b"), Order::Less);
    assert_eq!(order_bytes(b"ab", b"a"), Order::Greater);
    assert_eq!(order_texts("a", "a"), Order::Equal);
    assert_eq!(order_texts("é", "z"), Order::Greater);
}

#[test]
fn grep_finds_lines() {
    let flags = GrepFlags {
        ignore_case: false,
        invert: false,
        line_numbers: true,
        count: false,
        recursive: false,
    };
    let Ok(pattern) = compile_pattern("grep", "a+b", false, 2) else { panic!("compiles") };
    let mut search = GrepSearch::new(flags, "f".to_string(), true);
    assert_eq!(search.search(b"xx\n", &pattern), None);
    assert_eq!(search.search(b"caab\r\n", &pattern), Some("f:2:caab\n".to_string()));
    assert_eq!(search.finish(), None);
    let mut search = GrepSearch::new(GrepFlags { count: true, ..flags }, "f".to_string(), false);
    assert_eq!(search.search(b"ab\n", &pattern), None);
    assert_eq!(search.search(b"AB", &pattern), None);
    assert_eq!(search.finish(), Some("1\n".to_string()));
    let mut inverted = GrepSearch::new(GrepFlags { invert: true, ..flags }, "f".to_string(), false);
    assert_eq!(inverted.search(b"zz", &pattern), Some("1:zz\n".to_string()));
    let Ok(pattern) = compile_pattern("grep", "a+b", true, 2) else { panic!("compiles") };
    let mut search = GrepSearch::new(GrepFlags { count: true, ..flags }, "f".to_string(), true);
    assert_eq!(search.search(b"AB", &pattern), None);
    assert_eq!(search.finish(), Some("f:1\n".to_string()));
}

#[test]
fn grep_arguments_and_statuses() {
    let Ok(plan) = parse_grep_args(&args(&["-in", "p", "f", "-R"])) else { panic!("accepted") };
    assert_eq!(plan.pattern, "p");
    assert_eq!(plan.files, args(&["f"]));
    assert!(plan.flags.ignore_case && plan.flags.line_numbers && plan.flags.recursive);
    let Err(failure) = parse_grep_args(&args(&["-n"])) else { panic!("refused") };
    assert_eq!((failure.message.as_str(), failure.code), ("grep: missing pattern\n", 2));
    let Err(failure) = parse_grep_args(&args(&["-P", "x"])) else { panic!("refused") };
    assert_eq!((failure.message.as_str(), failure.code), ("grep: unsupported option '-P'\n", 2));
    let Err(failure) = compile_pattern("grep", "(", false, 2) else { panic!("refused") };
    assert_eq!(failure.code, 2);
    assert!(failure.message.starts_with("grep: regex parse error"));
    assert!(shows_path(true, 0, 1) && shows_path(false, 2, 1) && shows_path(false, 1, 2));
    assert!(!shows_path(false, 1, 1) && !shows_path(true, 0, 0));
    assert_eq!(file_label("-"), "(standard input)");
    assert_eq!(file_label("f"), "f");
    assert_eq!(grep_status(true, true), 2);
    assert_eq!(grep_status(false, true), 0);
    assert_eq!(grep_status(false, false), 1);
}

fn sed(script: &str, input: &[u8]) -> String {
    let Ok(plan) = parse_sed_args(&args(&[script])) else { panic!("accepted") };
    let out = apply_sed_substitution(input, &plan.pattern, &plan.sub);
    String::from_utf8(out).expect("text")
}

#[test]
fn sed_substitutes() {
    assert_eq!(sed("s/a/b/", b"aa\naa"), "ba\nba");
    assert_eq!(sed("s/a/b/g", b"aa\n"), "bb\n");
    assert_eq!(sed("s/A/[&]/gi", b"xaA\n"), "x[a][A]\n");
    assert_eq!(sed("s/(a)(b)?/\\2\\1/g", b"aba\n"), "baa\n");
    assert_eq!(sed("s|/|\\||g", b"a/b\n"), "a|b\n");
    assert_eq!(sed("s/a/\\&\\t\\n\\z\\\\x/", b"a"), "&\t\nz\\x");
    assert_eq!(sed("s/$/!/", b"a\xff\n"), "a\u{fffd}!\n");
    assert_eq!(sed("s/x*/-/g", b"abc"), "-a-b-c-");
}

#[test]
fn sed_scripts() {
    assert_eq!(
        split_sed_parts("a/b/g", '/'),
        Some(("a".to_string(), "b".to_string(), "g".to_string()))
    );
    assert_eq!(split_sed_parts("a/b", '/'), None);
    let sub = parse_sed_substitution("s,a\\,b,c,gi").expect("accepted");
    assert_eq!(sub.pattern, "a,b");
    assert_eq!(sub.replacement, "c");
    assert!(sub.global && sub.ignore_case);
    assert!(parse_sed_substitution("s/a/b/p").is_none());
    assert!(parse_sed_substitution("y/a/b/").is_none());
    assert!(parse_sed_substitution("s").is_none());
    assert_eq!(validate_sed_replacement("\\1\\2", 3), Ok(()));
    assert_eq!(validate_sed_replacement("\\1\\2", 2), Err(2));
    assert_eq!(validate_sed_replacement("\\\\2", 1), Ok(()));
    let refused = |list: &[&str]| match parse_sed_args(&args(list)) {
        Ok(_) => panic!("refused"),
        Err(failure) => (failure.message, failure.code),
    };
    assert_eq!(refused(&[]), ("sed: missing command\n".to_string(), 1));
    assert_eq!(
        refused(&["p"]),
        (
            "sed: unsupported command; tinysandbox supports s/// with g and i flags\n".to_string(),
            1
        )
    );
    assert_eq!(
        refused(&["s/a/\\1/"]),
        ("sed: invalid reference \\1 on `s' command's RHS\n".to_string(), 1)
    );
    assert!(refused(&["s/(/x/"]).0.starts_with("sed: regex parse error"));
}

#[test]
fn substitution_keeps_what_lies_between_matches() {
    let matches = vec![vec![Some((1, 2))], vec![Some((3, 3))]];
    assert_eq!(substitute(b"abcd", &matches, "<&>"), b"a<b>c<>d".to_vec());
    assert_eq!(substitute(b"abcd", &vec![], "x"), b"abcd".to_vec());
}

#[test]
fn lines_make_up_their_input() {
    let input = b"a\n\nb";
    let lines = lines_with_endings(input);
    assert_eq!(lines, vec![b"a\n".to_vec(), b"\n".to_vec(), b"b".to_vec()]);
    assert_eq!(lines.concat(), input.to_vec());
    assert!(lines_with_endings(b"").is_empty());
    assert_eq!(text_lines("a\r\nb\rc\n\n"), args(&["a", "b\rc", ""]));
    assert_eq!(text_lines_lossy(b"a\xffb\n"), args(&["a\u{fffd}b"]));
    assert_eq!(line_text_lossy(b"a\r\n"), "a");
    assert_eq!(line_text_lossy(b"a\r"), "a");
    assert_eq!(line_text_lossy(b"\xff\n"), "\u{fffd}");
}

#[test]
fn lines_do_not_depend_on_how_they_arrive() {
    let mut reader = LineReader::new();
    assert_eq!(reader.next_line(), NextLine::More);
    assert!(reader.feed(b"ab"));
    assert_eq!(reader.next_line(), NextLine::More);
    assert!(reader.feed(b"c\nd"));
    assert_eq!(reader.next_line(), NextLine::Line(b"abc\n".to_vec()));
    assert_eq!(reader.next_line(), NextLine::More);
    assert!(reader.feed(b""));
    assert_eq!(reader.next_line(), NextLine::Line(b"d".to_vec()));
    assert_eq!(reader.next_line(), NextLine::End);
}

#[test]
fn lines_are_bounded() {
    let mut reader = LineReader::new();
    assert!(reader.feed(&vec![b'x'; MAX_STREAM_LINE_BYTES - 1]));
    assert!(!reader.feed(b"yy"));
    let mut reader = LineReader::new();
    assert!(reader.feed(&vec![b'x'; MAX_STREAM_LINE_BYTES - 1]));
    assert!(reader.feed(b"\nyy"));
    let NextLine::Line(line) = reader.next_line() else { panic!("a line") };
    assert_eq!(line.len(), MAX_STREAM_LINE_BYTES);
}

#[test]
fn stream_errors_are_reported() {
    let missing = VfsError::new(Errno::ENOENT);
    assert_eq!(
        vfs_error_message("cat", "f", missing),
        "cat: f: No such file or directory\n"
    );
    assert_eq!(report_stream_error("cat", "f", StreamError::BrokenPipe), None);
    assert_eq!(
        report_stream_error("cat", "f", StreamError::LineTooLong),
        Some("cat: f: line too long\n".to_string())
    );
    assert_eq!(
        report_stream_error("cat", "f", StreamError::Vfs(missing)),
        Some("cat: f: No such file or directory\n".to_string())
    );
    assert_eq!(
        report_stream_error("cat", "f", StreamError::Other),
        Some("cat: f: Invalid argument\n".to_string())
    );
}

#[test]
fn a_failing_operand_stops_some_commands_and_not_others() {
    let fault = Some(OperandFault::Vfs(VfsError::new(Errno::ENOENT)));
    let said = |cmd: &str| format!("{cmd}: f: No such file or directory\n");
    let mut cat = OperandRun::new(OperandCommand::Cat);
    assert_eq!(cat.after("f", None), OperandStep::Next(None));
    assert_eq!(cat.status(), 0);
    assert_eq!(cat.after("f", fault), OperandStep::Next(Some(said("cat"))));
    assert_eq!(cat.after("g", None), OperandStep::Next(None));
    assert_eq!(cat.status(), 1);
    let mut grep = OperandRun::new(OperandCommand::Grep);
    assert_eq!(grep.after("f", fault), OperandStep::Next(Some(said("grep"))));
    assert_eq!(grep.status(), 2);
    for (command, name, status) in [
        (OperandCommand::Sed, "sed", 2),
        (OperandCommand::Head, "head", 1),
        (OperandCommand::Tail, "tail", 1),
    ] {
        let mut run = OperandRun::new(command);
        assert_eq!(run.after("f", fault), OperandStep::Next(Some(said(name))));
        assert_eq!(run.after("g", None), OperandStep::Next(None));
        assert_eq!(run.status(), status);
    }
    let mut sort = OperandRun::new(OperandCommand::Sort);
    assert_eq!(sort.after("f", fault), OperandStep::Stop(Some(said("sort")), 2));
    let mut uniq = OperandRun::new(OperandCommand::Uniq);
    assert_eq!(uniq.after("f", fault), OperandStep::Stop(Some(said("uniq")), 1));
    let gone = Some(OperandFault::Stream(StreamError::BrokenPipe));
    assert_eq!(grep.after("f", gone), OperandStep::Stop(None, 1));
}

#[test]
fn operands_of_grep() {
    let dir = Metadata { file_type: FileType::Directory, len: 0 };
    let missing = VfsError::new(Errno::ENOENT);
    assert_eq!(grep_operand("d", Ok(dir), true), GrepOperand::Walk);
    assert_eq!(grep_operand("d", Ok(dir), false), GrepOperand::Search);
    assert_eq!(grep_operand("-", Err(missing), true), GrepOperand::Search);
    assert_eq!(
        grep_operand("x", Err(missing), true),
        GrepOperand::Missing("grep: x: No such file or directory\n".to_string())
    );
    assert_eq!(operands_or_stdin(&args(&[])), args(&["-"]));
    assert_eq!(operands_or_stdin(&args(&["a", "b"])), args(&["a", "b"]));
}

#[test]
fn head_and_tail_make_up_the_input() {
    let lines = ["a\n", "b\n", "c"];
    for n in 0..5 {
        let mut all = select(TailCount::Last(n), true, 100, &lines).expect("small");
        all.extend(select(TailCount::From(n + 1), false, 100, &lines).expect("small"));
        assert_eq!(all, args(&lines));
    }
    let end = select(TailCount::Last(2), false, 100, &lines).expect("small");
    assert_eq!(end, args(&lines[1..]));
}

#[test]
fn runs_spell_out_the_lines() {
    let lines = ["a", "a", "b", "a", "a", "a"];
    let mut runs = Runs::new();
    let mut all = Vec::new();
    for line in lines {
        all.extend(runs.push(line.to_string()));
    }
    all.extend(runs.finish());
    assert_eq!(all, vec![("a".to_string(), 2), ("b".to_string(), 1), ("a".to_string(), 3)]);
    let spelled: Vec<&str> =
        all.iter().flat_map(|(line, n)| vec![line.as_str(); *n]).collect();
    assert_eq!(spelled, lines);
}

#[test]
fn lines_without_a_match_are_not_edited() {
    let Ok(plan) = parse_sed_args(&args(&["s/x+/<&>/g"])) else { panic!("accepted") };
    let edit = |input: &[u8]| apply_sed_substitution(input, &plan.pattern, &plan.sub);
    assert_eq!(edit(b"abc\nd"), b"abc\nd");
    assert_eq!(edit(b"axxb x\n"), b"a<xx>b <x>\n");
    let Ok(plan) = parse_sed_args(&args(&["s/x/y/"])) else { panic!("accepted") };
    assert_eq!(apply_sed_substitution(b"xx\n", &plan.pattern, &plan.sub), b"yx\n");
}
