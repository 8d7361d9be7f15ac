use jaq_json::Val;
use tinysandbox::builtins::StreamError;
use jaq_core::load::lex::{Expect, Lexer};
use tinysandbox::jq::bounds::{
    fault_message, is_jq_ident_continue, is_jq_ident_start, validate_filter_source,
    validate_jq_json, validate_jq_json_keys, validate_jq_json_nesting, FilterFault,
    MAX_JQ_FILTER_NESTING, MAX_JQ_FILTER_SOURCE_BYTES, MAX_JQ_FILTER_SYNTAX_TOKENS,
    MAX_JQ_JSON_NESTING, MAX_JQ_OUTPUT_NESTING,
};
use tinysandbox::jq::options::{
    is_jq_var_name, parse_jq_args, parse_jq_indent, JqOptions, JqVariable,
};
use tinysandbox::jq::policy::{filter_contains_user_def, term_contains_user_def};
use tinysandbox::jq::run::{
    argjson_error, can_sort_keys, check_printable, compile_with_vars, format_value,
    input_error_message, input_paths, jq_error_outcome, jq_exception_to_error, jq_exit_code,
    jq_output_error_outcome, jq_parse_error_outcome, jq_truthy, nesting_within, parse_variables,
    plan_inputs, prepare_run, print_style, push_jq_input, read_values, take_input, tell_apart,
    Exception, JqError, JqInputError, JqInputSource, JqInputs, JqNumber, JqRun, JqRunDone, JqValue,
    PrintStyle, ShownException,
};
use tinysandbox::vfs::{Errno, VfsError};

fn args(list: &[&str]) -> Vec<String> {
    list.iter().map(|arg| arg.to_string()).collect()
}

fn options(list: &[&str]) -> JqOptions {
    parse_jq_args(&args(list)).expect("accepted")
}

fn refused(list: &[&str]) -> String {
    parse_jq_args(&args(list)).expect_err("refused")
}

fn compile(filter: &str) -> Result<(), JqError> {
    compile_with_vars(filter, &vec![])
}

fn source(path: &str, data: &str) -> JqInputSource {
    JqInputSource { path: path.to_string(), data: data.as_bytes().to_vec() }
}

#[test]
fn classifies_compile_errors() {
    let Err(err) = compile(".[") else {
        panic!("invalid jq filter unexpectedly compiled");
    };
    assert!(matches!(err, JqError::Compile(_)));
}

#[test]
fn rejects_user_defined_filters() {
    let Err(err) = compile("def f: f + 1; f") else {
        panic!("user-defined jq filter unexpectedly compiled");
    };
    assert_eq!(
        err,
        JqError::Compile("user-defined jq functions are not supported in tinysandbox".to_owned())
    );
}

#[test]
fn rejects_deep_filter_source_before_jaq_parse() {
    let filter = format!(
        "{}0{}",
        "[".repeat(MAX_JQ_FILTER_NESTING + 1),
        "]".repeat(MAX_JQ_FILTER_NESTING + 1)
    );

    let Err(err) = compile(&filter) else {
        panic!("deep jq filter unexpectedly compiled");
    };
    assert_eq!(
        err,
        JqError::Compile(format!(
            "jq filter nesting exceeds maximum depth {MAX_JQ_FILTER_NESTING}"
        ))
    );
}

#[test]
fn rejects_deep_recursion_driving_filter_source_before_jaq_parse() {
    let filters = [
        ("unary minus", format!("{}0", "-".repeat(MAX_JQ_FILTER_SYNTAX_TOKENS + 1))),
        ("try", format!("{}0", "try ".repeat(MAX_JQ_FILTER_SYNTAX_TOKENS + 1))),
        ("alt", format!("1{}", "//1".repeat(MAX_JQ_FILTER_SYNTAX_TOKENS + 1))),
        ("pipe", vec!["."; MAX_JQ_FILTER_SYNTAX_TOKENS + 2].join("|")),
    ];

    for (name, filter) in filters {
        let Err(err) = compile(&filter) else {
            panic!("{name} jq filter unexpectedly compiled");
        };
        assert_eq!(
            err,
            JqError::Compile(format!(
                "jq filter complexity exceeds maximum token count {MAX_JQ_FILTER_SYNTAX_TOKENS}"
            )),
            "{name}"
        );
    }
}

#[test]
fn compiles_realistic_filter_under_source_bounds() {
    compile(
        r#"
            .teams
            | map({
                team: .name,
                active: (.members | map(select(.active)) | length),
                names: (.members | map(.name) | sort)
              })
            | sort_by(.team)
            "#,
    )
    .expect("realistic jq filter should compile");
}

#[test]
fn rejects_deep_filter_source_inside_string_interpolation() {
    let filter = format!(
        r#""\({}0{})""#,
        "(".repeat(MAX_JQ_FILTER_NESTING + 1),
        ")".repeat(MAX_JQ_FILTER_NESTING + 1)
    );

    let Err(err) = compile(&filter) else {
        panic!("deep jq interpolation unexpectedly compiled");
    };
    assert_eq!(
        err,
        JqError::Compile(format!(
            "jq filter nesting exceeds maximum depth {MAX_JQ_FILTER_NESTING}"
        ))
    );
}

#[test]
fn filter_source_nesting_ignores_strings_comments_and_escapes() {
    let nested_text = "[".repeat(MAX_JQ_FILTER_NESTING + 1);
    validate_filter_source(&format!(r#""{nested_text}""#)).unwrap();

    let comment = format!("# {}\n1", "(".repeat(MAX_JQ_FILTER_NESTING + 1));
    validate_filter_source(&comment).unwrap();

    let escaped_interpolation = format!(r#""{}""#, r"\\(".repeat(MAX_JQ_FILTER_NESTING + 1));
    validate_filter_source(&escaped_interpolation).unwrap();
}

#[test]
fn definitions_are_found_wherever_they_hide() {
    for filter in [
        "def f: 1; f",
        ".a | (def f: 1; f)",
        "[def f: 1; f]",
        "{a: (def f: 1; f)}",
        "{(def f: \"a\"; f): 1}",
        "\"x\\(def f: 1; f)\"",
        "-(def f: 1; f)",
        "label $x | (def f: 1; f)",
        "try (def f: 1; f) catch .",
        "try error catch (def f: 1; f)",
        "if (def f: 1; f) then 1 else 2 end",
        "if 1 then 1 else (def f: 1; f) end",
        "reduce (def f: 1; f) as $x (0; .)",
        "reduce .[] as $x (0; def f: 1; f)",
        "map(def f: 1; f)",
        ".[(def f: 1; f)]",
        ".[:(def f: 1; f)]",
        ". as {(def f: \"a\"; f): $x} | $x",
    ] {
        assert!(validate_filter_source(filter).is_ok(), "{filter}");
        assert!(filter_contains_user_def(filter), "{filter}");
        assert!(compile(filter).is_err(), "{filter}");
    }
    for filter in [".def", "{def: 1}", "\"def f: 1; f\"", ". as [$x] | $x", "..", ".[1:2]"] {
        assert!(!filter_contains_user_def(filter), "{filter}");
        assert!(compile(filter).is_ok(), "{filter}");
    }
    assert!(!filter_contains_user_def(".["));
    let term = jaq_core::load::parse("[.[] | (def f: 1; f)]", |parser| parser.term());
    assert!(term_contains_user_def(&term.expect("parses")));
}

#[test]
fn global_variables_must_be_declared() {
    assert!(compile("$name").is_err());
    assert!(compile_with_vars("$name", &args(&["$name"])).is_ok());
}

#[test]
fn sources_and_documents_are_bounded() {
    let long = " ".repeat(MAX_JQ_FILTER_SOURCE_BYTES);
    assert!(validate_filter_source(&long).is_ok());
    assert_eq!(validate_filter_source(&format!("{long} ")), Err(FilterFault::TooLong));
    assert_eq!(
        fault_message(FilterFault::TooLong),
        "jq filter source exceeds maximum size 262144 bytes"
    );
    let deepest = "[".repeat(MAX_JQ_JSON_NESTING);
    assert_eq!(validate_jq_json_nesting(deepest.as_bytes()), Ok(()));
    assert_eq!(
        validate_jq_json_nesting(format!("{deepest}{{").as_bytes()),
        Err("JSON nesting exceeds maximum depth 1024")
    );
    assert_eq!(validate_jq_json_nesting(format!("\"{deepest}[\"").as_bytes()), Ok(()));
    assert!(is_jq_ident_start('_') && !is_jq_ident_start('1'));
    assert!(is_jq_ident_continue('1') && !is_jq_ident_continue('-'));
}

#[test]
fn comments_go_on_behind_an_odd_number_of_backslashes() {
    let deep = "[".repeat(MAX_JQ_FILTER_NESTING + 1);
    let minus = "-".repeat(MAX_JQ_FILTER_SYNTAX_TOKENS + 1);
    for line in ["# \\", "# \\\r", "#\\\\\\", "# a \\\n\\"] {
        let hidden = format!("{line}\n\"\n{deep}");
        assert_eq!(validate_filter_source(&hidden), Err(FilterFault::TooDeep), "{line:?}");
        let hidden = format!("{line}\n\"\n{minus}0");
        assert_eq!(validate_filter_source(&hidden), Err(FilterFault::TooComplex), "{line:?}");
        assert!(compile(&format!("{line}\n [ \" \n1")).is_ok(), "{line:?}");
    }
    for line in ["# \\\\", "# \\ ", "# \\\r\r", "#"] {
        let text = format!("{line}\n\"{deep}\"");
        assert_eq!(validate_filter_source(&text), Ok(()), "{line:?}");
        assert!(compile(&text).is_ok(), "{line:?}");
    }
    assert_eq!(validate_filter_source(&format!("1 # \\\n{deep}")), Ok(()));
    assert!(compile(&format!("1 # \\\n{deep}")).is_ok());
}

#[test]
fn a_text_goes_on_behind_a_broken_interpolation() {
    let deep = "[".repeat(MAX_JQ_FILTER_NESTING + 1);
    for start in [
        "\"\\(]\"", "\"\\(}\"", "\"\\(&\"", "\"\\([}\"", "\"\\(([)~\"", "\"\\(\\n\"", "\"\\(\\\"\"",
        "\"\\(([))\"", "\"\\( \u{b}\u{2003}1)\"", "\"\\(\u{e9}\"",
    ] {
        let hidden = format!("{start}{deep}");
        assert_eq!(validate_filter_source(&hidden), Err(FilterFault::TooDeep), "{start:?}");
        assert_eq!(validate_filter_source(&format!("{start}\"{deep}")), Ok(()), "{start:?}");
        assert!(compile(&format!("{start}\"{deep}")).is_err(), "{start:?}");
    }
    // what is no escape counts, and what is one does not
    let many = |escape: &str| format!("\"{}\"", escape.repeat(MAX_JQ_FILTER_SYNTAX_TOKENS + 1));
    for escape in ["\\n", "\\\\", "\\u00e9", "\\ud7ff", "\\uE000"] {
        assert_eq!(validate_filter_source(&many(escape)), Ok(()), "{escape}");
        assert!(compile(&many(escape)).is_ok(), "{escape}");
    }
    for escape in ["\\q", "\\u12", "\\ud800", "\\uDFFF"] {
        assert_eq!(validate_filter_source(&many(escape)), Err(FilterFault::TooComplex), "{escape}");
        assert!(compile(&format!("\"{escape}\"")).is_err(), "{escape}");
    }
}

#[test]
fn options_are_read() {
    let o = options(&["-rnc", "-S", ".a", "f", "-", "-e"]);
    assert!(o.raw_output && o.null_input && o.compact_output && o.sort_keys);
    assert!(!o.exit_status);
    assert_eq!(o.filter, ".a");
    assert_eq!(o.files, args(&["f", "-", "-e"]));
    assert_eq!(o.indent, "  ");
    assert_eq!(options(&["--tab", "."]).indent, "\t");
    assert_eq!(options(&["--indent", "4", "."]).indent, "    ");
    let o = options(&["-j", "."]);
    assert!(o.join_output && o.raw_output);
    let o = options(&["--arg", "a", "1", "--argjson", "b", "2", "."]);
    assert_eq!(
        o.vars,
        vec![
            JqVariable { name: "$a".to_string(), value: "1".to_string(), json: false },
            JqVariable { name: "$b".to_string(), value: "2".to_string(), json: true },
        ]
    );
    let o = options(&["--", "-r", "-s"]);
    assert_eq!(o.filter, "-r");
    assert_eq!(o.files, args(&["-s"]));
    assert_eq!(refused(&[]), "jq: missing filter\n");
    assert_eq!(refused(&["-rq", "."]), "jq: unsupported option '-q'\n");
    assert_eq!(refused(&["--color", "."]), "jq: unsupported option '--color'\n");
    assert_eq!(refused(&["--indent"]), "jq: option --indent requires an argument\n");
    assert!(options(&["--indent", "0", "."]).compact_output);
    assert!(refused(&["--arg", "a"]).starts_with("jq: "));
    assert!(refused(&["--indent", "x", "."]).starts_with("jq: "));
    assert!(is_jq_var_name("a1") && !is_jq_var_name("1a") && !is_jq_var_name(""));
    assert_eq!(parse_jq_indent("0"), Ok(String::new()));
    assert!(parse_jq_indent("99").is_err());
}

#[test]
fn variables_are_texts_or_json() {
    let var = |value: &str, json: bool| JqVariable {
        name: "$x".to_string(),
        value: value.to_string(),
        json,
    };
    let values = parse_variables(&vec![var("[1]", false), var("[1]", true)]).expect("valid");
    assert_eq!(values.len(), 2);
    assert_eq!(values[0], Val::utf8_str("[1]".to_string()));
    assert!(matches!(&values[1], Val::Arr(items) if items.len() == 1));
    let message = parse_variables(&vec![var("[", true)]).expect_err("refused");
    assert!(message.starts_with("jq: invalid JSON for --argjson x: "));
    let deep = "[".repeat(MAX_JQ_JSON_NESTING + 1);
    assert_eq!(
        parse_variables(&vec![var(&deep, true)]).expect_err("refused"),
        "jq: invalid JSON for --argjson x: JSON nesting exceeds maximum depth 1024\n"
    );
    assert_eq!(argjson_error("$$y", "bad"), "jq: invalid JSON for --argjson y: bad\n");
}

#[test]
fn values_are_read_up_to_the_first_failure() {
    let (values, failure) = read_values(&vec![source("a", "1 [2]"), source("b", "true")]);
    assert_eq!(values.len(), 3);
    assert_eq!(values[2], Val::Bool(true));
    assert_eq!(failure, None);
    let (values, failure) = read_values(&vec![source("a", "null ["), source("b", "3")]);
    assert_eq!(values, vec![Val::Null]);
    let failure = failure.expect("does not parse");
    assert_eq!(failure.exit_code, 5);
    assert!(failure.stderr.starts_with("jq: a: parse error: "));
}

#[test]
fn inputs_depend_on_the_options() {
    let sources = vec![source("a", "1 2"), source("b", "3")];
    assert!(matches!(plan_inputs(&options(&["-n", "."]), &sources), JqInputs::Null));
    let JqInputs::Each(values, None) = plan_inputs(&options(&["."]), &sources) else {
        panic!("each")
    };
    assert_eq!(values.len(), 3);
    let JqInputs::Slurped(values) = plan_inputs(&options(&["-s", "."]), &sources) else {
        panic!("slurped")
    };
    assert_eq!(values.len(), 3);
    let broken = vec![source("a", "1 {")];
    assert!(matches!(plan_inputs(&options(&["-s", "."]), &broken), JqInputs::Refused(_)));
    let JqInputs::Each(values, Some(_)) = plan_inputs(&options(&["."]), &broken) else {
        panic!("each")
    };
    assert_eq!(values.len(), 1);
    assert_eq!(input_paths(&options(&["."])), args(&["-"]));
    assert_eq!(input_paths(&options(&[".", "f", "-"])), args(&["f", "-"]));
    assert!(input_paths(&options(&["-n", ".", "f"])).is_empty());
}

#[test]
fn inputs_are_bounded_together() {
    let mut data = Vec::new();
    assert_eq!(take_input(3, 8, &mut data, b"abcde"), Some(8));
    assert_eq!(data, b"abcde".to_vec());
    assert_eq!(take_input(8, 8, &mut data, b"f"), None);
    assert_eq!(data, b"abcde".to_vec());
    let mut inputs = Vec::new();
    assert!(push_jq_input(&mut inputs, "a".to_string(), b"[1]".to_vec()).is_ok());
    let deep = "[".repeat(MAX_JQ_JSON_NESTING + 1).into_bytes();
    assert_eq!(
        push_jq_input(&mut inputs, "b".to_string(), deep),
        Err(JqInputError::JsonDepth { path: "b".to_string() })
    );
    assert_eq!(inputs, vec![source("a", "[1]")]);
}

#[test]
fn input_errors_have_words() {
    let path = || "f".to_string();
    assert_eq!(
        input_error_message(&JqInputError::Vfs { path: path(), err: VfsError::new(Errno::ENOENT) }),
        "jq: f: No such file or directory\n"
    );
    assert_eq!(
        input_error_message(&JqInputError::JsonDepth { path: path() }),
        "jq: f: JSON nesting exceeds maximum depth 1024\n"
    );
    assert_eq!(
        input_error_message(&JqInputError::TooLarge { path: path() }),
        "jq: f: input too large for tinysandbox jq\n"
    );
    assert_eq!(
        input_error_message(&JqInputError::Read { path: path(), cause: StreamError::BrokenPipe }),
        "jq: read error\n"
    );
    assert_eq!(
        input_error_message(&JqInputError::Read { path: path(), cause: StreamError::LineTooLong }),
        "jq: f: line too long\n"
    );
}

#[test]
fn outcomes_have_statuses() {
    let done = |exit_code: i32, stderr: &str| JqRunDone { exit_code, stderr: stderr.to_string() };
    assert_eq!(
        jq_error_outcome(&JqError::Compile("x".to_string())),
        done(3, "jq: compile error: x\n")
    );
    assert_eq!(
        jq_error_outcome(&JqError::Runtime("x".to_string())),
        done(5, "jq: runtime error: x\n")
    );
    assert_eq!(jq_error_outcome(&JqError::Halt(7)), done(7, "jq: halted with exit code 7\n"));
    assert_eq!(jq_parse_error_outcome("f", "x"), done(5, "jq: f: parse error: x\n"));
    assert_eq!(jq_output_error_outcome("x"), done(5, "jq: output error: x\n"));
    assert_eq!(jq_exit_code(false, Some(false)), 0);
    assert_eq!(jq_exit_code(true, Some(true)), 0);
    assert_eq!(jq_exit_code(true, Some(false)), 1);
    assert_eq!(jq_exit_code(true, None), 4);
}

#[test]
fn outputs_are_printed_as_the_options_say() {
    let text = Val::utf8_str("a\"b".to_string());
    let (values, _) = read_values(&vec![source("a", "{\"b\":[1],\"a\":null}")]);
    let print = |list: &[&str], value: &Val| {
        let mut run = JqRun::new();
        let bytes = run.output(value, &options(list)).expect("prints");
        String::from_utf8(bytes).expect("text")
    };
    assert_eq!(print(&["."], &text), "\"a\\\"b\"\n");
    assert_eq!(print(&["-r", "."], &text), "a\"b\n");
    assert_eq!(print(&["-j", "."], &text), "a\"b");
    assert_eq!(print(&["-c", "."], &values[0]), "{\"b\":[1],\"a\":null}\n");
    assert_eq!(print(&["-cS", "."], &values[0]), "{\"a\":null,\"b\":[1]}\n");
    assert_eq!(
        print(&["."], &values[0]),
        "{\n  \"b\": [\n    1\n  ],\n  \"a\": null\n}\n"
    );
    assert_eq!(
        print_style(&options(&["--tab", "-S", "."])),
        PrintStyle { indent: Some("\t".to_string()), sort_keys: true, sep_space: true }
    );
    assert_eq!(
        format_value(&JqValue::Number(JqNumber::Int(1)), &b"1".to_vec(), &options(&["-r", "."])),
        b"1\n".to_vec()
    );
    assert_eq!(
        format_value(&JqValue::Text(b"t".to_vec()), &b"\"t\"".to_vec(), &options(&["."])),
        b"\"t\"\n".to_vec()
    );
}

#[test]
fn the_last_output_decides_the_status() {
    let with_status = options(&["-e", "."]);
    let mut run = JqRun::new();
    assert_eq!(run.finish(&with_status).exit_code, 4);
    run.output(&Val::Bool(true), &with_status).expect("prints");
    assert_eq!(run.finish(&with_status).exit_code, 0);
    run.output(&Val::Null, &with_status).expect("prints");
    assert_eq!(run.finish(&with_status).exit_code, 1);
    assert_eq!(run.finish(&options(&["."])).exit_code, 0);
    run.note(&JqValue::Number(JqNumber::Int(1)));
    assert_eq!(run.last_output, Some(true));
    assert!(jq_truthy(&JqValue::Text(vec![])));
    assert!(!jq_truthy(&JqValue::Bool(false)) && !jq_truthy(&JqValue::Null));
}

#[test]
fn exceptions_are_told_apart() {
    let error = jaq_core::Error::str("cannot go on");
    let failed: jaq_core::Exn<'_, jaq_json::Val> = jaq_core::Exn::from(error);
    let Exception::Error(error) = tell_apart(failed) else { panic!("an error") };
    assert_eq!(
        jq_exception_to_error(ShownException::Error(error.to_string())),
        JqError::Runtime("\"cannot go on\"".to_string())
    );
    let halted: jaq_core::Exn<'_, jaq_json::Val> = jaq_core::Exn::halt(3);
    let Exception::Halt(code) = tell_apart(halted) else { panic!("a status") };
    assert_eq!(jq_exception_to_error(ShownException::Halt(code)), JqError::Halt(3));
    let other = ShownException::Other("Break".to_string());
    assert_eq!(jq_exception_to_error(other), JqError::Runtime("Break".to_string()));
}

fn read_one(json: &str) -> Val {
    let (mut values, failure) = read_values(&vec![source("-", json)]);
    assert!(failure.is_none());
    values.pop().expect("a value")
}

fn nested(levels: usize) -> Val {
    let mut value = Val::Null;
    for _ in 0..levels {
        value = Val::Arr(vec![value].into());
    }
    value
}

#[test]
fn only_values_that_do_not_nest_too_deep_are_printed() {
    assert!(nesting_within(&Val::Null, 0));
    assert!(!nesting_within(&nested(1), 0));
    assert!(nesting_within(&read_one("{\"a\": [1, {}]}"), 3));
    assert!(!nesting_within(&read_one("{\"a\": [1, {}]}"), 2));
    let compact = options(&["-c", "."]);
    let mut run = JqRun::new();
    let printed = run.output(&nested(128), &compact).expect("prints");
    assert_eq!(printed, ("[".repeat(128) + "null" + &"]".repeat(128) + "\n").into_bytes());
    assert!(check_printable(&nested(MAX_JQ_OUTPUT_NESTING), true).is_ok());
    let done = run.output(&nested(MAX_JQ_OUTPUT_NESTING + 1), &compact).expect_err("too deep");
    assert_eq!(done.exit_code, 5);
    assert_eq!(done.stderr, "jq: output error: value nests too deep to be printed\n");
    assert_eq!(run.last_output, Some(true));
}

#[test]
fn only_keys_with_an_order_are_sorted() {
    let sorted = options(&["-c", "-S", "."]);
    let mut run = JqRun::new();
    let value = read_one("{\"b\": 1, \"a\": {\"d\": 2, \"c\": 3}}");
    assert_eq!(
        run.output(&value, &sorted).expect("prints"),
        b"{\"a\":{\"c\":3,\"d\":2},\"b\":1}\n".to_vec()
    );
    assert_eq!(
        run.output(&read_one("{2: 0, 1.5: 0}"), &sorted).expect("prints"),
        b"{1.5:0,2:0}\n".to_vec()
    );
    let broken = read_one("[{NaN: 1, 1: 2}]");
    assert!(!can_sort_keys(&broken, 8));
    assert!(can_sort_keys(&read_one("[{\"k\": NaN}]"), 8));
    assert!(!can_sort_keys(&read_one("{9007199254740993: 1, 0.5: 2}"), 8));
    assert!(can_sort_keys(&read_one("{9007199254740993: 1, 5: 2}"), 8));
    let done = run.output(&broken, &sorted).expect_err("no order");
    assert_eq!(done.stderr, "jq: output error: keys of an object cannot be sorted\n");
    assert!(check_printable(&broken, false).is_ok());
    assert!(run.output(&broken, &options(&["-c", "."])).is_ok());
}

#[test]
fn keys_without_an_order_are_refused() {
    let said = "JSON object keys cannot be arrays or objects beside numbers that are not whole";
    for json in ["{{}: 1.5}", "{[NaN] : 2}", "[{[{}] # a comment: 1\n : 2e3}]", "{{1E2: 1}: 1}"] {
        assert_eq!(validate_jq_json_keys(json.as_bytes()), Err(said));
        assert_eq!(validate_jq_json(json.as_bytes()), Err(said));
        let mut inputs = vec![];
        assert_eq!(
            push_jq_input(&mut inputs, "f".to_string(), json.as_bytes().to_vec()),
            Err(JqInputError::JsonKey { path: "f".to_string() })
        );
        assert!(inputs.is_empty());
    }
    for json in ["{\"a]\": [0.1]}", "{1: {\"}\": 2.5}}", "[] {\"b\":{}}", "[\"]:\", 0.5]"] {
        assert!(validate_jq_json(json.as_bytes()).is_ok());
    }
    for json in ["{{}: 1}", "{[1, true, false] : \"2.5 NaN\"}", "{{1: 2, 0: {}}: -1} # 0.5"] {
        assert!(validate_jq_json(json.as_bytes()).is_ok(), "{json}");
        let (values, failure) = read_values(&vec![source("f", json)]);
        assert_eq!((values.len(), failure), (1, None), "{json}");
    }
    assert_eq!(
        input_error_message(&JqInputError::JsonKey { path: "f".to_string() }),
        "jq: f: JSON object keys cannot be arrays or objects beside numbers that are not whole\n"
    );
    let vars = options(&["--argjson", "x", "{[]:1.5}", "."]).vars;
    assert_eq!(
        parse_variables(&vars).expect_err("refused"),
        "jq: invalid JSON for --argjson x: JSON object keys cannot be arrays or objects beside numbers that are not whole\n"
    );
}

#[test]
fn variables_are_read_before_the_filter_compiles() {
    let done = prepare_run(&options(&["--argjson", "x", "{", "]["])).expect_err("refused");
    assert_eq!(done.exit_code, 2);
    assert!(done.stderr.starts_with("jq: invalid JSON for --argjson x: "));
    let done = prepare_run(&options(&["--argjson", "x", "1", "]["])).expect_err("refused");
    assert_eq!(done.exit_code, 3);
    assert!(done.stderr.starts_with("jq: compile error: "));
    let values = prepare_run(&options(&["--arg", "y", "t", "$y"])).expect("ready");
    assert_eq!(values, vec![Val::utf8_str("t".to_string())]);
}

#[test]
fn what_the_lexer_recurses_on_is_counted() {
    // how many brackets behind a start the lexer goes into: each is left open, which is an error
    let entered = |source: &str| match Lexer::new(source).lex() {
        Ok(_) => 0,
        Err(errors) => {
            errors.iter().filter(|(expected, _)| matches!(expected, Expect::Delim("["))).count()
        }
    };
    let deep = "[".repeat(MAX_JQ_FILTER_NESTING + 1);
    let parts = ["\"", "\\", "(", ")", "[", "]", "#", "\n", "&", "\r"];
    let mut starts = vec![String::new()];
    let mut next = 0;
    while next < starts.len() {
        let start = starts[next].clone();
        if entered(&format!("{start}{}", "[".repeat(9))) >= 9 {
            let filter = format!("{start}{deep}");
            assert_eq!(validate_filter_source(&filter), Err(FilterFault::TooDeep), "{start:?}");
        }
        if start.len() < 4 {
            starts.extend(parts.iter().map(|part| format!("{start}{part}")));
        }
        next += 1;
    }
    assert_eq!(starts.len(), 11_111);
}

#[test]
fn nested_sources_are_parsed_and_compiled() {
    let nested = |open: &str, close: &str| format!("{}0{}", open.repeat(48), close.repeat(48));
    assert!(compile(&nested("[", "]")).is_ok());
    assert!(compile(&nested("(", ")")).is_ok());
    assert!(compile(&nested("\"\\(", ")\"")).is_ok());
    assert!(compile(&nested("[", "")).is_err());
    assert!(compile(&nested("\"\\(", "")).is_err());
    assert!(compile(&format!("{}0", "-".repeat(48))).is_ok());
    assert!(compile(&format!("{}0", "try ".repeat(48))).is_ok());
    assert!(compile(&vec!["."; 48].join("|")).is_ok());
}
