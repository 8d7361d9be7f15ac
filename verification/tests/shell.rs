use tinysandbox::shell::lex::{lex, Token, TokenKind};
use tinysandbox::shell::parse::parse;
use tinysandbox::shell::{
    AndOrOp, Command, ParseErrorKind, Program, QuoteKind, RedirectOp, RedirectTarget, Segment,
    SimpleCommand, UnsupportedConstruct,
};

fn only_command(program: &Program) -> &Command {
    let [list] = program.lists.as_slice() else {
        panic!("expected one list: {program:?}");
    };
    let [command] = list.first.commands.as_slice() else {
        panic!("expected one command: {program:?}");
    };

    command
}

fn simple(input: &str) -> SimpleCommand {
    let program = parse(input).expect("parse should succeed");
    let Command::Simple(command) = only_command(&program);
    command.clone()
}

fn literal(value: &str, quoted: bool) -> Segment {
    Segment::Literal { value: value.to_owned(), quoted }
}

#[test]
fn newline_separates_commands_and_comments_end_at_newline() {
    let tokens = lex("echo a # comment\necho b").expect("lex should succeed");

    assert!(matches!(tokens[0].kind, TokenKind::Word(_)));
    assert!(matches!(tokens[1].kind, TokenKind::Word(_)));
    assert_eq!(tokens[2].kind, TokenKind::Newline);
    assert!(matches!(tokens[3].kind, TokenKind::Word(_)));
    assert!(matches!(tokens[4].kind, TokenKind::Word(_)));
}

#[test]
fn quoted_empty_is_preserved_before_bare_expansion() {
    let tokens = lex("\"\"$X $X").expect("lex should succeed");
    let [Token { kind: TokenKind::Word(first), .. }, Token { kind: TokenKind::Word(second), .. }] =
        tokens.as_slice()
    else {
        panic!("unexpected tokens: {tokens:?}");
    };

    assert_eq!(
        first.segments,
        vec![
            Segment::Literal { value: String::new(), quoted: true },
            Segment::Expansion { name: "X".to_owned(), quoted: false },
        ]
    );
    assert_eq!(
        second.segments,
        vec![Segment::Expansion { name: "X".to_owned(), quoted: false }]
    );
}

#[test]
fn line_continuation_alone_does_not_create_an_empty_word() {
    let tokens = lex("echo a \\\n b").expect("lex should succeed");
    let words = tokens.iter().filter(|token| matches!(token.kind, TokenKind::Word(_))).count();

    assert_eq!(words, 3);
}

#[test]
fn trailing_unquoted_backslash_at_eof_is_dropped() {
    let tokens = lex("echo \\").expect("lex should succeed");
    let words = tokens.iter().filter(|token| matches!(token.kind, TokenKind::Word(_))).count();

    assert_eq!(words, 1);
}

#[test]
fn carriage_return_stays_inside_words() {
    let tokens = lex("echo a\rb").expect("lex should succeed");
    let TokenKind::Word(word) = &tokens[1].kind else {
        panic!("unexpected tokens: {tokens:?}");
    };

    assert_eq!(
        word.segments,
        vec![Segment::Literal { value: "a\rb".to_owned(), quoted: false }]
    );
}

#[test]
fn fd_dup_rejects_trailing_word_characters() {
    let error = lex("cmd 2>&1x").expect_err("ambiguous redirect should fail");

    assert_eq!(error.position, 5);
    assert_eq!(error.kind, ParseErrorKind::AmbiguousRedirect);
}

#[test]
fn bare_assignment_is_a_simple_command_without_words() {
    let program = parse("VAR=x").expect("parse should succeed");
    let command = only_command(&program);
    let Command::Simple(command) = command;

    assert_eq!(command.assignments.len(), 1);
    assert_eq!(command.assignments[0].name, "VAR");
    assert!(command.words.is_empty());
}

#[test]
fn quoted_assignment_like_words_are_not_assignments() {
    for input in ["'a=b'", "\"a\"=b", "a\\=b"] {
        let program = parse(input).expect("parse should succeed");
        let command = only_command(&program);
        let Command::Simple(command) = command;

        assert!(command.assignments.is_empty(), "input: {input}");
        assert_eq!(command.words.len(), 1, "input: {input}");
    }
}

#[test]
fn append_assignment_is_rejected_in_assignment_position() {
    let error = parse("VAR+=x").expect_err("append assignment should fail");

    assert_eq!(error.position, 3);
    assert_eq!(
        error.kind,
        ParseErrorKind::Unsupported(UnsupportedConstruct::AppendAssignment)
    );
}

#[test]
fn blank_newlines_do_not_create_empty_commands() {
    let program = parse("\n\necho a\n\n").expect("parse should succeed");

    assert_eq!(program.lists.len(), 1);
}

#[test]
fn lists_pipelines_and_operators_keep_their_order() {
    let program = parse("a | b && c || d; e").expect("parse should succeed");
    assert_eq!(program.lists.len(), 2);
    assert_eq!(program.lists[0].first.commands.len(), 2);
    assert_eq!(program.lists[0].rest.len(), 2);
    assert_eq!(program.lists[0].rest[0].op, AndOrOp::And);
    assert_eq!(program.lists[0].rest[1].op, AndOrOp::Or);
    assert_eq!(program.lists[1].first.commands.len(), 1);
}

#[test]
fn redirects_carry_descriptors_operators_and_targets() {
    let command = simple("cmd < in > out 2>> log 2>&1");
    let ops: Vec<RedirectOp> = command.redirects.iter().map(|r| r.op).collect();
    assert_eq!(
        ops,
        vec![RedirectOp::Read, RedirectOp::Write, RedirectOp::Append, RedirectOp::Write]
    );
    assert_eq!(command.redirects[2].fd, Some(2));
    assert_eq!(command.redirects[3].fd, Some(2));
    assert_eq!(command.redirects[3].target, RedirectTarget::Fd(1));
    let RedirectTarget::Word(word) = &command.redirects[0].target else {
        panic!("expected a word");
    };
    assert_eq!(word.segments, vec![literal("in", false)]);
}

#[test]
fn single_quotes_keep_every_character() {
    let command = simple("'a $X \\ \" b'");
    assert_eq!(command.words[0].segments, vec![literal("a $X \\ \" b", true)]);
}

#[test]
fn each_unsupported_construct_is_named() {
    let cases = [
        ("ls *", UnsupportedConstruct::Glob),
        ("echo $(x)", UnsupportedConstruct::CommandSubstitution),
        ("echo `x`", UnsupportedConstruct::Backticks),
        ("a &", UnsupportedConstruct::Background),
        ("(a)", UnsupportedConstruct::Subshell),
        ("cat << E", UnsupportedConstruct::Heredoc),
        ("ls ~", UnsupportedConstruct::TildeExpansion),
    ];
    for (input, construct) in cases {
        let error = parse(input).expect_err(input);
        assert_eq!(error.kind, ParseErrorKind::Unsupported(construct), "{input}");
    }
}

#[test]
fn errors_tell_what_is_missing_and_where() {
    let unterminated = parse("echo 'a").expect_err("quote");
    assert_eq!(
        unterminated.kind,
        ParseErrorKind::UnterminatedQuote { quote: QuoteKind::Single }
    );
    assert_eq!(unterminated.position, 5);
    let target = parse("echo >").expect_err("target");
    assert_eq!(target.kind, ParseErrorKind::MissingRedirectTarget);
    let brace = parse("echo ${X").expect_err("brace");
    assert_eq!(brace.kind, ParseErrorKind::UnterminatedBracedExpansion);
    let eof = parse("a &&").expect_err("eof");
    assert!(matches!(eof.kind, ParseErrorKind::UnexpectedEof { .. }));
    let token = parse("| a").expect_err("token");
    assert!(matches!(token.kind, ParseErrorKind::UnexpectedToken { .. }));
}

#[test]
fn error_positions_are_bytes_inside_the_input() {
    for input in ["é 'x", "echo é | | b", "éé=1 `", "a 2>&9x", "${", "echo \"é"] {
        if let Err(error) = parse(input) {
            assert!(error.position <= input.len(), "{input}");
            assert!(input.is_char_boundary(error.position), "{input}");
        }
    }
}

#[test]
fn tokens_start_in_increasing_order() {
    let tokens = lex("a|b && c > d\n'é' \"$X\"").expect("lex should succeed");
    for pair in tokens.windows(2) {
        assert!(pair[0].position < pair[1].position);
        assert!(pair[0].start < pair[1].start);
    }
}

#[test]
fn messages_name_the_position() {
    let error = parse("echo 'a").expect_err("quote");
    assert!(error.message().contains('5'), "{}", error.message());
}

#[test]
fn newlines_in_front_change_nothing() {
    for line in ["a | b; c && d", "", "# nothing", "A=1 x 2> f"] {
        assert_eq!(parse(&format!("\n\n{line}")), parse(line), "{line}");
    }
    let error = parse("\n\na | ;").expect_err("refused");
    let before = parse("a | ;").expect_err("refused");
    assert_eq!(error.position, before.position + 2);
    assert_eq!(error.kind, before.kind);
}

#[test]
fn newlines_behind_connectors_change_nothing() {
    for connector in ["&&", "||", "|"] {
        let line = parse(&format!("x y {connector} b | c; d")).expect("one line");
        for gap in ["\n", "\n\n", " \n\t\n ", "\n\n\n"] {
            let other = format!("x y {connector}{gap}b | c; d");
            assert_eq!(parse(&other).expect("continued"), line, "{other:?}");
        }
        let error = parse(&format!("x {connector}\n;")).expect_err("refused");
        let before = parse(&format!("x {connector};")).expect_err("refused");
        assert_eq!(error.position, before.position + 1);
        assert_eq!(error.kind, before.kind);
        let early = parse(&format!("a+=1 {connector}\nb")).expect_err("refused");
        assert_eq!(early.position, 1);
    }
    // the newline keeps the two connectors apart
    let apart = parse("a |\n\n| b").expect_err("two pipes");
    let blank = parse("a | | b").expect_err("two pipes");
    assert_eq!((apart.kind, apart.position), (blank.kind, blank.position + 1));
    assert!(parse("a || b").is_ok());
}
