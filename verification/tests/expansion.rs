use std::mem::size_of;

use tinysandbox::admission::expansion_cost;
use tinysandbox::budget::{Budget, ExpandedCommand};
use tinysandbox::env::Env;
use tinysandbox::expand::{
    expand_assignment_value, expand_assignments, expand_word, expand_words, expansion_value,
    split_fields,
};
use tinysandbox::shell::parse::parse;
use tinysandbox::shell::{Command, SimpleCommand, Word};
use tinysandbox::text;

fn env(pairs: &[(&str, &str)]) -> Env {
    let mut env = Env::new();
    for (name, value) in pairs {
        env.insert(name.to_string(), value.to_string());
    }
    env
}

fn simple(input: &str) -> SimpleCommand {
    let program = parse(input).expect("parse should succeed");
    let Command::Simple(simple) = &program.lists[0].first.commands[0];
    simple.clone()
}

fn word(input: &str) -> Word {
    simple(&format!("echo {input}")).words[1].clone()
}

#[test]
fn variables_are_kept_in_the_order_of_their_names() {
    let mut e = env(&[("b", "2"), ("a", "1"), ("c", "3")]);
    e.insert("b".to_string(), "20".to_string());
    e.remove("c");
    let names: Vec<&str> = e.entries().iter().map(|(name, _)| name.as_str()).collect();
    assert_eq!(names, vec!["a", "b"]);
    assert_eq!(e.get("b").map(String::as_str), Some("20"));
    assert_eq!(e.get("c"), None);
    assert_eq!(e.clone().entries(), e.entries());
}

#[test]
fn parameters_have_their_values() {
    let e = env(&[("X", "a b")]);
    assert_eq!(expansion_value("X", &e, 0), "a b");
    assert_eq!(expansion_value("Y", &e, 0), "");
    assert_eq!(expansion_value("?", &e, 124), "124");
    assert_eq!(expansion_value("?", &e, -7), "-7");
}

#[test]
fn separators_split_texts() {
    assert_eq!(split_fields("  a\t b\n"), vec!["a", "b"]);
    assert!(split_fields(" \t").is_empty());
    assert!(split_fields("").is_empty());
    assert_eq!(split_fields("a\u{2003}b"), vec!["a\u{2003}b"]);
    assert_eq!(split_fields("a\rb c"), vec!["a\rb", "c"]);
}

#[test]
fn quoted_words_are_one_field_whatever_their_variables_hold() {
    let e = env(&[("X", "a b"), ("E", "")]);
    assert_eq!(expand_word(&word("\"$X\""), &e, 0), vec!["a b"]);
    assert_eq!(expand_word(&word("\"$E\""), &e, 0), vec![""]);
    assert_eq!(expand_word(&word("pre\"$X\"'$X'"), &e, 0), vec!["prea b$X"]);
    let mut budget = Budget(10_000);
    assert_eq!(budget.word(&word("\"$X\""), &e, 0, true), Some(vec!["a b".to_string()]));
    assert_eq!(budget.word(&word("\"$E\""), &e, 0, true), Some(vec!["".to_string()]));
}

#[test]
fn unquoted_words_are_split_and_may_vanish() {
    let e = env(&[("X", " a  b "), ("E", "")]);
    assert_eq!(expand_word(&word("$X"), &e, 0), vec!["a", "b"]);
    assert!(expand_word(&word("$E"), &e, 0).is_empty());
    assert!(expand_word(&word("$UNSET"), &e, 0).is_empty());
    assert_eq!(expand_word(&word("x${X}y"), &e, 0), vec!["x", "a", "b", "y"]);
    let odd = env(&[("X", "a\rb c")]);
    assert_eq!(expand_word(&word("$X"), &odd, 0), vec!["a\rb", "c"]);
    let mut budget = Budget(10_000);
    assert_eq!(
        budget.word(&word("$X"), &e, 0, true),
        Some(vec!["a".to_string(), "b".to_string()])
    );
    assert_eq!(budget.word(&word("$E"), &e, 0, true), Some(vec![]));
}

#[test]
fn quoted_parts_are_kept_though_they_are_empty() {
    let e = env(&[("X", " a b ")]);
    for (source, fields) in [
        ("\"\"$X", vec!["", "a", "b"]),
        ("$X\"\"", vec!["a", "b", ""]),
        ("\"\"$X\"\"", vec!["", "a", "b", ""]),
        ("q$X", vec!["q", "a", "b"]),
    ] {
        assert_eq!(expand_word(&word(source), &e, 0), fields);
        let mut budget = Budget(10_000);
        let kept: Vec<String> = fields.iter().map(|field| field.to_string()).collect();
        assert_eq!(budget.word(&word(source), &e, 0, true), Some(kept));
    }
}

#[test]
fn assignments_are_not_split() {
    let e = env(&[("X", "a  b")]);
    assert_eq!(expand_assignment_value(&word("x$X"), &e, 0), "xa  b");
    let command = simple("A=$X B=$A C=1 echo");
    assert_eq!(
        expand_assignments(&command.assignments, &e, 0),
        vec![
            ("A".to_string(), "a  b".to_string()),
            ("B".to_string(), "a  b".to_string()),
            ("C".to_string(), "1".to_string())
        ]
    );
}

#[test]
fn words_expand_in_order() {
    let e = env(&[("X", "b c")]);
    let command = simple("echo a $X \"$X\" $?");
    assert_eq!(
        expand_words(&command.words, &e, 3),
        vec!["echo", "a", "b", "c", "b c", "3"]
    );
}

#[test]
fn a_budget_pays_for_all_that_is_expanded() {
    let e = env(&[("X", "abc")]);
    let command = simple("A=$X echo $X > out");
    let string = size_of::<String>();
    let cost = size_of::<ExpandedCommand<'static>>()
        + (2 * string + "X".len() + "abc".len())
        + (string + "A".len() + "abc".len() + string)
        + ("echo".len() + string)
        + ("abc".len() + string)
        + (size_of::<Vec<String>>() + "out".len() + string);
    let mut enough = Budget(cost + 5);
    let expanded = enough.expand(&command, &e, 0).expect("within the budget");
    assert_eq!(enough.0, 5);
    assert_eq!(expanded.words, vec!["echo", "abc"]);
    assert_eq!(expanded.targets, vec![vec!["out".to_string()]]);
    assert_eq!(expanded.env.get("A").map(String::as_str), Some("abc"));
    assert_eq!(e.get("A"), None);
    let mut short = Budget(cost - 1);
    assert!(short.expand(&command, &e, 0).is_none());
    assert!(short.0 < cost);
}

#[test]
fn assignments_see_earlier_ones_but_words_do_not() {
    let e = env(&[]);
    let mut budget = Budget(100_000);
    let command = simple("A=1 B=$A echo $A");
    let expanded = budget.expand(&command, &e, 0).expect("within the budget");
    assert_eq!(expanded.env.get("B").map(String::as_str), Some("1"));
    assert_eq!(expanded.words, vec!["echo"]);
    let command = simple("F=out > $F");
    let expanded = budget.expand(&command, &e, 0).expect("within the budget");
    assert_eq!(expanded.targets, vec![vec!["out".to_string()]]);
}

#[test]
fn the_estimate_refuses_what_exceeds_the_limit() {
    let e = env(&[("X", "aaaa")]);
    let command = simple("echo $X$X$X");
    let cost = expansion_cost(&command, &e, 0, usize::MAX).expect("no limit");
    assert_eq!(expansion_cost(&command, &e, 0, cost), Some(cost));
    assert_eq!(expansion_cost(&command, &e, 0, cost - 1), None);
    let larger = env(&[("X", "aaaaaaaa")]);
    assert!(expansion_cost(&command, &larger, 0, usize::MAX).expect("no limit") > cost);
}

#[test]
fn numbers_are_written_and_read() {
    assert_eq!(text::decimal(0), "0");
    assert_eq!(text::decimal(u64::MAX), "18446744073709551615");
    assert_eq!(text::integer(i64::MIN), "-9223372036854775808");
    assert_eq!(text::parse_unsigned("0042", 100), Some(42));
    assert_eq!(text::parse_unsigned("101", 100), None);
    assert_eq!(text::parse_unsigned("", 100), None);
    assert_eq!(text::parse_unsigned("4x", 100), None);
    assert_eq!(text::padded("7", 3), "  7");
    assert_eq!(text::padded("1234", 3), "1234");
    assert_eq!(text::repeat_char('-', 3), "---");
}

#[test]
fn texts_are_taken_apart_by_characters_and_measured_by_bytes() {
    let chars = text::to_chars("aé€");
    assert_eq!(chars, vec!['a', 'é', '€']);
    assert_eq!(text::from_range(&chars, 1, 3), "é€");
    assert_eq!(text::str_bytes("aé€"), 6);
    assert_eq!(text::width_of('€'), 3);
    assert!(text::space('\u{a0}'));
    assert!(!text::space('x'));
    assert!(text::has_prefix("--tab", "--"));
    assert!(!text::has_prefix("-", "--"));
}

#[test]
fn expansion_takes_no_more_than_was_counted() {
    let e = env(&[("A", " x  yy z "), ("B", "b")]);
    let storage = |fields: &[String]| -> usize {
        fields.iter().map(|field| field.len() + size_of::<String>()).sum()
    };
    for input in ["echo $A$A \"$A\" 'q'", "C=$A D=$B cmd $A x$A", "$A $A $A", "E= $B$A$B"] {
        let command = simple(input);
        let cost = expansion_cost(&command, &e, 0, usize::MAX).expect("within the limit");
        let words = expand_words(&command.words, &e, 0);
        let assigned: usize = expand_assignments(&command.assignments, &e, 0)
            .iter()
            .map(|(name, value)| name.len() + value.len())
            .sum();
        let copied: usize =
            e.entries().iter().map(|(name, value)| name.len() + value.len()).sum();
        assert!(copied + assigned + storage(&words) <= cost);
        assert_eq!(expansion_cost(&command, &e, 0, cost - 1), None);
    }
    let command = simple("A=$A$A > $A");
    let cost = expansion_cost(&command, &e, 0, usize::MAX).expect("within the limit");
    let mut after = env(&[("B", "b")]);
    for (name, value) in expand_assignments(&command.assignments, &e, 0) {
        after.insert(name, value);
    }
    assert!(storage(&expand_word(&word("$A"), &after, 0)) <= cost);
}
