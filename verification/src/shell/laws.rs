//! What holds of the shell language as a whole.

use vstd::prelude::*;

use crate::shell::lex;
use crate::shell::lex::{KindView, TokenView};
use crate::shell::parse;
use crate::shell::{AndOrView, ListView, SegmentView, SimpleView};
use crate::text;

verus! {

/// Tokens that stand inside the input, one after another.
pub open spec fn tokens_ordered(s: Seq<char>, t: Seq<TokenView>) -> bool {
    &&& forall|k: int| 0 <= k < t.len() ==> 0 <= (#[trigger] t[k]).start < s.len()
    &&& forall|j: int, k: int|
        0 <= j < k < t.len() ==> (#[trigger] t[j]).start < (#[trigger] t[k]).start
}

proof fn lemma_tokens_ordered(s: Seq<char>, i: int, before: Seq<TokenView>)
    requires
        0 <= i <= s.len(),
        tokens_ordered(s, before),
        forall|k: int| 0 <= k < before.len() ==> (#[trigger] before[k]).start < i,
    ensures
        lex::tokens_from(s, i, before) matches Ok(t) ==> tokens_ordered(s, t),
    decreases s.len() - i,
{
    if i < s.len() {
        lex::lemma_token_step_advances(s, i);
        match lex::token_step(s, i) {
            Err(_) => {},
            Ok((None, j)) => lemma_tokens_ordered(s, j, before),
            Ok((Some(token), j)) => {
                lex::lemma_token_precedes_next(s, i);
                lemma_tokens_ordered(s, j, before.push(token));
            },
        }
    }
}

/// The tokens of a command line stand inside it, in the order in which they are written.
pub proof fn law_tokens_are_in_order(s: Seq<char>)
    ensures
        lex::tokens_of(s) matches Ok(t) ==> tokens_ordered(s, t),
{
    lemma_tokens_ordered(s, 0, seq![]);
}

pub proof fn lemma_source_index(s: Seq<char>, i: int, count: nat)
    requires
        0 <= i <= s.len(),
    ensures
        i <= parse::source_index(s, i, count) <= s.len(),
    decreases s.len() - i,
{
    if i >= s.len() || count == 0 || lex::word_break_char(s[i]) {
    } else if s[i] == '\\' && lex::at(s, i + 1, '\n') {
        lemma_source_index(s, i + 2, count);
    } else {
        lemma_source_index(s, i + 1, (count - 1) as nat);
    }
}

proof fn lemma_command_error(s: Seq<char>, t: Seq<TokenView>, c: int, read: SimpleView)
    requires
        tokens_ordered(s, t),
        0 <= c <= t.len(),
    ensures
        parse::command_from(s, t, c, read) matches Err(error) ==> error.position
            <= text::byte_len(s),
    decreases t.len() - c,
{
    if parse::starts_command(t, c) {
        text::lemma_offset_bounds(s, t[c].start);
        match t[c].kind {
            KindView::Redirect(redirect) => match parse::redirect_of(s, t, c, redirect) {
                Err(_) => {},
                Ok((target, next)) => {
                    lemma_command_error(
                        s,
                        t,
                        next,
                        SimpleView { redirects: read.redirects.push(target), ..read },
                    );
                },
            },
            _ => {
                let word = t[c].kind->Word_0;
                let assignment = if read.words.len() == 0 {
                    parse::assignment_of(s, word, t[c].start)
                } else {
                    Ok(None)
                };
                match assignment {
                    Err(_) => {
                        let v = word[0]->Literal_value;
                        let append = parse::find_append(v, 0) as nat;
                        lemma_source_index(s, t[c].start, append);
                        text::lemma_offset_bounds(
                            s,
                            parse::source_index(s, t[c].start, append),
                        );
                    },
                    Ok(Some(assignment)) => lemma_command_error(
                        s,
                        t,
                        c + 1,
                        SimpleView { assignments: read.assignments.push(assignment), ..read },
                    ),
                    Ok(None) => lemma_command_error(
                        s,
                        t,
                        c + 1,
                        SimpleView { words: read.words.push(word), ..read },
                    ),
                }
            },
        }
    }
}

proof fn lemma_command_at_error(s: Seq<char>, t: Seq<TokenView>, c: int, expected: Seq<char>)
    requires
        tokens_ordered(s, t),
        0 <= c <= t.len(),
    ensures
        parse::command_at(s, t, c, expected) matches Err(error) ==> error.position
            <= text::byte_len(s),
{
    if c < t.len() {
        text::lemma_offset_bounds(s, t[c].start);
    }
    lemma_command_error(s, t, c, parse::empty_command());
}

proof fn lemma_pipeline_error(s: Seq<char>, t: Seq<TokenView>, c: int, read: Seq<SimpleView>)
    requires
        tokens_ordered(s, t),
        0 <= c <= t.len(),
    ensures
        parse::pipeline_from(s, t, c, read) matches Err(error) ==> error.position
            <= text::byte_len(s),
    decreases t.len() - c,
{
    if parse::is_kind(t, c, KindView::Pipe) {
        parse::lemma_newlines_end(t, c + 1);
        let after = parse::newlines_end(t, c + 1);
        parse::lemma_command_advances(s, t, after, "command after pipe"@);
        lemma_command_at_error(s, t, after, "command after pipe"@);
        match parse::command_at(s, t, after, "command after pipe"@) {
            Err(_) => {},
            Ok((command, next)) => lemma_pipeline_error(s, t, next, read.push(command)),
        }
    }
}

proof fn lemma_pipeline_at_error(s: Seq<char>, t: Seq<TokenView>, c: int, expected: Seq<char>)
    requires
        tokens_ordered(s, t),
        0 <= c <= t.len(),
    ensures
        parse::pipeline_at(s, t, c, expected) matches Err(error) ==> error.position
            <= text::byte_len(s),
{
    lemma_command_at_error(s, t, c, expected);
    parse::lemma_command_advances(s, t, c, expected);
    match parse::command_at(s, t, c, expected) {
        Err(_) => {},
        Ok((command, next)) => lemma_pipeline_error(s, t, next, seq![command]),
    }
}

proof fn lemma_list_error(s: Seq<char>, t: Seq<TokenView>, c: int, read: ListView)
    requires
        tokens_ordered(s, t),
        0 <= c <= t.len(),
    ensures
        parse::list_from(s, t, c, read) matches Err(error) ==> error.position
            <= text::byte_len(s),
    decreases t.len() - c,
{
    match parse::and_or_at(t, c) {
        None => {},
        Some(op) => {
            parse::lemma_newlines_end(t, c + 1);
            let after = parse::newlines_end(t, c + 1);
            let expected = parse::expected_after(op);
            parse::lemma_pipeline_advances(s, t, after, expected);
            lemma_pipeline_at_error(s, t, after, expected);
            match parse::pipeline_at(s, t, after, expected) {
                Err(_) => {},
                Ok((pipeline, next)) => lemma_list_error(
                    s,
                    t,
                    next,
                    ListView { first: read.first, rest: read.rest.push(AndOrView { op, pipeline }) },
                ),
            }
        },
    }
}

proof fn lemma_program_error(s: Seq<char>, t: Seq<TokenView>, c: int, read: Seq<ListView>)
    requires
        tokens_ordered(s, t),
        0 <= c <= t.len(),
    ensures
        parse::program_from(s, t, c, read) matches Err(error) ==> error.position
            <= text::byte_len(s),
    decreases t.len() - c,
{
    if c < t.len() {
        parse::lemma_list_advances(s, t, c);
        lemma_pipeline_at_error(s, t, c, "command"@);
        parse::lemma_pipeline_advances(s, t, c, "command"@);
        match parse::pipeline_at(s, t, c, "command"@) {
            Err(_) => {},
            Ok((first, next)) => lemma_list_error(s, t, next, ListView { first, rest: seq![] }),
        }
        match parse::list_at(s, t, c) {
            Err(_) => {},
            Ok((list, next)) => {
                if next < t.len() {
                    text::lemma_offset_bounds(s, t[next].start);
                    parse::lemma_newlines_end(t, next + 1);
                    lemma_program_error(
                        s,
                        t,
                        parse::newlines_end(t, next + 1),
                        read.push(list),
                    );
                }
            },
        }
    }
}

/// A parse error is positioned: it names a byte of the command line, or the end of it.
pub proof fn law_parse_error_is_in_the_input(s: Seq<char>)
    ensures
        parse::program_of(s) matches Err(error) ==> error.position <= text::byte_len(s),
{
    lex::law_lex_error_is_in_the_input(s, 0, seq![]);
    law_tokens_are_in_order(s);
    match lex::tokens_of(s) {
        Err(_) => {},
        Ok(t) => {
            parse::lemma_newlines_end(t, 0);
            lemma_program_error(s, t, parse::newlines_end(t, 0), seq![]);
        },
    }
}

/// The command line that holds nothing but a text in single quotes.
pub open spec fn single_quotes(literal: Seq<char>) -> Seq<char> {
    seq!['\''] + literal + seq!['\'']
}

proof fn lemma_find_close(literal: Seq<char>, i: int)
    requires
        !literal.contains('\''),
        1 <= i <= literal.len() + 1,
    ensures
        text::find_from(single_quotes(literal), '\'', i) == literal.len() + 1,
    decreases literal.len() + 1 - i,
{
    let s = single_quotes(literal);
    if i <= literal.len() {
        assert(s[i] == literal[i - 1]);
        lemma_find_close(literal, i + 1);
    }
}

/// Single quotes keep every character as it is: the quoted text is one command of one word,
/// and that word is the text.
pub proof fn law_single_quotes_are_literal(literal: Seq<char>)
    requires
        !literal.contains('\''),
    ensures
        parse::program_of(single_quotes(literal)) == Ok::<Seq<ListView>, crate::shell::ErrorView>(
            seq![
                ListView {
                    first: seq![
                        SimpleView {
                            assignments: seq![],
                            words: seq![
                                seq![SegmentView::Literal { value: literal, quoted: true }],
                            ],
                            redirects: seq![],
                        },
                    ],
                    rest: seq![],
                },
            ],
        ),
{
    let s = single_quotes(literal);
    let n = s.len() as int;
    assert(s[0] == '\'');
    lemma_find_close(literal, 1);
    assert(s.subrange(1, n - 1) =~= literal);
    let segments = seq![SegmentView::Literal { value: literal, quoted: true }];
    assert(lex::joined(seq![], literal, true) =~= segments);
    let after = lex::WordState { segments, had: true, last: None, equals: false };
    assert(lex::word_step(s, 0, lex::fresh_word()) == Ok::<(lex::WordState, int), crate::shell::ErrorView>((after, n)));
    assert(lex::word_from(s, n, after) == Ok::<(Option<Seq<SegmentView>>, int), crate::shell::ErrorView>((Some(segments), n)));
    assert(lex::word_from(s, 0, lex::fresh_word()) == lex::word_from(s, n, after));
    assert(lex::blanks_end(s, 0) == 0);
    assert(lex::digits_end(s, 0) == 0);
    let token = TokenView { kind: KindView::Word(segments), start: 0 };
    let t = seq![token];
    assert(lex::token_step(s, 0) == Ok::<(Option<TokenView>, int), crate::shell::ErrorView>((Some(token), n)));
    assert(Seq::<TokenView>::empty().push(token) =~= t);
    assert(lex::tokens_from(s, n, t) == Ok::<Seq<TokenView>, crate::shell::ErrorView>(t));
    assert(lex::tokens_of(s) == Ok::<Seq<TokenView>, crate::shell::ErrorView>(t));
    assert(parse::newlines_end(t, 0) == 0);
    let command = SimpleView { assignments: seq![], words: seq![segments], redirects: seq![] };
    assert(segments[0] != SegmentView::Literal { value: seq!['!'], quoted: false });
    assert(!parse::negation(t[0].kind)) by {
        if parse::negation(t[0].kind) {
            let bang = seq![SegmentView::Literal { value: seq!['!'], quoted: false }];
            assert(segments == bang);
            assert(bang[0] == segments[0]);
        }
    }
    assert(parse::empty_command().words.push(segments) =~= seq![segments]);
    assert(parse::command_from(s, t, 1, command) == Ok::<(SimpleView, int), crate::shell::ErrorView>((command, 1)));
    assert(parse::command_from(s, t, 0, parse::empty_command()) == parse::command_from(s, t, 1, command));
    assert(parse::pipeline_at(s, t, 0, "command"@) == Ok::<(Seq<SimpleView>, int), crate::shell::ErrorView>((seq![command], 1)));
    let list = ListView { first: seq![command], rest: seq![] };
    assert(parse::list_at(s, t, 0) == Ok::<(ListView, int), crate::shell::ErrorView>((list, 1)));
    assert(Seq::<ListView>::empty().push(list) =~= seq![list]);
}

} // verus!
