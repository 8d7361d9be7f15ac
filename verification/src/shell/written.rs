//! Command lines as they are written: what is spelled in one of the ways that the language has is
//! read as what it stands for.

use vstd::prelude::*;

use crate::shell::lex;
use crate::shell::lex::{KindView, RedirectToken, TokenView, WordState};
use crate::shell::moved;
use crate::shell::newlines;
use crate::shell::parse;
use crate::shell::RedirectOp;
use crate::shell::{
    AndOrOp, AndOrView, AssignmentView, ErrorKindView, ErrorView, ListView, QuoteKind,
    RedirectTargetView, RedirectView, SegmentView, SimpleView, UnsupportedConstruct,
};
use crate::text;

verus! {

// ---- words ----

/// What stands in double quotes: text, or a variable.
pub enum Inner {
    Text(Seq<char>),
    Variable(Seq<char>),
}

/// A way to write a part of a word.
pub enum Spelling {
    /// In double quotes.
    Double(Seq<Inner>),
    /// In single quotes.
    Single(Seq<char>),
    /// Behind a backslash.
    Escaped(char),
    /// As it is.
    Bare(Seq<char>),
    /// A variable, in braces or not.
    Variable(Seq<char>, bool),
    /// The last status.
    Status,
}

/// What has to be escaped in double quotes.
pub open spec fn needs_backslash(c: char) -> bool {
    c == '"' || c == '\\' || c == '$' || c == '`'
}

/// A text as it is written in double quotes.
pub open spec fn escaped(t: Seq<char>) -> Seq<char>
    decreases t.len(),
{
    if t.len() == 0 {
        seq![]
    } else if needs_backslash(t[0]) {
        seq!['\\', t[0]] + escaped(t.skip(1))
    } else {
        seq![t[0]] + escaped(t.skip(1))
    }
}

pub open spec fn inner_spelled(inner: Inner) -> Seq<char> {
    match inner {
        Inner::Text(t) => escaped(t),
        Inner::Variable(name) => seq!['$', '{'] + name + seq!['}'],
    }
}

pub open spec fn inners_spelled(inners: Seq<Inner>) -> Seq<char>
    decreases inners.len(),
{
    if inners.len() == 0 {
        seq![]
    } else {
        inner_spelled(inners[0]) + inners_spelled(inners.skip(1))
    }
}

/// A part of a word as it is written.
pub open spec fn part_spelled(part: Spelling) -> Seq<char> {
    match part {
        Spelling::Double(inners) => seq!['"'] + inners_spelled(inners) + seq!['"'],
        Spelling::Single(t) => seq!['\''] + t + seq!['\''],
        Spelling::Escaped(c) => seq!['\\', c],
        Spelling::Bare(t) => t,
        Spelling::Variable(name, true) => seq!['$', '{'] + name + seq!['}'],
        Spelling::Variable(name, false) => seq!['$'] + name,
        Spelling::Status => seq!['$', '?'],
    }
}

/// A word as it is written.
pub open spec fn word_spelled(parts: Seq<Spelling>) -> Seq<char>
    decreases parts.len(),
{
    if parts.len() == 0 {
        seq![]
    } else {
        part_spelled(parts[0]) + word_spelled(parts.skip(1))
    }
}

pub open spec fn inner_segment(inner: Inner) -> SegmentView {
    match inner {
        Inner::Text(t) => SegmentView::Literal { value: t, quoted: true },
        Inner::Variable(name) => SegmentView::Expansion { name, quoted: true },
    }
}

/// What a part of a word stands for.
pub open spec fn part_segments(part: Spelling) -> Seq<SegmentView> {
    match part {
        Spelling::Double(inners) => if inners.len() == 0 {
            seq![SegmentView::Literal { value: seq![], quoted: true }]
        } else {
            inners.map_values(|inner: Inner| inner_segment(inner))
        },
        Spelling::Single(t) => seq![SegmentView::Literal { value: t, quoted: true }],
        Spelling::Escaped(c) => seq![SegmentView::Literal { value: seq![c], quoted: true }],
        Spelling::Bare(t) => seq![SegmentView::Literal { value: t, quoted: false }],
        Spelling::Variable(name, _) => seq![SegmentView::Expansion { name, quoted: false }],
        Spelling::Status => seq![SegmentView::Expansion { name: seq!['?'], quoted: false }],
    }
}

/// What a word stands for.
pub open spec fn word_segments(parts: Seq<Spelling>) -> Seq<SegmentView>
    decreases parts.len(),
{
    if parts.len() == 0 {
        seq![]
    } else {
        part_segments(parts[0]) + word_segments(parts.skip(1))
    }
}

/// The characters that stand for themselves wherever they are in a word.
pub open spec fn plain_char(c: char) -> bool {
    !(c == ' ' || c == '\t' || c == '\n' || c == '|' || c == '&' || c == ';' || c == '<' || c == '>'
        || c == '\'' || c == '"' || c == '\\' || c == '$' || c == '*' || c == '?' || c == '[' || c
        == '`' || c == '(' || c == ')' || c == '{' || c == '}' || c == '~')
}

/// The names that variables can have: letters, digits and underscores, with no digit in front.
pub open spec fn variable_name(name: Seq<char>) -> bool {
    &&& name.len() > 0
    &&& !('0' <= name[0] <= '9')
    &&& forall|i: int|
        0 <= i < name.len() ==> (('a' <= #[trigger] name[i] <= 'z') || ('A' <= name[i] <= 'Z') || (
        '0' <= name[i] <= '9') || name[i] == '_')
}

pub open spec fn inner_fits(inner: Inner) -> bool {
    match inner {
        Inner::Text(t) => t.len() > 0,
        Inner::Variable(name) => variable_name(name) && name != seq!['_'],
    }
}

pub open spec fn part_fits(part: Spelling) -> bool {
    match part {
        Spelling::Double(inners) => forall|i: int|
            0 <= i < inners.len() ==> inner_fits(#[trigger] inners[i]),
        Spelling::Single(t) => !t.contains('\''),
        Spelling::Escaped(c) => c != '\n',
        Spelling::Bare(t) => t.len() > 0 && forall|i: int|
            0 <= i < t.len() ==> plain_char(#[trigger] t[i]),
        Spelling::Variable(name, _) => variable_name(name) && name != seq!['_'],
        Spelling::Status => true,
    }
}

/// Whether no literal follows another that is quoted like it: the two would be one.
pub open spec fn literals_apart(segments: Seq<SegmentView>) -> bool {
    forall|i: int|
        0 <= i && i + 1 < segments.len() && segments[i] is Literal && segments[i + 1] is Literal
            ==> (#[trigger] segments[i])->Literal_quoted != segments[i + 1]->Literal_quoted
}

/// Whether parts make up a word: each can be written, literals are apart, only the last may be a
/// variable without braces, and it does not start as a comment does.
pub open spec fn word_fits(parts: Seq<Spelling>) -> bool {
    &&& parts.len() > 0
    &&& forall|i: int| 0 <= i < parts.len() ==> part_fits(#[trigger] parts[i])
    &&& forall|i: int|
        0 <= i < parts.len() - 1 ==> !((#[trigger] parts[i]) is Variable && !parts[i]->Variable_1)
    &&& literals_apart(word_segments(parts))
    &&& !(parts[0] is Bare && parts[0]->Bare_0[0] == '#')
}

// ---- reading words ----

/// Whether `t` stands in `s` at `i`.
spec fn stands_at(s: Seq<char>, i: int, t: Seq<char>) -> bool {
    0 <= i && i + t.len() <= s.len() && s.subrange(i, i + t.len()) == t
}

proof fn lemma_stands(s: Seq<char>, i: int, a: Seq<char>, b: Seq<char>)
    requires
        stands_at(s, i, a + b),
    ensures
        stands_at(s, i, a),
        stands_at(s, i + a.len(), b),
{
    let all = a + b;
    assert forall|k: int| 0 <= k < a.len() implies #[trigger] s.subrange(i, i + a.len())[k]
        == a[k] by {
        assert(s.subrange(i, i + all.len())[k] == all[k]);
    }
    assert(s.subrange(i, i + a.len()) =~= a);
    assert forall|k: int| 0 <= k < b.len() implies #[trigger] s.subrange(
        i + a.len(),
        i + a.len() + b.len(),
    )[k] == b[k] by {
        assert(s.subrange(i, i + all.len())[k + a.len()] == all[k + a.len()]);
    }
    assert(s.subrange(i + a.len(), i + a.len() + b.len()) =~= b);
}

proof fn lemma_stands_char(s: Seq<char>, i: int, t: Seq<char>, k: int)
    requires
        stands_at(s, i, t),
        0 <= k < t.len(),
    ensures
        s[i + k] == t[k],
{
    assert(s.subrange(i, i + t.len())[k] == t[k]);
}

/// Literals that go together.
spec fn extended(segments: Seq<SegmentView>, t: Seq<char>, quoted: bool) -> Seq<SegmentView> {
    if t.len() == 0 {
        segments
    } else {
        lex::joined(segments, t, quoted)
    }
}

proof fn lemma_extended(segments: Seq<SegmentView>, t: Seq<char>, c: char, quoted: bool)
    ensures
        lex::with_char(extended(segments, t, quoted), c, quoted) == extended(
            segments,
            t.push(c),
            quoted,
        ),
{
    if t.len() == 0 {
        assert(t.push(c) =~= seq![c]);
    } else {
        let before = extended(segments, t, quoted);
        assert(before.len() > 0);
        assert(before.last() is Literal && before.last()->Literal_quoted == quoted);
        if segments.len() > 0 && segments.last() is Literal && segments.last()->Literal_quoted
            == quoted {
            let value = segments.last()->Literal_value;
            assert(before.drop_last() =~= segments.drop_last());
            assert((value + t) + seq![c] =~= value + t.push(c));
        } else {
            assert(before.drop_last() =~= segments);
            assert(t + seq![c] =~= t.push(c));
        }
    }
}

/// A text that is written in double quotes is read as it is.
proof fn lemma_read_escaped(
    s: Seq<char>,
    start: int,
    i: int,
    segments: Seq<SegmentView>,
    read: Seq<char>,
    t: Seq<char>,
    had: bool,
)
    requires
        0 <= start < i,
        stands_at(s, i, escaped(t)),
    ensures
        lex::double_quoted(s, start, i, extended(segments, read, true), had) == lex::double_quoted(
            s,
            start,
            i + escaped(t).len(),
            extended(segments, read + t, true),
            had || t.len() > 0,
        ),
    decreases t.len(),
{
    if t.len() == 0 {
        assert(read + t =~= read);
    } else {
        let c = t[0];
        let rest = t.skip(1);
        let front = if needs_backslash(c) {
            seq!['\\', c]
        } else {
            seq![c]
        };
        lemma_stands(s, i, front, escaped(rest));
        lemma_stands_char(s, i, front, 0);
        lemma_extended(segments, read, c, true);
        if needs_backslash(c) {
            lemma_stands_char(s, i, front, 1);
        }
        lemma_read_escaped(s, start, i + front.len(), segments, read.push(c), rest, true);
        assert(read.push(c) + rest =~= read + t);
    }
}

proof fn lemma_name_stands(s: Seq<char>, i: int, name: Seq<char>, k: int)
    requires
        stands_at(s, i, name),
        variable_name(name),
        0 <= k <= name.len(),
        i + name.len() < s.len() ==> !lex::name_char(s[i + name.len()]),
    ensures
        lex::name_end(s, i + k) == i + name.len(),
    decreases name.len() - k,
{
    if k < name.len() {
        lemma_stands_char(s, i, name, k);
        assert(lex::name_char(name[k]));
        lemma_name_stands(s, i, name, k + 1);
    }
}

/// A variable in braces is read as that variable.
proof fn lemma_read_braced(
    s: Seq<char>,
    i: int,
    name: Seq<char>,
    quoted: bool,
    segments: Seq<SegmentView>,
)
    requires
        variable_name(name),
        name != seq!['_'],
        stands_at(s, i, seq!['$', '{'] + name + seq!['}']),
    ensures
        s[i] == '$',
        lex::expansion(s, i, quoted, segments) == Ok::<(Seq<SegmentView>, int), ErrorView>(
            (segments.push(SegmentView::Expansion { name, quoted }), i + name.len() + 3),
        ),
{
    let open = seq!['$', '{'];
    lemma_stands(s, i, open + name, seq!['}']);
    lemma_stands(s, i, open, name);
    lemma_stands_char(s, i, open, 0);
    lemma_stands_char(s, i, open, 1);
    let end = i + 2 + name.len();
    lemma_stands_char(s, end, seq!['}'], 0);
    assert(s[end] == '}');
    lemma_name_stands(s, i + 2, name, 0);
    lemma_stands_char(s, i + 2, name, 0);
    assert(s.subrange(i + 2, end) =~= name);
}

/// The segments of what stands in double quotes.
spec fn inner_segments(inners: Seq<Inner>) -> Seq<SegmentView> {
    inners.map_values(|inner: Inner| inner_segment(inner))
}

proof fn lemma_read_inners(
    s: Seq<char>,
    start: int,
    i: int,
    segments: Seq<SegmentView>,
    inners: Seq<Inner>,
    had: bool,
)
    requires
        0 <= start < i,
        stands_at(s, i, inners_spelled(inners)),
        forall|k: int| 0 <= k < inners.len() ==> inner_fits(#[trigger] inners[k]),
        literals_apart(segments + inner_segments(inners)),
    ensures
        lex::double_quoted(s, start, i, segments, had) == lex::double_quoted(
            s,
            start,
            i + inners_spelled(inners).len(),
            segments + inner_segments(inners),
            had || inners.len() > 0,
        ),
    decreases inners.len(),
{
    if inners.len() == 0 {
        assert(segments + inner_segments(inners) =~= segments);
    } else {
        let inner = inners[0];
        let rest = inners.skip(1);
        let front = inner_spelled(inner);
        let all = segments + inner_segments(inners);
        lemma_stands(s, i, front, inners_spelled(rest));
        let next = segments.push(inner_segment(inner));
        assert(next + inner_segments(rest) =~= all);
        assert(all[segments.len() as int] == inner_segment(inner));
        match inner {
            Inner::Text(t) => {
                let none: Seq<char> = seq![];
                lemma_read_escaped(s, start, i, segments, none, t, had);
                assert(none + t =~= t);
                if segments.len() > 0 && segments.last() is Literal {
                    assert(all[segments.len() - 1] == segments.last());
                    assert(all[segments.len() - 1]->Literal_quoted
                        != all[segments.len() as int]->Literal_quoted);
                }
                assert(extended(segments, t, true) =~= next);
            },
            Inner::Variable(name) => {
                lemma_read_braced(s, i, name, true, segments);
                assert(front.len() == name.len() + 3);
            },
        }
        assert forall|k: int| 0 <= k < rest.len() implies inner_fits(#[trigger] rest[k]) by {
            assert(rest[k] == inners[k + 1]);
        }
        lemma_read_inners(s, start, i + front.len(), next, rest, true);
    }
}

proof fn lemma_quote_at_end(s: Seq<char>, i: int, t: Seq<char>, k: int)
    requires
        stands_at(s, i, t + seq!['\'']),
        !t.contains('\''),
        0 <= k <= t.len(),
    ensures
        text::find_from(s, '\'', i + k) == i + t.len(),
    decreases t.len() - k,
{
    lemma_stands_char(s, i, t + seq!['\''], k);
    if k < t.len() {
        assert(t.contains(t[k]));
        lemma_quote_at_end(s, i, t, k + 1);
    }
}

/// Characters that stand for themselves are read as they are.
proof fn lemma_read_bare(
    s: Seq<char>,
    i: int,
    segments: Seq<SegmentView>,
    read: Seq<char>,
    t: Seq<char>,
    state: WordState,
) -> (after: WordState)
    requires
        stands_at(s, i, t),
        forall|k: int| 0 <= k < t.len() ==> plain_char(#[trigger] t[k]),
        state.segments == extended(segments, read, false),
        read.len() > 0 ==> state.had,
    ensures
        lex::word_from(s, i, state) == lex::word_from(s, i + t.len(), after),
        after.segments == extended(segments, read + t, false),
        read.len() + t.len() > 0 ==> after.had,
    decreases t.len(),
{
    if t.len() == 0 {
        assert(read + t =~= read);
        state
    } else {
        let c = t[0];
        let rest = t.skip(1);
        assert(seq![c] + rest =~= t);
        lemma_stands(s, i, seq![c], rest);
        lemma_stands_char(s, i, seq![c], 0);
        assert(plain_char(t[0]));
        assert(s[i] == c && plain_char(c));
        lemma_extended(segments, read, c, false);
        let next = WordState {
            segments: lex::with_char(state.segments, c, false),
            had: true,
            last: Some(c),
            equals: state.equals || c == '=',
        };
        assert(lex::word_step(s, i, state) == Ok::<(WordState, int), ErrorView>((next, i + 1)));
        assert(lex::word_from(s, i, state) == lex::word_from(s, i + 1, next));
        assert forall|k: int| 0 <= k < rest.len() implies plain_char(#[trigger] rest[k]) by {
            assert(rest[k] == t[k + 1]);
        }
        let after = lemma_read_bare(s, i + 1, segments, read.push(c), rest, next);
        assert(read.push(c) + rest =~= read + t);
        after
    }
}

/// A part of a word is read as what it stands for.
proof fn lemma_read_part(s: Seq<char>, i: int, part: Spelling, state: WordState) -> (after: WordState)
    requires
        stands_at(s, i, part_spelled(part)),
        part_fits(part),
        literals_apart(state.segments + part_segments(part)),
        part is Variable && !part->Variable_1 && i + part_spelled(part).len() < s.len()
            ==> !lex::name_char(s[i + part_spelled(part).len()]),
    ensures
        lex::word_from(s, i, state) == lex::word_from(s, i + part_spelled(part).len(), after),
        after.segments == state.segments + part_segments(part),
        after.had,
{
    let n = part_spelled(part).len() as int;
    let all = state.segments + part_segments(part);
    let m = state.segments.len() as int;
    if m > 0 && state.segments.last() is Literal && part_segments(part)[0] is Literal {
        assert(all[m - 1] == state.segments.last());
        assert(all[m] == part_segments(part)[0]);
        assert(all[m - 1]->Literal_quoted != all[m]->Literal_quoted);
    }
    let after = WordState { segments: all, had: true, last: None, equals: state.equals };
    match part {
        Spelling::Double(inners) => {
            let body = inners_spelled(inners);
            lemma_stands(s, i, seq!['"'] + body, seq!['"']);
            lemma_stands(s, i, seq!['"'], body);
            lemma_stands_char(s, i, seq!['"'], 0);
            lemma_stands_char(s, i + 1 + body.len(), seq!['"'], 0);
            if inners.len() == 0 {
                assert(body =~= Seq::<char>::empty());
                assert(s[i + 1] == '"');
                assert(lex::joined(state.segments, seq![], true) =~= all);
                assert(lex::double_quoted(s, i, i + 1, state.segments, false) == Ok::<
                    (Seq<SegmentView>, int),
                    ErrorView,
                >((all, i + 2)));
            } else {
                assert(part_segments(part) == inner_segments(inners));
                lemma_read_inners(s, i, i + 1, state.segments, inners, false);
                assert(lex::double_quoted(s, i, i + 1 + body.len(), all, true) == Ok::<
                    (Seq<SegmentView>, int),
                    ErrorView,
                >((all, i + n)));
            }
            assert(lex::word_step(s, i, state) == Ok::<(WordState, int), ErrorView>(
                (after, i + n),
            ));
            after
        },
        Spelling::Single(t) => {
            lemma_stands(s, i, seq!['\''] + t, seq!['\'']);
            lemma_stands(s, i, seq!['\''], t);
            lemma_stands_char(s, i, seq!['\''], 0);
            assert(seq!['\''] + t + seq!['\''] =~= seq!['\''] + (t + seq!['\'']));
            lemma_stands(s, i, seq!['\''], t + seq!['\'']);
            lemma_quote_at_end(s, i + 1, t, 0);
            assert(s.subrange(i + 1, i + 1 + t.len()) == t);
            assert(lex::joined(state.segments, t, true) =~= all);
            assert(lex::word_step(s, i, state) == Ok::<(WordState, int), ErrorView>(
                (after, i + n),
            ));
            after
        },
        Spelling::Escaped(c) => {
            lemma_stands_char(s, i, seq!['\\', c], 0);
            lemma_stands_char(s, i, seq!['\\', c], 1);
            assert(lex::with_char(state.segments, c, true) =~= all);
            assert(lex::word_step(s, i, state) == Ok::<(WordState, int), ErrorView>(
                (after, i + n),
            ));
            after
        },
        Spelling::Bare(t) => {
            let none: Seq<char> = seq![];
            let read = lemma_read_bare(s, i, state.segments, none, t, state);
            assert(none + t =~= t);
            assert(extended(state.segments, t, false) =~= all);
            read
        },
        Spelling::Variable(name, braced) => {
            if braced {
                lemma_read_braced(s, i, name, false, state.segments);
            } else {
                lemma_stands(s, i, seq!['$'], name);
                lemma_stands_char(s, i, seq!['$'], 0);
                lemma_stands_char(s, i + 1, name, 0);
                lemma_name_stands(s, i + 1, name, 0);
                assert(s.subrange(i + 1, i + 1 + name.len()) =~= name);
            }
            assert(state.segments.push(SegmentView::Expansion { name, quoted: false }) =~= all);
            assert(lex::word_step(s, i, state) == Ok::<(WordState, int), ErrorView>(
                (after, i + n),
            ));
            after
        },
        Spelling::Status => {
            lemma_stands_char(s, i, seq!['$', '?'], 0);
            lemma_stands_char(s, i, seq!['$', '?'], 1);
            assert(state.segments.push(
                SegmentView::Expansion { name: seq!['?'], quoted: false },
            ) =~= all);
            assert(lex::word_step(s, i, state) == Ok::<(WordState, int), ErrorView>(
                (after, i + n),
            ));
            after
        },
    }
}

proof fn lemma_apart_front(a: Seq<SegmentView>, b: Seq<SegmentView>)
    requires
        literals_apart(a + b),
    ensures
        literals_apart(a),
{
    assert forall|i: int|
        0 <= i && i + 1 < a.len() && a[i] is Literal && a[i + 1] is Literal implies (
    #[trigger] a[i])->Literal_quoted != a[i + 1]->Literal_quoted by {
        assert((a + b)[i] == a[i] && (a + b)[i + 1] == a[i + 1]);
    }
}

/// A word is read as what its parts stand for, where something that breaks words follows.
proof fn lemma_read_word(s: Seq<char>, i: int, parts: Seq<Spelling>, state: WordState)
    requires
        stands_at(s, i, word_spelled(parts)),
        forall|k: int| 0 <= k < parts.len() ==> part_fits(#[trigger] parts[k]),
        forall|k: int|
            0 <= k < parts.len() - 1 ==> !((#[trigger] parts[k]) is Variable
                && !parts[k]->Variable_1),
        literals_apart(state.segments + word_segments(parts)),
        i + word_spelled(parts).len() < s.len() ==> lex::word_break_char(
            s[i + word_spelled(parts).len()],
        ),
        parts.len() == 0 ==> state.had,
    ensures
        lex::word_from(s, i, state) == Ok::<(Option<Seq<SegmentView>>, int), ErrorView>(
            (Some(state.segments + word_segments(parts)), i + word_spelled(parts).len()),
        ),
    decreases parts.len(),
{
    if parts.len() == 0 {
        assert(state.segments + word_segments(parts) =~= state.segments);
    } else {
        let part = parts[0];
        let rest = parts.skip(1);
        let front = part_spelled(part);
        lemma_stands(s, i, front, word_spelled(rest));
        let first = state.segments + part_segments(part);
        assert(first + word_segments(rest) =~= state.segments + word_segments(parts));
        lemma_apart_front(first, word_segments(rest));
        assert(part_fits(part));
        if parts.len() == 1 {
            assert(word_spelled(rest) =~= Seq::<char>::empty());
            assert(front.len() == word_spelled(parts).len());
        } else {
            assert(!(parts[0] is Variable && !parts[0]->Variable_1));
        }
        let after = lemma_read_part(s, i, part, state);
        assert forall|k: int| 0 <= k < rest.len() implies part_fits(#[trigger] rest[k]) by {
            assert(rest[k] == parts[k + 1]);
        }
        assert forall|k: int| 0 <= k < rest.len() - 1 implies !((#[trigger] rest[k]) is Variable
            && !rest[k]->Variable_1) by {
            assert(rest[k] == parts[k + 1]);
        }
        lemma_read_word(s, i + front.len(), rest, after);
        assert(word_spelled(parts).len() == front.len() + word_spelled(rest).len());
    }
}

// ---- tokens ----

/// What stands between blanks on a command line.
pub enum Mark {
    Word(Seq<Spelling>),
    Pipe,
    AndIf,
    OrIf,
    Semi,
    Newline,
    Redirect(RedirectToken),
}

/// A descriptor as it is written.
pub open spec fn descriptor_spelled(fd: Option<u32>) -> Seq<char> {
    match fd {
        Some(n) => text::decimal_text(n as nat),
        None => seq![],
    }
}

/// The operator of a redirect as it is written.
pub open spec fn operator_spelled(op: RedirectOp) -> Seq<char> {
    match op {
        RedirectOp::Read => seq!['<'],
        RedirectOp::Write => seq!['>'],
        RedirectOp::Append => seq!['>', '>'],
    }
}

pub open spec fn mark_spelled(mark: Mark) -> Seq<char> {
    match mark {
        Mark::Word(parts) => word_spelled(parts),
        Mark::Pipe => seq!['|'],
        Mark::AndIf => seq!['&', '&'],
        Mark::OrIf => seq!['|', '|'],
        Mark::Semi => seq![';'],
        Mark::Newline => seq!['\n'],
        Mark::Redirect(redirect) => descriptor_spelled(redirect.fd) + (operator_spelled(redirect.op)
            + (match redirect.target_fd {
            Some(n) => seq!['&'] + text::decimal_text(n as nat),
            None => seq![],
        })),
    }
}

pub open spec fn mark_kind(mark: Mark) -> KindView {
    match mark {
        Mark::Word(parts) => KindView::Word(word_segments(parts)),
        Mark::Pipe => KindView::Pipe,
        Mark::AndIf => KindView::AndIf,
        Mark::OrIf => KindView::OrIf,
        Mark::Semi => KindView::Semi,
        Mark::Newline => KindView::Newline,
        Mark::Redirect(redirect) => KindView::Redirect(redirect),
    }
}

/// Whether something can be written so: only what is opened for writing can be another
/// descriptor.
pub open spec fn mark_fits(mark: Mark) -> bool {
    match mark {
        Mark::Word(parts) => word_fits(parts),
        Mark::Redirect(redirect) => redirect.target_fd is Some ==> redirect.op
            == RedirectOp::Write,
        _ => true,
    }
}

/// A command line with a blank behind everything on it.
pub open spec fn line(marks: Seq<Mark>) -> Seq<char>
    decreases marks.len(),
{
    if marks.len() == 0 {
        seq![]
    } else {
        mark_spelled(marks[0]) + (seq![' '] + line(marks.skip(1)))
    }
}

/// What can stand directly behind a word: a blank, or what starts an operator.
pub open spec fn ends_words(c: char) -> bool {
    c == ' ' || c == '|' || c == '&' || c == ';' || c == '\n'
}

/// What a word can start with.
pub open spec fn starts_words(c: char) -> bool {
    plain_char(c) || c == '"' || c == '\'' || c == '\\' || c == '$'
}

/// Whether a character can stand directly behind something on a command line: a blank always can,
/// an operator behind a word, and a word behind an operator.
pub open spec fn may_follow(mark: Mark, c: char) -> bool {
    c == ' ' || (match mark {
        Mark::Word(_) => ends_words(c),
        Mark::Redirect(redirect) => redirect.target_fd is None && starts_words(c),
        _ => starts_words(c),
    })
}

proof fn lemma_digits_stay(s: Seq<char>, t: Seq<char>, k: int)
    requires
        stands_at(s, 0, t),
        0 <= k <= t.len(),
        forall|x: int| 0 <= x < t.len() ==> #[trigger] t[x] != '<' && t[x] != '>',
        t.len() < s.len() ==> !text::is_digit(s[t.len() as int]) && s[t.len() as int] != '<'
            && s[t.len() as int] != '>',
    ensures
        k <= lex::digits_end(s, k) <= t.len(),
        !lex::at(s, lex::digits_end(s, k), '<'),
        !lex::at(s, lex::digits_end(s, k), '>'),
    decreases t.len() - k,
{
    if k < t.len() {
        lemma_stands_char(s, 0, t, k);
        if text::is_digit(s[k]) {
            lemma_digits_stay(s, t, k + 1);
        }
    }
}

proof fn lemma_first_char(part: Spelling)
    requires
        part_fits(part),
    ensures
        part_spelled(part).len() > 0,
        part is Bare ==> plain_char(part_spelled(part)[0]),
        !(part is Bare) ==> part_spelled(part)[0] == '"' || part_spelled(part)[0] == '\''
            || part_spelled(part)[0] == '\\' || part_spelled(part)[0] == '$',
{
}

/// A word is one token.
proof fn lemma_word_token(s: Seq<char>, parts: Seq<Spelling>)
    requires
        word_fits(parts),
        stands_at(s, 0, word_spelled(parts)),
        word_spelled(parts).len() < s.len() ==> ends_words(s[word_spelled(parts).len() as int]),
    ensures
        word_spelled(parts).len() > 0,
        lex::token_step(s, 0) == Ok::<(Option<TokenView>, int), ErrorView>(
            (
                Some(TokenView { kind: KindView::Word(word_segments(parts)), start: 0 }),
                word_spelled(parts).len() as int,
            ),
        ),
{
    let n = word_spelled(parts).len() as int;
    let first = parts[0];
    let rest = parts.skip(1);
    let front = part_spelled(first);
    assert(part_fits(parts[0]));
    lemma_first_char(first);
    lemma_stands(s, 0, front, word_spelled(rest));
    lemma_stands_char(s, 0, front, 0);
    assert(s[0] == front[0]);
    let none: Seq<SegmentView> = seq![];
    assert(none + word_segments(parts) =~= word_segments(parts));
    lemma_read_word(s, 0, parts, lex::fresh_word());
    if first is Bare {
        let t = first->Bare_0;
        assert(front == t);
        assert forall|x: int| 0 <= x < t.len() implies #[trigger] t[x] != '<' && t[x] != '>' by {
            assert(plain_char(t[x]));
        }
        if rest.len() > 0 {
            let second = rest[0];
            assert(second == parts[1]);
            assert(part_fits(parts[1]));
            lemma_first_char(second);
            let segments = word_segments(parts);
            assert(word_segments(rest) == part_segments(second) + word_segments(rest.skip(1)));
            assert(segments[0] == part_segments(first)[0]);
            assert(part_segments(second).len() > 0);
            assert(segments[1] == part_segments(second)[0]);
            assert(!(second is Bare));
            lemma_stands(s, front.len() as int, part_spelled(second), word_spelled(rest.skip(1)));
            lemma_stands_char(s, front.len() as int, part_spelled(second), 0);
        } else {
            assert(word_spelled(rest).len() == 0);
        }
        lemma_digits_stay(s, t, 0);
        assert(front[0] == t[0]);
        assert(plain_char(t[0]));
    } else {
        assert(lex::digits_end(s, 0) == 0);
    }
    assert(lex::blanks_end(s, 0) == 0);
    assert(lex::redirect_at(s, 0) == Ok::<Option<(RedirectToken, int)>, ErrorView>(None));
}

proof fn lemma_digits_run(s: Seq<char>, i: int, t: Seq<char>, k: int)
    requires
        stands_at(s, i, t),
        text::all_digits(t),
        0 <= k <= t.len(),
        i + t.len() < s.len() ==> !text::is_digit(s[i + t.len()]),
    ensures
        lex::digits_end(s, i + k) == i + t.len(),
    decreases t.len() - k,
{
    if k < t.len() {
        lemma_stands_char(s, i, t, k);
        assert(text::is_digit(t[k]));
        lemma_digits_run(s, i, t, k + 1);
    }
}

/// A redirect is one token.
proof fn lemma_redirect_token(s: Seq<char>, redirect: RedirectToken)
    requires
        mark_fits(Mark::Redirect(redirect)),
        stands_at(s, 0, mark_spelled(Mark::Redirect(redirect))),
        mark_spelled(Mark::Redirect(redirect)).len() < s.len() ==> may_follow(
            Mark::Redirect(redirect),
            s[mark_spelled(Mark::Redirect(redirect)).len() as int],
        ),
    ensures
        lex::token_step(s, 0) == Ok::<(Option<TokenView>, int), ErrorView>(
            (
                Some(TokenView { kind: KindView::Redirect(redirect), start: 0 }),
                mark_spelled(Mark::Redirect(redirect)).len() as int,
            ),
        ),
{
    let fd = descriptor_spelled(redirect.fd);
    let op = operator_spelled(redirect.op);
    let target = match redirect.target_fd {
        Some(n) => seq!['&'] + text::decimal_text(n as nat),
        None => seq![],
    };
    let p = fd.len() as int;
    let next = p + op.len();
    let end = next + target.len();
    lemma_stands(s, 0, fd, op + target);
    lemma_stands(s, p, op, target);
    lemma_stands_char(s, p, op, 0);
    if op.len() == 2 {
        lemma_stands_char(s, p, op, 1);
    }
    match redirect.target_fd {
        Some(n) => {
            let digits = text::decimal_text(n as nat);
            text::lemma_decimal_text(n as nat);
            lemma_stands(s, next, seq!['&'], digits);
            lemma_stands_char(s, next, seq!['&'], 0);
            lemma_digits_run(s, next + 1, digits, 0);
            assert(s.subrange(next + 1, end) == digits);
            assert(lex::descriptor(s, next + 1, end) == Ok::<u32, ErrorView>(n));
        },
        None => {},
    }
    assert(lex::redirect_operator(s, p, redirect.fd) == Ok::<
        Option<(RedirectToken, int)>,
        ErrorView,
    >(Some((redirect, end))));
    match redirect.fd {
        Some(n) => {
            let digits = text::decimal_text(n as nat);
            text::lemma_decimal_text(n as nat);
            lemma_digits_run(s, 0, digits, 0);
            assert(s.subrange(0, p) == digits);
            lemma_stands_char(s, 0, digits, 0);
            assert(text::is_digit(digits[0]));
            assert(lex::descriptor(s, 0, p) == Ok::<u32, ErrorView>(n));
        },
        None => {
            assert(lex::digits_end(s, 0) == 0);
        },
    }
    assert(lex::blanks_end(s, 0) == 0);
}

/// Everything on a command line is one token.
proof fn lemma_mark_token(s: Seq<char>, mark: Mark)
    requires
        mark_fits(mark),
        stands_at(s, 0, mark_spelled(mark)),
        mark_spelled(mark).len() < s.len() ==> may_follow(
            mark,
            s[mark_spelled(mark).len() as int],
        ),
    ensures
        mark_spelled(mark).len() > 0,
        lex::token_step(s, 0) == Ok::<(Option<TokenView>, int), ErrorView>(
            (
                Some(TokenView { kind: mark_kind(mark), start: 0 }),
                mark_spelled(mark).len() as int,
            ),
        ),
{
    match mark {
        Mark::Word(parts) => lemma_word_token(s, parts),
        Mark::Redirect(redirect) => lemma_redirect_token(s, redirect),
        _ => {
            let t = mark_spelled(mark);
            lemma_stands_char(s, 0, t, 0);
            if t.len() == 2 {
                lemma_stands_char(s, 0, t, 1);
            }
            assert(lex::blanks_end(s, 0) == 0);
            assert(lex::digits_end(s, 0) == 0);
        },
    }
}

/// A command line with blanks behind some of what is on it.
pub open spec fn spaced_line(marks: Seq<Mark>, blanks: Seq<bool>) -> Seq<char>
    decreases marks.len(),
{
    if marks.len() == 0 {
        seq![]
    } else {
        mark_spelled(marks[0]) + ((if blanks[0] {
            seq![' ']
        } else {
            seq![]
        }) + spaced_line(marks.skip(1), blanks.skip(1)))
    }
}

/// Whether a blank stands behind everything that the next would run together with.
pub open spec fn well_spaced(marks: Seq<Mark>, blanks: Seq<bool>) -> bool {
    &&& blanks.len() == marks.len()
    &&& forall|i: int|
        0 <= i < marks.len() - 1 && !(#[trigger] blanks[i]) ==> may_follow(
            marks[i],
            mark_spelled(marks[i + 1])[0],
        )
}

proof fn lemma_spaced_front(marks: Seq<Mark>, blanks: Seq<bool>)
    requires
        marks.len() > 0,
        forall|i: int| 0 <= i < marks.len() ==> mark_fits(#[trigger] marks[i]),
        well_spaced(marks, blanks),
    ensures
        ({
            let z = spaced_line(marks, blanks);
            let n = mark_spelled(marks[0]).len() as int;
            &&& mark_fits(marks[0])
            &&& stands_at(z, 0, mark_spelled(marks[0]))
            &&& n < z.len() ==> may_follow(marks[0], z[n])
            &&& blanks[0] ==> z[n] == ' '
        }),
{
    let z = spaced_line(marks, blanks);
    let rest = marks.skip(1);
    let s = spaced_line(rest, blanks.skip(1));
    let front = mark_spelled(marks[0]);
    let n = front.len() as int;
    assert(z.subrange(0, n) =~= front);
    assert(mark_fits(marks[0]));
    if blanks[0] {
        assert(z[n] == ' ');
    } else if rest.len() > 0 {
        assert(mark_fits(marks[1]));
        lemma_mark_spelled(marks[1]);
        assert(rest[0] == marks[1]);
        assert(s[0] == mark_spelled(marks[1])[0]);
        assert(z[n] == s[0]);
        assert(!blanks[0]);
    } else {
        assert(s.len() == 0);
        assert(z.len() == n);
    }
}

proof fn lemma_spaced_rest(marks: Seq<Mark>, blanks: Seq<bool>)
    requires
        marks.len() > 0,
        forall|i: int| 0 <= i < marks.len() ==> mark_fits(#[trigger] marks[i]),
        well_spaced(marks, blanks),
    ensures
        forall|i: int| 0 <= i < marks.skip(1).len() ==> mark_fits(#[trigger] marks.skip(1)[i]),
        well_spaced(marks.skip(1), blanks.skip(1)),
{
    let rest = marks.skip(1);
    let behind = blanks.skip(1);
    assert forall|i: int| 0 <= i < rest.len() implies mark_fits(#[trigger] rest[i]) by {
        assert(rest[i] == marks[i + 1]);
    }
    assert forall|i: int| 0 <= i < rest.len() - 1 && !(#[trigger] behind[i]) implies may_follow(
        rest[i],
        mark_spelled(rest[i + 1])[0],
    ) by {
        assert(behind[i] == blanks[i + 1]);
        assert(rest[i] == marks[i + 1]);
        assert(rest[i + 1] == marks[i + 2]);
    }
}

/// The tokens behind the first, and blanks, are those of what stands there.
proof fn lemma_tokens_behind(front: Seq<char>, gap: Seq<char>, s: Seq<char>, token: TokenView)
    requires
        front.len() > 0,
        gap.len() <= 1,
        gap.len() == 1 ==> gap[0] == ' ',
        lex::token_step(front + (gap + s), 0) == Ok::<(Option<TokenView>, int), ErrorView>(
            (Some(token), front.len() as int),
        ),
        lex::tokens_of(s) is Ok,
    ensures
        lex::tokens_of(front + (gap + s)) == Ok::<Seq<TokenView>, ErrorView>(
            Seq::<TokenView>::empty().push(token) + moved::moved_tokens(
                lex::tokens_of(s)->Ok_0,
                front.len() as int + gap.len(),
            ),
        ),
{
    let z = front + (gap + s);
    let n = front.len() as int;
    let k = n + gap.len();
    let none: Seq<TokenView> = seq![];
    let before = none.push(token);
    assert(lex::tokens_from(z, 0, none) == lex::tokens_from(z, n, before));
    assert forall|x: int| n <= x < k implies #[trigger] z[x] == ' ' || z[x] == '\t' by {
        assert(z[x] == gap[x - n]);
    }
    newlines::lemma_blanks_before(z, n, k, before);
    assert(s.take(0) =~= Seq::<char>::empty());
    assert(text::offset(s, 0) == 0);
    let d = text::offset(z, k);
    assert forall|x: int| 0 <= x < s.len() implies #[trigger] s[x] == z[x + k] by {}
    assert(moved::ends_alike(s, z, 0, k, d));
    moved::lemma_tokens(s, z, 0, k, d, 0, none, before);
    let t = lex::tokens_of(s)->Ok_0;
    assert(t.skip(0) =~= t);
}

/// What is written on a command line is what its tokens are. Blanks between are not needed where an
/// operator stands next to a word.
#[verifier::rlimit(40)]
pub proof fn law_spaced_marks_are_tokens(marks: Seq<Mark>, blanks: Seq<bool>)
    requires
        forall|i: int| 0 <= i < marks.len() ==> mark_fits(#[trigger] marks[i]),
        well_spaced(marks, blanks),
    ensures
        lex::tokens_of(spaced_line(marks, blanks)) is Ok,
        lex::tokens_of(spaced_line(marks, blanks))->Ok_0.len() == marks.len(),
        forall|i: int|
            0 <= i < marks.len() ==> (#[trigger] lex::tokens_of(
                spaced_line(marks, blanks),
            )->Ok_0[i]).kind == mark_kind(marks[i]),
    decreases marks.len(),
{
    let z = spaced_line(marks, blanks);
    if marks.len() == 0 {
    } else {
        let mark = marks[0];
        let rest = marks.skip(1);
        let behind = blanks.skip(1);
        let s = spaced_line(rest, behind);
        let front = mark_spelled(mark);
        let gap: Seq<char> = if blanks[0] {
            seq![' ']
        } else {
            seq![]
        };
        let n = front.len() as int;
        let k = n + gap.len();
        assert(z == front + (gap + s));
        lemma_spaced_front(marks, blanks);
        lemma_spaced_rest(marks, blanks);
        lemma_mark_token(z, mark);
        let token = TokenView { kind: mark_kind(mark), start: 0 };
        let before = Seq::<TokenView>::empty().push(token);
        law_spaced_marks_are_tokens(rest, behind);
        let t = lex::tokens_of(s)->Ok_0;
        lemma_tokens_behind(front, gap, s, token);
        let all = before + moved::moved_tokens(t, k);
        assert forall|i: int| 0 <= i < marks.len() implies (#[trigger] all[i]).kind == mark_kind(
            marks[i],
        ) by {
            if i > 0 {
                assert(t[i - 1].kind == mark_kind(rest[i - 1]));
            }
        }
    }
}

proof fn lemma_mark_spelled(mark: Mark)
    requires
        mark_fits(mark),
    ensures
        mark_spelled(mark).len() > 0,
{
    let s = mark_spelled(mark);
    assert(s.subrange(0, s.len() as int) =~= s);
    lemma_mark_token(s, mark);
}

/// What is written on a command line, with blanks between, is what its tokens are.
pub proof fn law_marks_are_tokens(marks: Seq<Mark>)
    requires
        forall|i: int| 0 <= i < marks.len() ==> mark_fits(#[trigger] marks[i]),
    ensures
        lex::tokens_of(line(marks)) is Ok,
        lex::tokens_of(line(marks))->Ok_0.len() == marks.len(),
        forall|i: int|
            0 <= i < marks.len() ==> (#[trigger] lex::tokens_of(line(marks))->Ok_0[i]).kind
                == mark_kind(marks[i]),
{
    let blanks = Seq::new(marks.len(), |i: int| true);
    lemma_spaced_line(marks, blanks);
    law_spaced_marks_are_tokens(marks, blanks);
}

proof fn lemma_spaced_line(marks: Seq<Mark>, blanks: Seq<bool>)
    requires
        blanks.len() == marks.len(),
        forall|i: int| 0 <= i < blanks.len() ==> #[trigger] blanks[i],
    ensures
        spaced_line(marks, blanks) == line(marks),
    decreases marks.len(),
{
    if marks.len() > 0 {
        assert(blanks[0]);
        let behind = blanks.skip(1);
        assert forall|i: int| 0 <= i < behind.len() implies #[trigger] behind[i] by {
            assert(blanks[i + 1]);
        }
        lemma_spaced_line(marks.skip(1), behind);
    }
}

// ---- commands ----

/// What a command is made of.
pub enum Item {
    Assign(AssignmentView),
    Word(Seq<SegmentView>),
    Redirect(RedirectView),
}

/// A command read from its items, each in its place.
pub open spec fn command_of(items: Seq<Item>) -> SimpleView
    decreases items.len(),
{
    if items.len() == 0 {
        SimpleView { assignments: seq![], words: seq![], redirects: seq![] }
    } else {
        let front = command_of(items.drop_last());
        match items.last() {
            Item::Assign(assignment) => SimpleView {
                assignments: front.assignments.push(assignment),
                ..front
            },
            Item::Word(word) => SimpleView { words: front.words.push(word), ..front },
            Item::Redirect(redirect) => SimpleView {
                redirects: front.redirects.push(redirect),
                ..front
            },
        }
    }
}

/// The word that an assignment is written as.
pub open spec fn assignment_word(assignment: AssignmentView) -> Seq<SegmentView> {
    let value = assignment.value;
    let front = assignment.name + seq!['='];
    if value.len() > 0 && value[0] is Literal && !value[0]->Literal_quoted {
        seq![SegmentView::Literal { value: front + value[0]->Literal_value, quoted: false }]
            + value.skip(1)
    } else {
        seq![SegmentView::Literal { value: front, quoted: false }] + value
    }
}

/// The tokens that an item is written as.
pub open spec fn item_kinds(item: Item) -> Seq<KindView> {
    match item {
        Item::Assign(assignment) => seq![KindView::Word(assignment_word(assignment))],
        Item::Word(word) => seq![KindView::Word(word)],
        Item::Redirect(redirect) => match redirect.target {
            RedirectTargetView::Word(word) => seq![
                KindView::Redirect(
                    RedirectToken { fd: redirect.fd, op: redirect.op, target_fd: None },
                ),
                KindView::Word(word),
            ],
            RedirectTargetView::Fd(n) => seq![
                KindView::Redirect(
                    RedirectToken { fd: redirect.fd, op: redirect.op, target_fd: Some(n) },
                ),
            ],
        },
    }
}

pub open spec fn command_kinds(items: Seq<Item>) -> Seq<KindView>
    decreases items.len(),
{
    if items.len() == 0 {
        seq![]
    } else {
        item_kinds(items[0]) + command_kinds(items.skip(1))
    }
}

/// Whether a word starts with text that holds no `=`, or with none at all: it is no assignment.
pub open spec fn no_assignment(word: Seq<SegmentView>) -> bool {
    word.len() > 0 && word[0] is Literal && !word[0]->Literal_quoted
        ==> !word[0]->Literal_value.contains('=')
}

/// Whether an item can be written: an assignment has a name and no empty text in front.
pub open spec fn item_fits(item: Item) -> bool {
    match item {
        Item::Assign(assignment) => {
            &&& variable_name(assignment.name)
            &&& assignment.value.len() > 0 && assignment.value[0] is Literal
                && !assignment.value[0]->Literal_quoted
                ==> assignment.value[0]->Literal_value.len() > 0
        },
        _ => true,
    }
}

/// Whether items make up a command: assignments stand in front of the words, the first word is
/// none, and the first of all is not `!`.
pub open spec fn command_fits(items: Seq<Item>) -> bool {
    &&& items.len() > 0
    &&& forall|i: int| 0 <= i < items.len() ==> item_fits(#[trigger] items[i])
    &&& forall|i: int, j: int|
        0 <= i < j < items.len() && (#[trigger] items[j]) is Assign ==> !((#[trigger] items[i]) is Word)
    &&& forall|i: int|
        0 <= i < items.len() && items[i] is Word && command_of(items.take(i)).words.len() == 0
            ==> no_assignment((#[trigger] items[i])->Word_0)
    &&& items[0] != Item::Word(seq![SegmentView::Literal { value: seq!['!'], quoted: false }])
}

/// Whether tokens of these kinds stand in `t` at `c`.
spec fn kinds_at(t: Seq<TokenView>, c: int, kinds: Seq<KindView>) -> bool {
    &&& 0 <= c
    &&& c + kinds.len() <= t.len()
    &&& forall|i: int| 0 <= i < kinds.len() ==> (#[trigger] t[c + i]).kind == kinds[i]
}

proof fn lemma_kinds(t: Seq<TokenView>, c: int, a: Seq<KindView>, b: Seq<KindView>)
    requires
        kinds_at(t, c, a + b),
    ensures
        kinds_at(t, c, a),
        kinds_at(t, c + a.len(), b),
{
    let all = a + b;
    assert forall|i: int| 0 <= i < a.len() implies (#[trigger] t[c + i]).kind == a[i] by {
        assert(t[c + i].kind == all[i]);
    }
    assert forall|i: int| 0 <= i < b.len() implies (#[trigger] t[c + a.len() + i]).kind == b[i] by {
        assert(t[c + (a.len() + i)].kind == all[a.len() + i]);
    }
}

proof fn lemma_find_equals(v: Seq<char>, n: int, i: int)
    requires
        0 <= i <= n < v.len(),
        v[n] == '=',
        forall|k: int| 0 <= k < n ==> #[trigger] v[k] != '=' && v[k] != '+',
    ensures
        text::find_from(v, '=', i) == n,
        parse::find_append(v, i) > n,
    decreases n - i,
{
    if i < n {
        lemma_find_equals(v, n, i + 1);
    } else {
        lemma_append_bound(v, n + 1);
    }
}

proof fn lemma_append_bound(v: Seq<char>, i: int)
    requires
        0 <= i,
    ensures
        i <= parse::find_append(v, i),
    decreases v.len() - i,
{
    if i < v.len() && !(v[i] == '+' && lex::at(v, i + 1, '=')) {
        lemma_append_bound(v, i + 1);
    }
}

/// What an assignment is written as is read as that assignment.
proof fn lemma_assignment(s: Seq<char>, assignment: AssignmentView, start: int)
    requires
        item_fits(Item::Assign(assignment)),
    ensures
        parse::assignment_of(s, assignment_word(assignment), start) == Ok::<
            Option<AssignmentView>,
            ErrorView,
        >(Some(assignment)),
{
    let word = assignment_word(assignment);
    let name = assignment.name;
    let value = assignment.value;
    let v = word[0]->Literal_value;
    let n = name.len() as int;
    assert(v.take(n) =~= name);
    assert(v[n] == '=');
    assert forall|k: int| 0 <= k < n implies #[trigger] v[k] != '=' && v[k] != '+' by {
        assert(v[k] == name[k]);
    }
    lemma_find_equals(v, n, 0);
    assert forall|i: int| 0 <= i < name.len() implies lex::name_char(#[trigger] name[i]) by {}
    assert(lex::name_start_char(name[0]));
    let append = parse::find_append(v, 0);
    if append < v.len() {
        assert(v.take(append)[n] == '=');
        assert(!lex::name_char(v.take(append)[n]));
    }
    let first = v.skip(n + 1);
    if value.len() > 0 && value[0] is Literal && !value[0]->Literal_quoted {
        assert(first =~= value[0]->Literal_value);
        assert(word.skip(1) =~= value.skip(1));
        assert(seq![SegmentView::Literal { value: first, quoted: false }] + word.skip(1) =~= value);
    } else {
        assert(first.len() == 0);
        assert(word.skip(1) =~= value);
    }
}

proof fn lemma_find_none(v: Seq<char>, i: int)
    requires
        0 <= i <= v.len(),
        !v.contains('='),
    ensures
        text::find_from(v, '=', i) == v.len(),
        parse::find_append(v, i) == v.len(),
    decreases v.len() - i,
{
    if i < v.len() {
        assert(v.contains(v[i]));
        if i + 1 < v.len() {
            assert(v.contains(v[i + 1]));
        }
        lemma_find_none(v, i + 1);
    }
}

/// What the items of a command are written as is read as that command.
proof fn lemma_read_command(s: Seq<char>, t: Seq<TokenView>, c: int, items: Seq<Item>, k: int)
    requires
        command_fits(items),
        0 <= k <= items.len(),
        kinds_at(t, c, command_kinds(items.skip(k))),
        !parse::starts_command(t, c + command_kinds(items.skip(k)).len()),
    ensures
        parse::command_from(s, t, c, command_of(items.take(k))) == Ok::<
            (SimpleView, int),
            ErrorView,
        >((command_of(items), c + command_kinds(items.skip(k)).len())),
    decreases items.len() - k,
{
    let read = command_of(items.take(k));
    if k == items.len() {
        assert(items.take(k) =~= items);
    } else {
        let item = items[k];
        let here = items.skip(k);
        let rest = items.skip(k + 1);
        assert(here.skip(1) =~= rest);
        assert(here[0] == item);
        lemma_kinds(t, c, item_kinds(item), command_kinds(rest));
        assert(items.take(k + 1).drop_last() =~= items.take(k));
        assert(items.take(k + 1).last() == item);
        let kinds = item_kinds(item);
        assert(t[c + 0].kind == kinds[0]);
        assert(item_fits(items[k]));
        match item {
            Item::Assign(assignment) => {
                lemma_assignment(s, assignment, t[c].start);
                lemma_no_words(items, k);
            },
            Item::Word(word) => {
                if read.words.len() == 0 {
                    assert(no_assignment(items[k]->Word_0));
                    if word.len() > 0 && word[0] is Literal && !word[0]->Literal_quoted {
                        lemma_find_none(word[0]->Literal_value, 0);
                    }
                }
            },
            Item::Redirect(redirect) => {
                match redirect.target {
                    RedirectTargetView::Word(_) => {
                        assert(t[c + 1].kind == kinds[1]);
                    },
                    RedirectTargetView::Fd(_) => {},
                }
            },
        }
        assert(parse::command_from(s, t, c, read) == parse::command_from(
            s,
            t,
            c + kinds.len(),
            command_of(items.take(k + 1)),
        ));
        lemma_read_command(s, t, c + kinds.len(), items, k + 1);
    }
}

/// There is no word in front of an assignment.
proof fn lemma_no_words(items: Seq<Item>, k: int)
    requires
        command_fits(items),
        0 <= k < items.len(),
        items[k] is Assign,
    ensures
        command_of(items.take(k)).words.len() == 0,
{
    lemma_no_words_front(items, k, k);
}

proof fn lemma_no_words_front(items: Seq<Item>, k: int, i: int)
    requires
        command_fits(items),
        0 <= i <= k < items.len(),
        items[k] is Assign,
    ensures
        command_of(items.take(i)).words.len() == 0,
    decreases i,
{
    if i > 0 {
        lemma_no_words_front(items, k, i - 1);
        assert(items.take(i).drop_last() =~= items.take(i - 1));
        assert(items.take(i).last() == items[i - 1]);
        assert(!(items[i - 1] is Word));
    }
}

/// A command starts with a word or a redirect, and not with `!`.
proof fn lemma_command_starts(items: Seq<Item>)
    requires
        command_fits(items),
    ensures
        command_kinds(items).len() > 0,
        command_kinds(items)[0] is Word || command_kinds(items)[0] is Redirect,
        !parse::negation(command_kinds(items)[0]),
{
    let first = items[0];
    assert(item_fits(items[0]));
    assert(command_kinds(items)[0] == item_kinds(first)[0]);
    let bang = seq![SegmentView::Literal { value: seq!['!'], quoted: false }];
    match first {
        Item::Assign(assignment) => {
            let word = assignment_word(assignment);
            let n = assignment.name.len() as int;
            if word == bang {
                let v = word[0]->Literal_value;
                assert(v == bang[0]->Literal_value);
                assert(v.len() == 1);
                assert(v.len() >= n + 1);
            }
        },
        Item::Word(word) => {
            if word == bang {
                assert(first == Item::Word(bang));
            }
        },
        Item::Redirect(_) => {},
    }
}

proof fn lemma_command_at(
    s: Seq<char>,
    t: Seq<TokenView>,
    c: int,
    items: Seq<Item>,
    expected: Seq<char>,
)
    requires
        command_fits(items),
        kinds_at(t, c, command_kinds(items)),
        !parse::starts_command(t, c + command_kinds(items).len()),
    ensures
        parse::newlines_end(t, c) == c,
        parse::command_at(s, t, c, expected) == Ok::<(SimpleView, int), ErrorView>(
            (command_of(items), c + command_kinds(items).len()),
        ),
{
    lemma_command_starts(items);
    assert(t[c + 0].kind == command_kinds(items)[0]);
    assert(items.skip(0) =~= items);
    assert(items.take(0) =~= Seq::<Item>::empty());
    lemma_read_command(s, t, c, items, 0);
}

// ---- programs ----

/// The tokens of the commands of a pipeline behind the first.
pub open spec fn piped_kinds(commands: Seq<Seq<Item>>) -> Seq<KindView>
    decreases commands.len(),
{
    if commands.len() == 0 {
        seq![]
    } else {
        seq![KindView::Pipe] + (command_kinds(commands[0]) + piped_kinds(commands.skip(1)))
    }
}

/// The tokens that a pipeline is written as.
pub open spec fn pipeline_kinds(commands: Seq<Seq<Item>>) -> Seq<KindView> {
    command_kinds(commands[0]) + piped_kinds(commands.skip(1))
}

/// The commands of a pipeline.
pub open spec fn pipeline_of(commands: Seq<Seq<Item>>) -> Seq<SimpleView> {
    commands.map_values(|items: Seq<Item>| command_of(items))
}

pub open spec fn pipeline_fits(commands: Seq<Seq<Item>>) -> bool {
    &&& commands.len() > 0
    &&& forall|i: int| 0 <= i < commands.len() ==> command_fits(#[trigger] commands[i])
}

/// What follows a pipeline.
spec fn pipeline_ends(t: Seq<TokenView>, c: int) -> bool {
    0 <= c < t.len() ==> !(t[c].kind is Word || t[c].kind is Redirect || t[c].kind is Pipe)
}

proof fn lemma_piped(
    s: Seq<char>,
    t: Seq<TokenView>,
    c: int,
    read: Seq<SimpleView>,
    commands: Seq<Seq<Item>>,
)
    requires
        forall|i: int| 0 <= i < commands.len() ==> command_fits(#[trigger] commands[i]),
        kinds_at(t, c, piped_kinds(commands)),
        pipeline_ends(t, c + piped_kinds(commands).len()),
    ensures
        !parse::starts_command(t, c),
        parse::pipeline_from(s, t, c, read) == Ok::<(Seq<SimpleView>, int), ErrorView>(
            (read + pipeline_of(commands), c + piped_kinds(commands).len()),
        ),
    decreases commands.len(),
{
    if commands.len() == 0 {
        assert(read + pipeline_of(commands) =~= read);
    } else {
        let first = commands[0];
        let rest = commands.skip(1);
        let own = command_kinds(first);
        lemma_kinds(t, c, seq![KindView::Pipe], own + piped_kinds(rest));
        lemma_kinds(t, c + 1, own, piped_kinds(rest));
        assert(t[c + 0].kind == seq![KindView::Pipe][0]);
        assert forall|i: int| 0 <= i < rest.len() implies command_fits(#[trigger] rest[i]) by {
            assert(rest[i] == commands[i + 1]);
        }
        assert(command_fits(commands[0]));
        let command = command_of(first);
        lemma_piped(s, t, c + 1 + own.len(), read.push(command), rest);
        lemma_command_at(s, t, c + 1, first, "command after pipe"@);
        assert(read.push(command) + pipeline_of(rest) =~= read + pipeline_of(commands));
    }
}

/// What a pipeline is written as is read as that pipeline.
proof fn lemma_read_pipeline(
    s: Seq<char>,
    t: Seq<TokenView>,
    c: int,
    commands: Seq<Seq<Item>>,
    expected: Seq<char>,
)
    requires
        pipeline_fits(commands),
        kinds_at(t, c, pipeline_kinds(commands)),
        pipeline_ends(t, c + pipeline_kinds(commands).len()),
    ensures
        pipeline_kinds(commands).len() > 0,
        parse::newlines_end(t, c) == c,
        parse::pipeline_at(s, t, c, expected) == Ok::<(Seq<SimpleView>, int), ErrorView>(
            (pipeline_of(commands), c + pipeline_kinds(commands).len()),
        ),
{
    let first = commands[0];
    let rest = commands.skip(1);
    let own = command_kinds(first);
    lemma_kinds(t, c, own, piped_kinds(rest));
    assert(command_fits(commands[0]));
    assert forall|i: int| 0 <= i < rest.len() implies command_fits(#[trigger] rest[i]) by {
        assert(rest[i] == commands[i + 1]);
    }
    let command = command_of(first);
    lemma_piped(s, t, c + own.len(), seq![command], rest);
    lemma_command_at(s, t, c, first, expected);
    lemma_command_starts(first);
    assert(seq![command] + pipeline_of(rest) =~= pipeline_of(commands));
}

/// A pipeline that is run after another, where that succeeded or where it failed.
pub struct Then {
    pub op: AndOrOp,
    pub commands: Seq<Seq<Item>>,
}

/// Pipelines that are run in turn, and whether a new line, and no semicolon, ends them.
pub struct Statement {
    pub first: Seq<Seq<Item>>,
    pub rest: Seq<Then>,
    pub newline: bool,
}

pub open spec fn connector_kind(op: AndOrOp) -> KindView {
    match op {
        AndOrOp::And => KindView::AndIf,
        AndOrOp::Or => KindView::OrIf,
    }
}

pub open spec fn connected_kinds(rest: Seq<Then>) -> Seq<KindView>
    decreases rest.len(),
{
    if rest.len() == 0 {
        seq![]
    } else {
        seq![connector_kind(rest[0].op)] + (pipeline_kinds(rest[0].commands) + connected_kinds(
            rest.skip(1),
        ))
    }
}

/// The tokens that a statement is written as.
pub open spec fn statement_kinds(statement: Statement) -> Seq<KindView> {
    pipeline_kinds(statement.first) + (connected_kinds(statement.rest) + seq![
        if statement.newline {
            KindView::Newline
        } else {
            KindView::Semi
        },
    ])
}

pub open spec fn then_of(then: Then) -> AndOrView {
    AndOrView { op: then.op, pipeline: pipeline_of(then.commands) }
}

pub open spec fn statement_of(statement: Statement) -> ListView {
    ListView {
        first: pipeline_of(statement.first),
        rest: statement.rest.map_values(|then: Then| then_of(then)),
    }
}

pub open spec fn statement_fits(statement: Statement) -> bool {
    &&& pipeline_fits(statement.first)
    &&& forall|i: int|
        0 <= i < statement.rest.len() ==> pipeline_fits((#[trigger] statement.rest[i]).commands)
}

/// The tokens that a program is written as.
pub open spec fn program_kinds(statements: Seq<Statement>) -> Seq<KindView>
    decreases statements.len(),
{
    if statements.len() == 0 {
        seq![]
    } else {
        statement_kinds(statements[0]) + program_kinds(statements.skip(1))
    }
}

/// The lists of a program.
pub open spec fn lists_of(statements: Seq<Statement>) -> Seq<ListView> {
    statements.map_values(|statement: Statement| statement_of(statement))
}

proof fn lemma_connected(s: Seq<char>, t: Seq<TokenView>, c: int, read: ListView, rest: Seq<Then>)
    requires
        forall|i: int| 0 <= i < rest.len() ==> pipeline_fits((#[trigger] rest[i]).commands),
        kinds_at(t, c, connected_kinds(rest)),
        0 <= c + connected_kinds(rest).len() < t.len(),
        t[c + connected_kinds(rest).len()].kind is Semi || t[c
            + connected_kinds(rest).len()].kind is Newline,
    ensures
        pipeline_ends(t, c),
        parse::list_from(s, t, c, read) == Ok::<(ListView, int), ErrorView>(
            (
                ListView {
                    first: read.first,
                    rest: read.rest + rest.map_values(|then: Then| then_of(then)),
                },
                c + connected_kinds(rest).len(),
            ),
        ),
    decreases rest.len(),
{
    let views = rest.map_values(|then: Then| then_of(then));
    if rest.len() == 0 {
        assert(read.rest + views =~= read.rest);
    } else {
        let first = rest[0];
        let more = rest.skip(1);
        let own = pipeline_kinds(first.commands);
        let connector = seq![connector_kind(first.op)];
        lemma_kinds(t, c, connector, own + connected_kinds(more));
        lemma_kinds(t, c + 1, own, connected_kinds(more));
        assert(t[c + 0].kind == connector[0]);
        assert forall|i: int| 0 <= i < more.len() implies pipeline_fits(
            (#[trigger] more[i]).commands,
        ) by {
            assert(more[i] == rest[i + 1]);
        }
        assert(pipeline_fits(rest[0].commands));
        let next = ListView { first: read.first, rest: read.rest.push(then_of(first)) };
        lemma_connected(s, t, c + 1 + own.len(), next, more);
        lemma_read_pipeline(s, t, c + 1, first.commands, parse::expected_after(first.op));
        assert(next.rest + more.map_values(|then: Then| then_of(then)) =~= read.rest + views);
        assert(parse::and_or_at(t, c) == Some(first.op));
    }
}

/// What a statement is written as is read as that statement.
proof fn lemma_read_statement(s: Seq<char>, t: Seq<TokenView>, c: int, statement: Statement)
    requires
        statement_fits(statement),
        kinds_at(t, c, statement_kinds(statement)),
    ensures
        statement_kinds(statement).len() > 1,
        parse::newlines_end(t, c) == c,
        parse::list_at(s, t, c) == Ok::<(ListView, int), ErrorView>(
            (statement_of(statement), c + statement_kinds(statement).len() - 1),
        ),
        t[c + statement_kinds(statement).len() - 1].kind == (if statement.newline {
            KindView::Newline
        } else {
            KindView::Semi
        }),
{
    let own = pipeline_kinds(statement.first);
    let more = connected_kinds(statement.rest);
    let end = seq![
        if statement.newline {
            KindView::Newline
        } else {
            KindView::Semi
        },
    ];
    lemma_kinds(t, c, own, more + end);
    lemma_kinds(t, c + own.len(), more, end);
    assert(t[c + own.len() + more.len() + 0].kind == end[0]);
    let first = pipeline_of(statement.first);
    let read = ListView { first, rest: seq![] };
    lemma_connected(s, t, c + own.len(), read, statement.rest);
    lemma_read_pipeline(s, t, c, statement.first, "command"@);
    let views = statement.rest.map_values(|then: Then| then_of(then));
    assert(read.rest + views =~= views);
}

proof fn lemma_read_program(
    s: Seq<char>,
    t: Seq<TokenView>,
    c: int,
    read: Seq<ListView>,
    statements: Seq<Statement>,
)
    requires
        forall|i: int| 0 <= i < statements.len() ==> statement_fits(#[trigger] statements[i]),
        kinds_at(t, c, program_kinds(statements)),
        c + program_kinds(statements).len() == t.len(),
    ensures
        parse::newlines_end(t, c) == c,
        parse::program_from(s, t, c, read) == Ok::<Seq<ListView>, ErrorView>(
            read + lists_of(statements),
        ),
    decreases statements.len(),
{
    if statements.len() == 0 {
        assert(read + lists_of(statements) =~= read);
    } else {
        let first = statements[0];
        let rest = statements.skip(1);
        let own = statement_kinds(first);
        lemma_kinds(t, c, own, program_kinds(rest));
        assert(statement_fits(statements[0]));
        assert forall|i: int| 0 <= i < rest.len() implies statement_fits(#[trigger] rest[i]) by {
            assert(rest[i] == statements[i + 1]);
        }
        lemma_read_statement(s, t, c, first);
        let list = statement_of(first);
        lemma_read_program(s, t, c + own.len(), read.push(list), rest);
        assert(read.push(list) + lists_of(rest) =~= read + lists_of(statements));
    }
}

/// A program is read as it is written. Where the words, operators and redirects on a command line
/// are those that a program is written as, with blanks where they are needed, the command line is
/// that program: its commands with their assignments, words and redirects in order, pipes between
/// the commands of a pipeline, `&&` and `||` between pipelines, and `;` or a new line behind each
/// list.
pub proof fn law_programs_are_read_as_written(
    marks: Seq<Mark>,
    blanks: Seq<bool>,
    statements: Seq<Statement>,
)
    requires
        forall|i: int| 0 <= i < marks.len() ==> mark_fits(#[trigger] marks[i]),
        well_spaced(marks, blanks),
        forall|i: int| 0 <= i < statements.len() ==> statement_fits(#[trigger] statements[i]),
        marks.map_values(|mark: Mark| mark_kind(mark)) == program_kinds(statements),
    ensures
        parse::program_of(spaced_line(marks, blanks)) == Ok::<Seq<ListView>, ErrorView>(
            lists_of(statements),
        ),
{
    law_spaced_marks_are_tokens(marks, blanks);
    let s = spaced_line(marks, blanks);
    let t = lex::tokens_of(s)->Ok_0;
    let kinds = program_kinds(statements);
    assert(kinds.len() == marks.len());
    assert forall|i: int| 0 <= i < kinds.len() implies (#[trigger] t[0 + i]).kind == kinds[i] by {
        assert(t[i].kind == mark_kind(marks[i]));
        assert(kinds[i] == marks.map_values(|mark: Mark| mark_kind(mark))[i]);
    }
    assert(kinds_at(t, 0, kinds));
    let none: Seq<ListView> = seq![];
    lemma_read_program(s, t, 0, none, statements);
    assert(none + lists_of(statements) =~= lists_of(statements));
}

// ---- a word alone ----

/// A word that stands alone on a command line is a command of that one word.
pub proof fn law_a_word_alone_is_a_command(parts: Seq<Spelling>)
    requires
        word_fits(parts),
        no_assignment(word_segments(parts)),
        word_segments(parts) != seq![SegmentView::Literal { value: seq!['!'], quoted: false }],
    ensures
        parse::program_of(word_spelled(parts)) == Ok::<Seq<ListView>, ErrorView>(
            seq![
                ListView {
                    first: seq![
                        SimpleView {
                            assignments: seq![],
                            words: seq![word_segments(parts)],
                            redirects: seq![],
                        },
                    ],
                    rest: seq![],
                },
            ],
        ),
{
    let s = word_spelled(parts);
    let n = s.len() as int;
    let word = word_segments(parts);
    assert(s.subrange(0, n) =~= s);
    lemma_word_token(s, parts);
    let token = TokenView { kind: KindView::Word(word), start: 0 };
    let t = seq![token];
    assert(Seq::<TokenView>::empty().push(token) =~= t);
    assert(lex::tokens_from(s, n, t) == Ok::<Seq<TokenView>, ErrorView>(t));
    assert(lex::tokens_of(s) == Ok::<Seq<TokenView>, ErrorView>(t));
    let items = seq![Item::Word(word)];
    reveal_with_fuel(command_of, 2);
    reveal_with_fuel(command_kinds, 2);
    assert(items.drop_last() =~= Seq::<Item>::empty());
    assert(items.skip(1) =~= Seq::<Item>::empty());
    assert(command_kinds(items) =~= seq![KindView::Word(word)]);
    assert(command_fits(items));
    let command = command_of(items);
    assert(command.words =~= seq![word]);
    lemma_command_at(s, t, 0, items, "command"@);
    assert(parse::pipeline_at(s, t, 0, "command"@) == Ok::<(Seq<SimpleView>, int), ErrorView>(
        (seq![command], 1),
    ));
    let list = ListView { first: seq![command], rest: seq![] };
    assert(parse::list_at(s, t, 0) == Ok::<(ListView, int), ErrorView>((list, 1)));
    assert(Seq::<ListView>::empty().push(list) =~= seq![list]);
}

/// Double quotes keep every text as it is, where a backslash stands before each double quote,
/// backslash, dollar sign and backtick: the quoted text is one command of one word, and that word
/// is the text.
pub proof fn law_double_quotes_keep_escaped_text(t: Seq<char>)
    ensures
        parse::program_of(seq!['"'] + escaped(t) + seq!['"']) == Ok::<Seq<ListView>, ErrorView>(
            seq![
                ListView {
                    first: seq![
                        SimpleView {
                            assignments: seq![],
                            words: seq![seq![SegmentView::Literal { value: t, quoted: true }]],
                            redirects: seq![],
                        },
                    ],
                    rest: seq![],
                },
            ],
        ),
{
    let inners = if t.len() == 0 {
        seq![]
    } else {
        seq![Inner::Text(t)]
    };
    let parts = seq![Spelling::Double(inners)];
    let segments = seq![SegmentView::Literal { value: t, quoted: true }];
    reveal_with_fuel(inners_spelled, 2);
    reveal_with_fuel(word_spelled, 2);
    reveal_with_fuel(word_segments, 2);
    assert(inners_spelled(inners) =~= escaped(t));
    assert(word_spelled(parts) =~= seq!['"'] + escaped(t) + seq!['"']);
    if t.len() == 0 {
        assert(t =~= Seq::<char>::empty());
    }
    assert(part_segments(parts[0])[0] == segments[0]);
    assert(part_segments(parts[0]) =~= segments);
    assert(word_segments(parts) =~= segments);
    assert(segments[0] != SegmentView::Literal { value: seq!['!'], quoted: false });
    assert(segments != seq![SegmentView::Literal { value: seq!['!'], quoted: false }]) by {
        let bang = seq![SegmentView::Literal { value: seq!['!'], quoted: false }];
        if segments == bang {
            assert(segments[0] == bang[0]);
        }
    }
    assert(word_fits(parts));
    law_a_word_alone_is_a_command(parts);
}

/// The names that can be assigned are those that variables can have.
pub proof fn law_names_are_letters_digits_and_underscores(name: Seq<char>)
    ensures
        parse::assignment_name(name) <==> variable_name(name),
{
    if parse::assignment_name(name) {
        assert forall|i: int| 0 <= i < name.len() implies (('a' <= #[trigger] name[i] <= 'z') || (
        'A' <= name[i] <= 'Z') || ('0' <= name[i] <= '9') || name[i] == '_') by {
            assert(lex::name_char(name[i]));
        }
    }
    if variable_name(name) {
        assert forall|i: int| 0 <= i < name.len() implies lex::name_char(#[trigger] name[i]) by {}
    }
}

// ---- what is refused ----

/// The constructs that characters start which the language does not have.
pub open spec fn refused_construct(c: char) -> Option<UnsupportedConstruct> {
    match c {
        '*' => Some(UnsupportedConstruct::Glob),
        '?' => Some(UnsupportedConstruct::Glob),
        '`' => Some(UnsupportedConstruct::Backticks),
        '(' => Some(UnsupportedConstruct::Subshell),
        ')' => Some(UnsupportedConstruct::Subshell),
        '{' => Some(UnsupportedConstruct::BraceExpansion),
        '}' => Some(UnsupportedConstruct::BraceExpansion),
        _ => None,
    }
}

/// Where the first token fails, so does the command line.
proof fn lemma_first_token_fails(s: Seq<char>, error: ErrorView)
    requires
        s.len() > 0,
        lex::token_step(s, 0) == Err::<(Option<TokenView>, int), ErrorView>(error),
    ensures
        parse::program_of(s) == Err::<Seq<ListView>, ErrorView>(error),
{
}

/// A character that starts something that the language does not have is refused in a word, at the
/// place where it stands, and with what it starts.
pub proof fn law_special_characters_are_refused(t: Seq<char>, c: char, rest: Seq<char>)
    requires
        forall|k: int| 0 <= k < t.len() ==> plain_char(#[trigger] t[k]),
        t.len() > 0 ==> t[0] != '#',
        refused_construct(c) is Some,
    ensures
        parse::program_of(t + seq![c] + rest) == Err::<Seq<ListView>, ErrorView>(
            ErrorView {
                position: text::byte_len(t),
                kind: ErrorKindView::Unsupported(refused_construct(c)->Some_0),
            },
        ),
{
    let s = t + seq![c] + rest;
    let n = t.len() as int;
    assert(s.subrange(0, n) =~= t);
    assert(s.take(n) =~= t);
    assert(s[n] == c);
    assert forall|x: int| 0 <= x < t.len() implies #[trigger] t[x] != '<' && t[x] != '>' by {
        assert(plain_char(t[x]));
    }
    lemma_digits_stay(s, t, 0);
    let none: Seq<char> = seq![];
    let start = lex::fresh_word();
    let after = lemma_read_bare(s, 0, start.segments, none, t, start);
    if n > 0 {
        assert(plain_char(t[0]));
        assert(s[0] == t[0]);
    }
    assert(lex::blanks_end(s, 0) == 0);
    assert(lex::word_from(s, n, after) == Err::<
        (Option<Seq<SegmentView>>, int),
        ErrorView,
    >(lex::unsupported(s, n, refused_construct(c)->Some_0)));
    lemma_first_token_fails(s, lex::unsupported(s, n, refused_construct(c)->Some_0));
}

/// A quote that is not closed is refused at the place where it was opened.
pub proof fn law_open_quotes_are_refused(t: Seq<char>)
    ensures
        parse::program_of(seq!['"'] + escaped(t)) == Err::<Seq<ListView>, ErrorView>(
            ErrorView {
                position: 0,
                kind: ErrorKindView::UnterminatedQuote { quote: QuoteKind::Double },
            },
        ),
        !t.contains('\'') ==> parse::program_of(seq!['\''] + t) == Err::<Seq<ListView>, ErrorView>(
            ErrorView {
                position: 0,
                kind: ErrorKindView::UnterminatedQuote { quote: QuoteKind::Single },
            },
        ),
{
    let none: Seq<SegmentView> = seq![];
    let s = seq!['"'] + escaped(t);
    let n = s.len() as int;
    assert(s[0] == '"');
    assert(s.subrange(1, n) =~= escaped(t));
    assert(s.take(0) =~= Seq::<char>::empty());
    lemma_read_escaped(s, 0, 1, none, seq![], t, false);
    assert(lex::blanks_end(s, 0) == 0);
    assert(lex::digits_end(s, 0) == 0);
    let error = lex::failure(
        s,
        0,
        ErrorKindView::UnterminatedQuote { quote: QuoteKind::Double },
    );
    assert(lex::word_step(s, 0, lex::fresh_word()) == Err::<(WordState, int), ErrorView>(error));
    lemma_first_token_fails(s, error);
    assert(text::offset(s, 0) == 0);
    if !t.contains('\'') {
        let z = seq!['\''] + t;
        let m = z.len() as int;
        assert(z[0] == '\'');
        text::lemma_find_from(z, '\'', 1);
        let end = text::find_from(z, '\'', 1);
        if end < m {
            assert(t[end - 1] == z[end]);
            assert(t.contains(t[end - 1]));
        }
        assert(z.take(0) =~= Seq::<char>::empty());
        assert(lex::blanks_end(z, 0) == 0);
        assert(lex::digits_end(z, 0) == 0);
        let failed = lex::failure(
            z,
            0,
            ErrorKindView::UnterminatedQuote { quote: QuoteKind::Single },
        );
        assert(lex::word_step(z, 0, lex::fresh_word()) == Err::<(WordState, int), ErrorView>(
            failed,
        ));
        lemma_first_token_fails(z, failed);
        assert(text::offset(z, 0) == 0);
    }
}

/// A tilde in front of a word is refused: it would stand for a directory.
pub proof fn law_tildes_in_front_are_refused(rest: Seq<char>)
    ensures
        parse::program_of(seq!['~'] + rest) == Err::<Seq<ListView>, ErrorView>(
            ErrorView {
                position: 0,
                kind: ErrorKindView::Unsupported(UnsupportedConstruct::TildeExpansion),
            },
        ),
{
    let s = seq!['~'] + rest;
    assert(s[0] == '~');
    assert(s.take(0) =~= Seq::<char>::empty());
    assert(lex::blanks_end(s, 0) == 0);
    assert(lex::digits_end(s, 0) == 0);
    let error = lex::unsupported(s, 0, UnsupportedConstruct::TildeExpansion);
    assert(lex::word_step(s, 0, lex::fresh_word()) == Err::<(WordState, int), ErrorView>(error));
    lemma_first_token_fails(s, error);
    assert(text::offset(s, 0) == 0);
}

proof fn lemma_source_index(s: Seq<char>, i: int, n: int)
    requires
        0 <= i <= n < s.len(),
        forall|k: int| i <= k < n ==> plain_char(#[trigger] s[k]),
    ensures
        parse::source_index(s, i, (n - i) as nat) == n,
    decreases n - i,
{
    if i < n {
        assert(plain_char(s[i]));
        lemma_source_index(s, i + 1, n);
    }
}

/// Appending to a variable is refused, at its plus sign.
pub proof fn law_appending_assignments_are_refused(name: Seq<char>, t: Seq<char>)
    requires
        variable_name(name),
        forall|k: int| 0 <= k < t.len() ==> plain_char(#[trigger] t[k]),
    ensures
        parse::program_of(name + seq!['+', '='] + t) == Err::<Seq<ListView>, ErrorView>(
            ErrorView {
                position: text::byte_len(name),
                kind: ErrorKindView::Unsupported(UnsupportedConstruct::AppendAssignment),
            },
        ),
{
    let s = name + seq!['+', '='] + t;
    let n = name.len() as int;
    assert forall|k: int| 0 <= k < s.len() implies plain_char(#[trigger] s[k]) by {
        if k < n {
            assert(s[k] == name[k]);
        } else if k >= n + 2 {
            assert(s[k] == t[k - n - 2]);
        }
    }
    let parts = seq![Spelling::Bare(s)];
    let word = seq![SegmentView::Literal { value: s, quoted: false }];
    reveal_with_fuel(word_spelled, 2);
    reveal_with_fuel(word_segments, 2);
    assert(parts.skip(1) =~= Seq::<Spelling>::empty());
    assert(word_spelled(parts) =~= s);
    assert(word_segments(parts) =~= word);
    assert(s[0] == name[0]);
    assert(word_fits(parts));
    assert(s.subrange(0, s.len() as int) =~= s);
    lemma_word_token(s, parts);
    let token = TokenView { kind: KindView::Word(word), start: 0 };
    let tokens = seq![token];
    assert(Seq::<TokenView>::empty().push(token) =~= tokens);
    assert(lex::tokens_from(s, s.len() as int, tokens) == Ok::<Seq<TokenView>, ErrorView>(tokens));
    assert(lex::tokens_of(s) == Ok::<Seq<TokenView>, ErrorView>(tokens));
    lemma_append_at(s, n, 0);
    assert(s.take(n) =~= name);
    law_names_are_letters_digits_and_underscores(name);
    lemma_source_index(s, 0, n);
    let error = lex::unsupported(s, n, UnsupportedConstruct::AppendAssignment);
    assert(parse::assignment_of(s, word, 0) == Err::<Option<AssignmentView>, ErrorView>(error));
    assert(!parse::negation(tokens[0].kind)) by {
        let bang = seq![SegmentView::Literal { value: seq!['!'], quoted: false }];
        if word == bang {
            assert(word[0] == bang[0]);
            assert(s.len() == 1);
        }
    }
    assert(parse::command_at(s, tokens, 0, "command"@) == Err::<(SimpleView, int), ErrorView>(
        error,
    ));
    assert(parse::newlines_end(tokens, 0) == 0);
    assert(parse::list_at(s, tokens, 0) == Err::<(ListView, int), ErrorView>(error));
}

proof fn lemma_append_at(v: Seq<char>, n: int, i: int)
    requires
        0 <= i <= n,
        n + 1 < v.len(),
        v[n] == '+',
        v[n + 1] == '=',
        forall|k: int|
            0 <= k < n ==> (('a' <= #[trigger] v[k] <= 'z') || ('A' <= v[k] <= 'Z') || ('0' <= v[k]
                <= '9') || v[k] == '_'),
    ensures
        parse::find_append(v, i) == n,
    decreases n - i,
{
    if i < n {
        lemma_append_at(v, n, i + 1);
    }
}

/// A comment goes from its sign to the end of its line, and changes nothing but where the errors
/// behind it stand.
pub proof fn law_comments_change_nothing(t: Seq<char>, rest: Seq<char>)
    requires
        !t.contains('\n'),
    ensures
        parse::program_of(seq!['#'] + t) == Ok::<Seq<ListView>, ErrorView>(seq![]),
        parse::program_of(seq!['#'] + t + (seq!['\n'] + rest)) == moved::moved_program(
            parse::program_of(seq!['\n'] + rest),
            text::byte_len(seq!['#'] + t),
        ),
{
    let front = seq!['#'] + t;
    assert(front.skip(1) =~= t);
    lemma_only_a_comment(front);
    lemma_comment_in_front(front, seq!['\n'] + rest);
}

proof fn lemma_only_a_comment(front: Seq<char>)
    requires
        front.len() > 0,
        front[0] == '#',
        !front.skip(1).contains('\n'),
    ensures
        parse::program_of(front) == Ok::<Seq<ListView>, ErrorView>(seq![]),
{
    let none: Seq<TokenView> = seq![];
    let k = front.len() as int;
    assert(front.subrange(0, k) =~= front);
    lemma_comment_end(front, front);
    assert(lex::tokens_from(front, k, none) == Ok::<Seq<TokenView>, ErrorView>(none));
    assert(lex::tokens_of(front) == Ok::<Seq<TokenView>, ErrorView>(none));
    assert(parse::newlines_end(none, 0) == 0);
}

proof fn lemma_comment_in_front(front: Seq<char>, s: Seq<char>)
    requires
        front.len() > 0,
        front[0] == '#',
        !front.skip(1).contains('\n'),
        s.len() > 0,
        s[0] == '\n',
    ensures
        parse::program_of(front + s) == moved::moved_program(
            parse::program_of(s),
            text::byte_len(front),
        ),
{
    let z = front + s;
    let k = front.len() as int;
    let d = text::byte_len(front);
    assert(z[k] == s[0]);
    assert(z.subrange(0, k) =~= front);
    lemma_comment_end(front, z);
    assert(z.take(k) =~= front);
    assert(s.take(0) =~= Seq::<char>::empty());
    assert(text::offset(s, 0) == 0);
    assert forall|x: int| 0 <= x < s.len() implies #[trigger] s[x] == z[x + k] by {}
    assert(moved::ends_alike(s, z, 0, k, d));
    lemma_moved_program(s, z, k, d);
}

/// What has no tokens in front of a command line changes nothing but where its errors stand.
proof fn lemma_moved_program(s: Seq<char>, z: Seq<char>, k: int, d: nat)
    requires
        moved::ends_alike(s, z, 0, k, d),
        lex::tokens_from(z, 0, seq![]) == lex::tokens_from(z, k, seq![]),
    ensures
        parse::program_of(z) == moved::moved_program(parse::program_of(s), d),
{
    let none: Seq<TokenView> = seq![];
    moved::lemma_tokens(s, z, 0, k, d, 0, none, none);
    match lex::tokens_of(s) {
        Err(_) => {},
        Ok(tokens) => {
            assert(tokens.skip(0) =~= tokens);
            let other = moved::moved_tokens(tokens, k);
            assert(none + other =~= other);
            assert(lex::tokens_of(z) == Ok::<Seq<TokenView>, ErrorView>(other));
            assert forall|x: int| 0 <= x < tokens.len() implies 0 <= (#[trigger] tokens[x]).start
                < s.len() by {}
            assert(moved::tokens_end_alike(s, tokens, other, 0, k, 0, 0));
            moved::lemma_newlines(s, tokens, other, 0, k, 0, 0, 0);
            let c = parse::newlines_end(tokens, 0);
            parse::lemma_newlines_end(tokens, 0);
            moved::lemma_program(s, z, 0, k, d, tokens, other, 0, 0, c, seq![]);
        },
    }
}

/// Where a comment at the start of a text ends.
proof fn lemma_comment_end(front: Seq<char>, z: Seq<char>)
    requires
        front.len() > 0,
        front[0] == '#',
        !front.skip(1).contains('\n'),
        stands_at(z, 0, front),
        front.len() < z.len() ==> z[front.len() as int] == '\n',
    ensures
        lex::token_step(z, 0) == Ok::<(Option<TokenView>, int), ErrorView>(
            (None, front.len() as int),
        ),
        lex::tokens_from(z, 0, seq![]) == lex::tokens_from(z, front.len() as int, seq![]),
{
    lemma_stands_char(z, 0, front, 0);
    text::lemma_find_from(z, '\n', 0);
    let end = text::find_from(z, '\n', 0);
    if end < front.len() {
        lemma_stands_char(z, 0, front, end);
        if end > 0 {
            assert(front.skip(1)[end - 1] == '\n');
        }
    }
    assert(lex::blanks_end(z, 0) == 0);
}

} // verus!
