//! Line continuation: a newline in front of a command line, or behind `&&`, `||` or `|`, changes
//! nothing of what the line means.

use vstd::prelude::*;

use crate::shell::laws;
use crate::shell::lex;
use crate::shell::lex::{KindView, TokenView, WordState};
use crate::shell::moved;
use crate::shell::parse;
use crate::shell::RedirectOp;
use crate::shell::{AndOrView, ErrorView, ListView, SegmentView, SimpleView};
use crate::text;

verus! {

proof fn lemma_newline_step(z: Seq<char>, q: int)
    requires
        0 <= q < z.len(),
        z[q] == '\n',
    ensures
        lex::token_step(z, q) == Ok::<(Option<TokenView>, int), ErrorView>(
            (Some(TokenView { kind: KindView::Newline, start: q }), q + 1),
        ),
        text::offset(z, q + 1) == text::offset(z, q) + 1,
{
    assert(lex::blanks_end(z, q) == q);
    assert(lex::digits_end(z, q) == q);
    text::lemma_offset_step(z, q);
}

/// A newline in front of a command line changes nothing but where its errors stand: one byte
/// further on.
pub proof fn law_newlines_in_front_change_nothing(s: Seq<char>)
    ensures
        parse::program_of(seq!['\n'] + s) == moved::moved_program(parse::program_of(s), 1),
{
    let z = seq!['\n'] + s;
    let newline = TokenView { kind: KindView::Newline, start: 0 };
    assert(z[0] == '\n');
    assert forall|x: int| 0 <= x < s.len() implies #[trigger] s[x] == z[x + 1] by {}
    text::lemma_offset_bounds(s, 0);
    text::lemma_offset_bounds(z, 0);
    lemma_newline_step(z, 0);
    assert(moved::ends_alike(s, z, 0, 1, 1));
    let none: Seq<TokenView> = seq![];
    let first = none.push(newline);
    assert(lex::tokens_of(z) == lex::tokens_from(z, 1, first));
    moved::lemma_tokens(s, z, 0, 1, 1, 0, none, first);
    match lex::tokens_of(s) {
        Err(_) => {},
        Ok(t) => {
            assert(t.skip(0) =~= t);
            let other = first + moved::moved_tokens(t, 1);
            assert(lex::tokens_of(z) == Ok::<Seq<TokenView>, ErrorView>(other));
            assert(moved::tokens_end_alike(s, t, other, 0, 1, 0, 1));
            moved::lemma_newlines(s, t, other, 0, 1, 0, 1, 0);
            assert(other[0] == newline);
            assert(parse::newlines_end(other, 0) == parse::newlines_end(other, 1));
            let c = parse::newlines_end(t, 0);
            moved::lemma_program(s, z, 0, 1, 1, t, other, 0, 1, c, seq![]);
        },
    }
}

/// Whether `z` begins with the first `q` characters of `s`.
pub open spec fn begins_alike(s: Seq<char>, z: Seq<char>, q: int) -> bool {
    &&& 0 <= q <= s.len()
    &&& q <= z.len()
    &&& forall|x: int| 0 <= x < q ==> #[trigger] s[x] == z[x]
}

proof fn lemma_same_offset(s: Seq<char>, z: Seq<char>, q: int, i: int)
    requires
        begins_alike(s, z, q),
        0 <= i <= q,
    ensures
        text::offset(z, i) == text::offset(s, i),
{
    assert(s.take(i) =~= z.take(i));
}

proof fn lemma_same_name(s: Seq<char>, z: Seq<char>, q: int, i: int)
    requires
        begins_alike(s, z, q),
        0 <= i,
        lex::name_end(s, i) < q,
    ensures
        lex::name_end(z, i) == lex::name_end(s, i),
        i <= lex::name_end(s, i),
    decreases s.len() - i,
{
    if i < s.len() && lex::name_char(s[i]) {
        lemma_same_name(s, z, q, i + 1);
    }
}

proof fn lemma_same_blanks(s: Seq<char>, z: Seq<char>, q: int, i: int)
    requires
        begins_alike(s, z, q),
        0 <= i,
        lex::blanks_end(s, i) < q,
    ensures
        lex::blanks_end(z, i) == lex::blanks_end(s, i),
        i <= lex::blanks_end(s, i),
    decreases s.len() - i,
{
    if lex::at(s, i, ' ') || lex::at(s, i, '\t') {
        lemma_same_blanks(s, z, q, i + 1);
    }
}

proof fn lemma_same_find(s: Seq<char>, z: Seq<char>, q: int, c: char, i: int)
    requires
        begins_alike(s, z, q),
        0 <= i,
        text::find_from(s, c, i) < q,
    ensures
        text::find_from(z, c, i) == text::find_from(s, c, i),
        i <= text::find_from(s, c, i),
    decreases s.len() - i,
{
    if i < s.len() && s[i] != c {
        lemma_same_find(s, z, q, c, i + 1);
    }
}

/// Digits end at the latest where something else stands.
proof fn lemma_digits_stop(s: Seq<char>, z: Seq<char>, q: int, i: int, w: int)
    requires
        begins_alike(s, z, q),
        0 <= i <= w < q,
        !text::is_digit(s[w]),
    ensures
        i <= lex::digits_end(s, i) <= w,
        lex::digits_end(z, i) == lex::digits_end(s, i),
    decreases w - i,
{
    assert(s[i] == z[i]);
    if text::is_digit(s[i]) {
        lemma_digits_stop(s, z, q, i + 1, w);
    }
}

proof fn lemma_same_bracket(s: Seq<char>, z: Seq<char>, q: int, i: int, w: int)
    requires
        begins_alike(s, z, q),
        0 <= i <= w < q,
        lex::word_break_char(s[w]),
    ensures
        lex::bracket_closes(z, i) == lex::bracket_closes(s, i),
    decreases w - i,
{
    assert(s[i] == z[i]);
    if s[i] != ']' && !lex::word_break_char(s[i]) {
        lemma_same_bracket(s, z, q, i + 1, w);
    }
}

proof fn lemma_same_expansion(
    s: Seq<char>,
    z: Seq<char>,
    q: int,
    i: int,
    quoted: bool,
    segments: Seq<SegmentView>,
)
    requires
        begins_alike(s, z, q),
        0 <= i < q,
        lex::expansion(s, i, quoted, segments) matches Ok((_, j)) && j < q,
    ensures
        lex::expansion(z, i, quoted, segments) == lex::expansion(s, i, quoted, segments),
{
    lex::lemma_expansion_advances(s, i, quoted, segments);
    assert(i + 1 < s.len());
    assert(s[i + 1] == z[i + 1]);
    if s[i + 1] == '{' {
        lex::lemma_name_end(s, i + 2);
        assert(s[i + 2] == z[i + 2]);
        if s[i + 2] != '?' {
            let end = lex::name_end(s, i + 2);
            lemma_same_name(s, z, q, i + 2);
            assert(z.subrange(i + 2, end) =~= s.subrange(i + 2, end));
        }
    } else if s[i + 1] != '?' && lex::name_start_char(s[i + 1]) {
        let end = lex::name_end(s, i + 1);
        lemma_same_name(s, z, q, i + 1);
        assert(z.subrange(i + 1, end) =~= s.subrange(i + 1, end));
    }
}

proof fn lemma_same_double_quoted(
    s: Seq<char>,
    z: Seq<char>,
    q: int,
    start: int,
    i: int,
    segments: Seq<SegmentView>,
    had: bool,
)
    requires
        begins_alike(s, z, q),
        0 <= start < i,
        lex::double_quoted(s, start, i, segments, had) matches Ok((_, j)) && j < q,
    ensures
        lex::double_quoted(z, start, i, segments, had) == lex::double_quoted(
            s,
            start,
            i,
            segments,
            had,
        ),
    decreases s.len() - i,
{
    lex::lemma_double_quoted_advances(s, start, i, segments, had);
    assert(s[i] == z[i]);
    if s[i] == '"' {
    } else if s[i] == '\\' {
        let (next, j) = lex::double_quoted_escape(s, i, segments)->Ok_0;
        lex::lemma_double_quoted_advances(s, start, j, next, had || s[i + 1] != '\n');
        assert(s[i + 1] == z[i + 1]);
        lemma_same_double_quoted(s, z, q, start, j, next, had || s[i + 1] != '\n');
    } else if s[i] == '$' {
        lex::lemma_expansion_advances(s, i, true, segments);
        let (next, j) = lex::expansion(s, i, true, segments)->Ok_0;
        lex::lemma_double_quoted_advances(s, start, j, next, true);
        lemma_same_expansion(s, z, q, i, true, segments);
        lemma_same_double_quoted(s, z, q, start, j, next, true);
    } else {
        let next = lex::with_char(segments, s[i], true);
        lemma_same_double_quoted(s, z, q, start, i + 1, next, true);
    }
}

proof fn lemma_same_word_step(
    s: Seq<char>,
    z: Seq<char>,
    q: int,
    i: int,
    state: WordState,
    w: int,
)
    requires
        begins_alike(s, z, q),
        0 <= i < q,
        lex::word_step(s, i, state) matches Ok((_, j)) && j <= w,
        w < q,
        lex::word_break_char(s[w]),
    ensures
        lex::word_step(z, i, state) == lex::word_step(s, i, state),
{
    lex::lemma_word_step_advances(s, i, state);
    assert(s[i] == z[i]);
    assert(s[i + 1] == z[i + 1]);
    if s[i] == '\'' {
        lemma_same_find(s, z, q, '\'', i + 1);
        let close = text::find_from(s, '\'', i + 1);
        assert(z.subrange(i + 1, close) =~= s.subrange(i + 1, close));
    } else if s[i] == '"' {
        lemma_same_double_quoted(s, z, q, i, i + 1, state.segments, false);
    } else if s[i] == '$' {
        lemma_same_expansion(s, z, q, i, false, state.segments);
    } else if s[i] == '[' {
        lemma_same_bracket(s, z, q, i + 1, w);
    }
}

/// A word that ends before the end of the text ends where something that breaks words stands.
proof fn lemma_word_stops(s: Seq<char>, i: int, state: WordState)
    requires
        0 <= i <= s.len(),
    ensures
        lex::word_from(s, i, state) matches Ok((_, j)) ==> (j < s.len() ==> lex::word_break_char(
            s[j],
        )),
    decreases s.len() - i,
{
    if i < s.len() && !lex::word_break_char(s[i]) {
        lex::lemma_word_step_advances(s, i, state);
        match lex::word_step(s, i, state) {
            Ok((next, j)) => lemma_word_stops(s, j, next),
            Err(_) => {},
        }
    }
}

proof fn lemma_same_word(s: Seq<char>, z: Seq<char>, q: int, i: int, state: WordState)
    requires
        begins_alike(s, z, q),
        0 <= i <= s.len(),
        lex::word_from(s, i, state) matches Ok((_, j)) && j < q,
    ensures
        lex::word_from(z, i, state) == lex::word_from(s, i, state),
    decreases s.len() - i,
{
    lex::lemma_word_advances(s, i, state);
    lemma_word_stops(s, i, state);
    let w = lex::word_from(s, i, state)->Ok_0.1;
    assert(s[i] == z[i]);
    if !lex::word_break_char(s[i]) {
        lex::lemma_word_step_advances(s, i, state);
        let (next, j) = lex::word_step(s, i, state)->Ok_0;
        lex::lemma_word_advances(s, j, next);
        lemma_same_word_step(s, z, q, i, state, w);
        lemma_same_word(s, z, q, j, next);
    }
}

proof fn lemma_same_redirect_rest(
    s: Seq<char>,
    z: Seq<char>,
    q: int,
    p: int,
    fd: Option<u32>,
    op: RedirectOp,
    next: int,
)
    requires
        begins_alike(s, z, q),
        0 <= p < next <= s.len(),
        lex::redirect_rest(s, p, fd, op, next) matches Ok(Some((_, j))) && j < q,
    ensures
        lex::redirect_rest(z, p, fd, op, next) == lex::redirect_rest(s, p, fd, op, next),
{
    if lex::at(s, next, '&') {
        lex::lemma_digits_end(s, next + 1);
        let end = lex::digits_end(s, next + 1);
        lemma_digits_stop(s, z, q, next + 1, end);
        assert(s[next] == z[next]);
        assert(s[end] == z[end]);
        assert(z.subrange(next + 1, end) =~= s.subrange(next + 1, end));
    } else {
        assert(s[next] == z[next]);
    }
}

proof fn lemma_same_redirect_operator(
    s: Seq<char>,
    z: Seq<char>,
    q: int,
    p: int,
    fd: Option<u32>,
)
    requires
        begins_alike(s, z, q),
        0 <= p < q,
        lex::redirect_operator(s, p, fd) matches Ok(found) && (found matches Some((_, j)) ==> j
            < q),
    ensures
        lex::redirect_operator(z, p, fd) == lex::redirect_operator(s, p, fd),
{
    assert(s[p] == z[p]);
    if s[p] == '<' || s[p] == '>' {
        if p + 1 >= q {
            let end = lex::digits_end(s, p + 2);
            if p + 2 <= s.len() {
                lex::lemma_digits_end(s, p + 2);
            }
            if lex::at(s, p + 1, '>') && lex::at(s, p + 2, '&') {
                lex::lemma_digits_end(s, p + 3);
            }
            assert(false);
        }
        assert(s[p + 1] == z[p + 1]);
        if s[p] == '<' {
            lemma_same_redirect_rest(s, z, q, p, fd, RedirectOp::Read, p + 1);
        } else if s[p + 1] == '>' {
            lemma_same_redirect_rest(s, z, q, p, fd, RedirectOp::Append, p + 2);
        } else {
            lemma_same_redirect_rest(s, z, q, p, fd, RedirectOp::Write, p + 1);
        }
    }
}

/// A step that ends before the texts part is the same step in both.
proof fn lemma_same_token_step(s: Seq<char>, z: Seq<char>, q: int, i: int)
    requires
        begins_alike(s, z, q),
        0 <= i < q,
        lex::token_step(s, i) matches Ok((_, j)) && j < q,
    ensures
        lex::token_step(z, i) == lex::token_step(s, i),
{
    lex::lemma_token_step_advances(s, i);
    lex::lemma_blanks_end(s, i);
    let p = lex::blanks_end(s, i);
    let j = lex::token_step(s, i)->Ok_0.1;
    assert(p < s.len());
    if s[p] == '#' {
        text::lemma_find_from(s, '\n', p);
        lemma_same_blanks(s, z, q, i);
        lemma_same_find(s, z, q, '\n', p);
    } else {
        lex::lemma_redirect_advances(s, p);
        lex::lemma_word_advances(s, p, lex::fresh_word());
        assert(p < j);
        lemma_same_blanks(s, z, q, i);
        assert(s[p] == z[p]);
        lex::lemma_digits_end(s, p);
        let end = lex::digits_end(s, p);
        match lex::redirect_at(s, p) {
            Err(_) => {},
            Ok(Some((redirect, _))) => {
                if end > p && (lex::at(s, end, '<') || lex::at(s, end, '>')) {
                    lemma_redirect_operator_advances(s, end, Some(lex::descriptor(s, p, end)->Ok_0));
                    lemma_digits_stop(s, z, q, p, end);
                    assert(s[end] == z[end]);
                    assert(z.subrange(p, end) =~= s.subrange(p, end));
                    lemma_same_redirect_operator(
                        s,
                        z,
                        q,
                        end,
                        Some(lex::descriptor(s, p, end)->Ok_0),
                    );
                } else {
                    lemma_digits_stop(s, z, q, p, p);
                    lemma_same_redirect_operator(s, z, q, p, None);
                }
            },
            Ok(None) => {
                lemma_word_stops(s, p, lex::fresh_word());
                let w = if text::is_digit(s[p]) { j } else { p };
                lemma_digits_stop(s, z, q, p, w);
                assert(s[end] == z[end]);
                lemma_same_redirect_operator(s, z, q, p, None);
                assert(lex::redirect_at(z, p) == lex::redirect_at(s, p));
                if lex::word_break_char(s[p]) {
                    assert(s[p + 1] == z[p + 1]);
                } else {
                    lemma_same_word(s, z, q, p, lex::fresh_word());
                }
            },
        }
    }
}

proof fn lemma_redirect_operator_advances(s: Seq<char>, p: int, fd: Option<u32>)
    requires
        0 <= p < s.len(),
    ensures
        lex::redirect_operator(s, p, fd) matches Ok(Some((_, j))) ==> p < j <= s.len(),
{
    if p + 2 <= s.len() {
        lex::lemma_digits_end(s, p + 2);
    }
    if p + 3 <= s.len() {
        lex::lemma_digits_end(s, p + 3);
    }
}

// ---- behind a connector ----

/// `&&`, `||` and `|`: what a command has to follow.
pub open spec fn connector(kind: KindView) -> bool {
    kind == KindView::AndIf || kind == KindView::OrIf || kind == KindView::Pipe
}

/// Where a connector ends.
pub open spec fn connector_end(token: TokenView) -> int {
    token.start + (if token.kind == KindView::Pipe {
        1int
    } else {
        2
    })
}

/// Whether `u` reads as tokens of which the last is a connector, with nothing but blanks behind.
pub open spec fn ends_in_connector(u: Seq<char>) -> bool {
    lex::tokens_of(u) matches Ok(t) && t.len() > 0 && connector(t.last().kind) && lex::blanks_end(
        u,
        connector_end(t.last()),
    ) == u.len()
}

/// Blanks in front make no difference to the tokens.
pub proof fn lemma_blanks_before(s: Seq<char>, e: int, q: int, before: Seq<TokenView>)
    requires
        0 <= e <= q <= s.len(),
        forall|x: int| e <= x < q ==> #[trigger] s[x] == ' ' || s[x] == '\t',
    ensures
        lex::tokens_from(s, e, before) == lex::tokens_from(s, q, before),
    decreases q - e,
{
    if e < q {
        lemma_blanks_before(s, e + 1, q, before);
        assert(lex::at(s, e, ' ') || lex::at(s, e, '\t'));
        assert(lex::blanks_end(s, e) == lex::blanks_end(s, e + 1));
        if e + 1 < s.len() {
            assert(lex::token_step(s, e) == lex::token_step(s, e + 1));
        } else {
            assert(lex::token_step(s, e) == Ok::<(Option<TokenView>, int), ErrorView>(
                (None, e + 1),
            ));
        }
    }
}

proof fn lemma_blanks(u: Seq<char>, e: int)
    requires
        0 <= e <= u.len(),
    ensures
        forall|x: int|
            e <= x < lex::blanks_end(u, e) ==> #[trigger] u[x] == ' ' || u[x] == '\t',
    decreases u.len() - e,
{
    if lex::at(u, e, ' ') || lex::at(u, e, '\t') {
        lemma_blanks(u, e + 1);
    }
}

/// What is read of `u` is read of a text that begins with it, as far as a connector at its end.
proof fn lemma_reached(u: Seq<char>, s: Seq<char>, i: int, before: Seq<TokenView>)
    requires
        begins_alike(u, s, u.len() as int),
        0 <= i <= u.len(),
        lex::tokens_from(u, i, before) matches Ok(t) && before.len() < t.len() && connector(
            t.last().kind,
        ) && lex::blanks_end(u, connector_end(t.last())) == u.len() && (t.last().kind
            == KindView::Pipe ==> !lex::at(s, connector_end(t.last()), '|')),
    ensures
        lex::tokens_from(s, i, before) == lex::tokens_from(
            s,
            u.len() as int,
            lex::tokens_from(u, i, before)->Ok_0,
        ),
        ({
            let last = lex::tokens_from(u, i, before)->Ok_0.last();
            i <= last.start < connector_end(last) <= u.len() && (u[last.start] == '|' || u[last.start]
                == '&')
        }),
    decreases u.len() - i,
{
    let q = u.len() as int;
    let t = lex::tokens_from(u, i, before)->Ok_0;
    let last = t.last();
    let e = connector_end(last);
    assert(moved::ends_alike(u, u, 0, 0, 0));
    moved::lemma_tokens(u, u, 0, 0, 0, i, before, before);
    assert(i <= last.start < u.len());
    lex::lemma_token_step_advances(u, i);
    let (found, j) = lex::token_step(u, i)->Ok_0;
    let more = match found {
        Some(token) => before.push(token),
        None => before,
    };
    moved::lemma_tokens(u, u, 0, 0, 0, j, more, more);
    assert(t == lex::tokens_from(u, j, more)->Ok_0);
    if t.len() == more.len() {
        assert(t.take(more.len() as int) =~= t);
        assert(t == more);
        let token = found->Some_0;
        assert(last == token);
        lex::lemma_blanks_end(u, i);
        let p = lex::blanks_end(u, i);
        assert(token.start == p && j == e);
        lemma_connector_step(u, s, i);
        lemma_blanks(u, e);
        assert forall|x: int| e <= x < q implies #[trigger] s[x] == ' ' || s[x] == '\t' by {
            assert(u[x] == s[x]);
        }
        lemma_blanks_before(s, e, q, t);
    } else {
        assert(j <= last.start);
        lemma_same_token_step(u, s, q, i);
        lemma_reached(u, s, j, more);
    }
}

/// The step that reads a connector is the same where the texts begin alike, unless a `|` follows.
proof fn lemma_connector_step(u: Seq<char>, s: Seq<char>, i: int)
    requires
        begins_alike(u, s, u.len() as int),
        0 <= i < u.len(),
        lex::token_step(u, i) matches Ok((Some(token), _)) && connector(token.kind) && (token.kind
            == KindView::Pipe ==> !lex::at(s, connector_end(token), '|')),
    ensures
        lex::token_step(s, i) == lex::token_step(u, i),
        lex::token_step(u, i) matches Ok((Some(token), j)) && j == connector_end(token) && j
            <= u.len() && (u[token.start] == '|' || u[token.start] == '&'),
{
    lex::lemma_token_step_advances(u, i);
    lex::lemma_blanks_end(u, i);
    let p = lex::blanks_end(u, i);
    lemma_same_blanks(u, s, u.len() as int, i);
    assert(u[p] == s[p]);
    if p + 1 < u.len() {
        assert(u[p + 1] == s[p + 1]);
    }
    assert(u[p] == '|' || u[p] == '&');
    assert(!text::is_digit(u[p]));
    assert(lex::digits_end(u, p) == p);
    assert(lex::digits_end(s, p) == p);
}

// ---- programs ----

/// Two command lines that differ by what stands behind a connector, the token `x`, at `q`: a blank
/// in one, `f` newlines among `k` characters more in the other.
spec fn continued(
    s: Seq<char>,
    z: Seq<char>,
    t: Seq<TokenView>,
    other: Seq<TokenView>,
    q: int,
    x: int,
    k: nat,
    f: nat,
) -> bool {
    &&& begins_alike(s, z, q)
    &&& moved::ends_alike(s, z, q + 1, k as int, k)
    &&& moved::tokens_end_alike(s, t, other, q + 1, k as int, x + 1, f as int)
    &&& 0 <= x < t.len()
    &&& connector(t[x].kind)
    &&& 0 <= t[x].start < q
    &&& lex::word_break_char(s[t[x].start])
    &&& s[t[x].start] != '\n'
    &&& forall|c: int| 0 <= c <= x ==> #[trigger] other[c] == t[c]
    &&& forall|c: int| 0 <= c <= x ==> 0 <= (#[trigger] t[c]).start <= t[x].start
    &&& forall|c: int| x < c <= x + f ==> (#[trigger] other[c]).kind == KindView::Newline
}

/// What was read up to the connector is unchanged; what was read past it is the same, further on.
spec fn same_reading<T>(
    r: Result<(T, int), ErrorView>,
    other: Result<(T, int), ErrorView>,
    x: int,
    k: nat,
    f: nat,
) -> bool {
    ||| other == r && (r matches Ok((_, next)) ==> next <= x)
    ||| other == moved::moved(r, f as int, k) && (r matches Ok((_, next)) ==> next > x)
}

proof fn lemma_same_source_index(
    s: Seq<char>,
    z: Seq<char>,
    q: int,
    w: int,
    i: int,
    count: nat,
)
    requires
        begins_alike(s, z, q),
        0 <= i <= w < q,
        lex::word_break_char(s[w]),
        s[w] != '\n',
    ensures
        parse::source_index(z, i, count) == parse::source_index(s, i, count),
        i <= parse::source_index(s, i, count) <= w,
    decreases w - i,
{
    assert(s[i] == z[i]);
    if i < w {
        assert(s[i + 1] == z[i + 1]);
    }
    if count == 0 || lex::word_break_char(s[i]) {
    } else if s[i] == '\\' && lex::at(s, i + 1, '\n') {
        lemma_same_source_index(s, z, q, w, i + 2, count);
    } else {
        lemma_same_source_index(s, z, q, w, i + 1, (count - 1) as nat);
    }
}

proof fn lemma_newlines_before(t: Seq<TokenView>, other: Seq<TokenView>, x: int, c: int)
    requires
        0 <= c <= x < t.len(),
        x < other.len(),
        connector(t[x].kind),
        forall|i: int| 0 <= i <= x ==> #[trigger] other[i] == t[i],
    ensures
        parse::newlines_end(other, c) == parse::newlines_end(t, c),
        c <= parse::newlines_end(t, c) <= x,
    decreases x - c,
{
    assert(other[c] == t[c]);
    if parse::is_kind(t, c, KindView::Newline) {
        lemma_newlines_before(t, other, x, c + 1);
    }
}

proof fn lemma_newlines_skipped(t: Seq<TokenView>, c: int, f: nat)
    requires
        0 <= c,
        c + f <= t.len(),
        forall|i: int| c <= i < c + f ==> (#[trigger] t[i]).kind == KindView::Newline,
    ensures
        parse::newlines_end(t, c) == parse::newlines_end(t, c + f),
    decreases f,
{
    if f > 0 {
        assert(t[c].kind == KindView::Newline);
        lemma_newlines_skipped(t, c + 1, (f - 1) as nat);
    }
}

proof fn lemma_newlines_behind(
    s: Seq<char>,
    z: Seq<char>,
    t: Seq<TokenView>,
    other: Seq<TokenView>,
    q: int,
    x: int,
    k: nat,
    f: nat,
)
    requires
        continued(s, z, t, other, q, x, k, f),
    ensures
        parse::newlines_end(other, x + 1) == parse::newlines_end(t, x + 1) + f,
        x + 1 <= parse::newlines_end(t, x + 1) <= t.len(),
{
    lemma_newlines_skipped(other, x + 1, f);
    moved::lemma_newlines(s, t, other, q + 1, k as int, x + 1, f as int, x + 1);
}

proof fn lemma_command_before(
    s: Seq<char>,
    z: Seq<char>,
    t: Seq<TokenView>,
    other: Seq<TokenView>,
    q: int,
    x: int,
    k: nat,
    f: nat,
    c: int,
    read: SimpleView,
)
    requires
        continued(s, z, t, other, q, x, k, f),
        0 <= c <= x,
    ensures
        parse::command_from(z, other, c, read) == parse::command_from(s, t, c, read),
        parse::command_from(s, t, c, read) matches Ok((_, next)) ==> next <= x,
    decreases x - c,
{
    assert(other[c] == t[c]);
    assert(other[x] == t[x]);
    assert(parse::starts_command(other, c) == parse::starts_command(t, c));
    if parse::starts_command(t, c) {
        assert(c < x);
        assert(other[c + 1] == t[c + 1]);
        lemma_same_offset(s, z, q, t[c].start);
        match t[c].kind {
            KindView::Redirect(redirect) => {
                assert(parse::redirect_of(z, other, c, redirect) == parse::redirect_of(
                    s,
                    t,
                    c,
                    redirect,
                ));
                match parse::redirect_of(s, t, c, redirect) {
                    Err(_) => {},
                    Ok((target, next)) => {
                        let more = SimpleView { redirects: read.redirects.push(target), ..read };
                        lemma_command_before(s, z, t, other, q, x, k, f, next, more);
                    },
                }
            },
            _ => {
                let word = t[c].kind->Word_0;
                if word.len() > 0 && word[0] is Literal {
                    let append = parse::find_append(word[0]->Literal_value, 0) as nat;
                    lemma_same_source_index(s, z, q, t[x].start, t[c].start, append);
                    lemma_same_offset(s, z, q, parse::source_index(s, t[c].start, append));
                }
                assert(parse::assignment_of(z, word, t[c].start) == parse::assignment_of(
                    s,
                    word,
                    t[c].start,
                ));
                let assignment = if read.words.len() == 0 {
                    parse::assignment_of(s, word, t[c].start)
                } else {
                    Ok(None)
                };
                match assignment {
                    Err(_) => {},
                    Ok(Some(assignment)) => {
                        let more = SimpleView {
                            assignments: read.assignments.push(assignment),
                            ..read
                        };
                        lemma_command_before(s, z, t, other, q, x, k, f, c + 1, more);
                    },
                    Ok(None) => {
                        let more = SimpleView { words: read.words.push(word), ..read };
                        lemma_command_before(s, z, t, other, q, x, k, f, c + 1, more);
                    },
                }
            },
        }
    }
}

proof fn lemma_command_at_before(
    s: Seq<char>,
    z: Seq<char>,
    t: Seq<TokenView>,
    other: Seq<TokenView>,
    q: int,
    x: int,
    k: nat,
    f: nat,
    c: int,
    expected: Seq<char>,
)
    requires
        continued(s, z, t, other, q, x, k, f),
        0 <= c <= x,
    ensures
        parse::command_at(z, other, c, expected) == parse::command_at(s, t, c, expected),
        parse::command_at(s, t, c, expected) matches Ok((_, next)) ==> c < next <= x,
{
    assert(other[c] == t[c]);
    lemma_same_offset(s, z, q, t[c].start);
    lemma_command_before(s, z, t, other, q, x, k, f, c, parse::empty_command());
    parse::lemma_command_advances(s, t, c, expected);
}

proof fn lemma_pipeline_before(
    s: Seq<char>,
    z: Seq<char>,
    t: Seq<TokenView>,
    other: Seq<TokenView>,
    q: int,
    x: int,
    k: nat,
    f: nat,
    c: int,
    read: Seq<SimpleView>,
)
    requires
        continued(s, z, t, other, q, x, k, f),
        0 <= c <= x,
    ensures
        same_reading(
            parse::pipeline_from(s, t, c, read),
            parse::pipeline_from(z, other, c, read),
            x,
            k,
            f,
        ),
    decreases x - c,
{
    let expected = "command after pipe"@;
    assert(other[c] == t[c]);
    if parse::is_kind(t, c, KindView::Pipe) {
        if c < x {
            lemma_newlines_before(t, other, x, c + 1);
            let after = parse::newlines_end(t, c + 1);
            lemma_command_at_before(s, z, t, other, q, x, k, f, after, expected);
            match parse::command_at(s, t, after, expected) {
                Err(_) => {},
                Ok((command, next)) => lemma_pipeline_before(
                    s,
                    z,
                    t,
                    other,
                    q,
                    x,
                    k,
                    f,
                    next,
                    read.push(command),
                ),
            }
        } else {
            lemma_newlines_behind(s, z, t, other, q, x, k, f);
            let after = parse::newlines_end(t, x + 1);
            moved::lemma_command_at(s, z, q + 1, k as int, k, t, other, x + 1, f as int, after, expected);
            parse::lemma_command_advances(s, t, after, expected);
            match parse::command_at(s, t, after, expected) {
                Err(_) => {},
                Ok((command, next)) => {
                    let more = read.push(command);
                    moved::lemma_pipeline_from(s, z, q + 1, k as int, k, t, other, x + 1, f as int, next, more);
                    parse::lemma_pipeline_from_advances(s, t, next, more);
                },
            }
        }
    }
}

proof fn lemma_pipeline_at_before(
    s: Seq<char>,
    z: Seq<char>,
    t: Seq<TokenView>,
    other: Seq<TokenView>,
    q: int,
    x: int,
    k: nat,
    f: nat,
    c: int,
    expected: Seq<char>,
)
    requires
        continued(s, z, t, other, q, x, k, f),
        0 <= c <= x,
    ensures
        same_reading(
            parse::pipeline_at(s, t, c, expected),
            parse::pipeline_at(z, other, c, expected),
            x,
            k,
            f,
        ),
        parse::pipeline_at(s, t, c, expected) matches Ok((_, next)) ==> c < next <= t.len(),
{
    lemma_command_at_before(s, z, t, other, q, x, k, f, c, expected);
    parse::lemma_pipeline_advances(s, t, c, expected);
    match parse::command_at(s, t, c, expected) {
        Err(_) => {},
        Ok((command, next)) => lemma_pipeline_before(s, z, t, other, q, x, k, f, next, seq![command]),
    }
}

proof fn lemma_list_before(
    s: Seq<char>,
    z: Seq<char>,
    t: Seq<TokenView>,
    other: Seq<TokenView>,
    q: int,
    x: int,
    k: nat,
    f: nat,
    c: int,
    read: ListView,
)
    requires
        continued(s, z, t, other, q, x, k, f),
        0 <= c <= x,
    ensures
        same_reading(parse::list_from(s, t, c, read), parse::list_from(z, other, c, read), x, k, f),
    decreases x - c,
{
    assert(other[c] == t[c]);
    assert(parse::and_or_at(other, c) == parse::and_or_at(t, c));
    match parse::and_or_at(t, c) {
        None => {},
        Some(op) => {
            let expected = parse::expected_after(op);
            let after = parse::newlines_end(t, c + 1);
            if c < x {
                lemma_newlines_before(t, other, x, c + 1);
                lemma_pipeline_at_before(s, z, t, other, q, x, k, f, after, expected);
            } else {
                lemma_newlines_behind(s, z, t, other, q, x, k, f);
                moved::lemma_pipeline_at(s, z, q + 1, k as int, k, t, other, x + 1, f as int, after, expected);
                parse::lemma_pipeline_advances(s, t, after, expected);
            }
            match parse::pipeline_at(s, t, after, expected) {
                Err(_) => {},
                Ok((pipeline, next)) => {
                    let more = ListView {
                        first: read.first,
                        rest: read.rest.push(AndOrView { op, pipeline }),
                    };
                    if next <= x {
                        lemma_list_before(s, z, t, other, q, x, k, f, next, more);
                    } else {
                        moved::lemma_list_from(s, z, q + 1, k as int, k, t, other, x + 1, f as int, next, more);
                        parse::lemma_list_from_advances(s, t, next, more);
                    }
                },
            }
        },
    }
}

proof fn lemma_list_at_before(
    s: Seq<char>,
    z: Seq<char>,
    t: Seq<TokenView>,
    other: Seq<TokenView>,
    q: int,
    x: int,
    k: nat,
    f: nat,
    c: int,
)
    requires
        continued(s, z, t, other, q, x, k, f),
        0 <= c <= x,
    ensures
        same_reading(parse::list_at(s, t, c), parse::list_at(z, other, c), x, k, f),
        parse::list_at(s, t, c) matches Ok((_, next)) ==> c < next <= t.len(),
{
    lemma_pipeline_at_before(s, z, t, other, q, x, k, f, c, "command"@);
    parse::lemma_list_advances(s, t, c);
    match parse::pipeline_at(s, t, c, "command"@) {
        Err(_) => {},
        Ok((first, next)) => {
            let list = ListView { first, rest: seq![] };
            if next <= x {
                lemma_list_before(s, z, t, other, q, x, k, f, next, list);
            } else {
                moved::lemma_list_from(s, z, q + 1, k as int, k, t, other, x + 1, f as int, next, list);
                parse::lemma_list_from_advances(s, t, next, list);
            }
        },
    }
}

/// The same program, or the same error, where it was or `k` bytes further on.
pub open spec fn same_program(
    r: Result<Seq<ListView>, ErrorView>,
    other: Result<Seq<ListView>, ErrorView>,
    k: nat,
) -> bool {
    match r {
        Ok(lists) => other == Ok::<Seq<ListView>, ErrorView>(lists),
        Err(error) => other matches Err(found) && found.kind == error.kind && (found.position
            == error.position || found.position == error.position + k),
    }
}

/// The rest of a program, past the connector, is the same further on.
proof fn lemma_rest_behind(
    s: Seq<char>,
    z: Seq<char>,
    t: Seq<TokenView>,
    other: Seq<TokenView>,
    q: int,
    x: int,
    k: nat,
    f: nat,
    next: int,
    read: Seq<ListView>,
)
    requires
        continued(s, z, t, other, q, x, k, f),
        x < next <= t.len(),
    ensures
        forall|kind: KindView| #[trigger]
            parse::is_kind(other, next + f, kind) == parse::is_kind(t, next, kind),
        other.len() == t.len() + f,
        parse::unexpected_at(z, other, next + f, "`;`, newline, or end of input"@)
            == moved::moved_error(
            parse::unexpected_at(s, t, next, "`;`, newline, or end of input"@),
            k,
        ),
        next < t.len() ==> parse::program_from(
            z,
            other,
            parse::newlines_end(other, next + f + 1),
            read,
        ) == moved::moved_program(
            parse::program_from(s, t, parse::newlines_end(t, next + 1), read),
            k,
        ),
{
    let expected = "`;`, newline, or end of input"@;
    moved::lemma_same_token(s, t, other, q + 1, k as int, x + 1, f as int, next);
    moved::lemma_unexpected(
        s,
        z,
        q + 1,
        k as int,
        k,
        t,
        other,
        x + 1,
        f as int,
        next,
        expected,
    );
    if next < t.len() {
        moved::lemma_newlines(s, t, other, q + 1, k as int, x + 1, f as int, next + 1);
        assert(next + 1 + f == next + f + 1);
        let after = parse::newlines_end(t, next + 1);
        moved::lemma_program(s, z, q + 1, k as int, k, t, other, x + 1, f as int, after, read);
    }
}

/// What a program is, once its next list has been read.
spec fn program_after(
    s: Seq<char>,
    t: Seq<TokenView>,
    next: int,
    read: Seq<ListView>,
) -> Result<Seq<ListView>, ErrorView> {
    if parse::is_kind(t, next, KindView::Semi) || parse::is_kind(t, next, KindView::Newline) {
        parse::program_from(s, t, parse::newlines_end(t, next + 1), read)
    } else if next >= t.len() {
        Ok(read)
    } else {
        Err(parse::unexpected_at(s, t, next, "`;`, newline, or end of input"@))
    }
}

proof fn lemma_after_behind(
    s: Seq<char>,
    z: Seq<char>,
    t: Seq<TokenView>,
    other: Seq<TokenView>,
    q: int,
    x: int,
    k: nat,
    f: nat,
    next: int,
    read: Seq<ListView>,
)
    requires
        continued(s, z, t, other, q, x, k, f),
        x < next <= t.len(),
    ensures
        program_after(z, other, next + f, read) == moved::moved_program(
            program_after(s, t, next, read),
            k,
        ),
{
    lemma_rest_behind(s, z, t, other, q, x, k, f, next, read);
}

proof fn lemma_program_before(
    s: Seq<char>,
    z: Seq<char>,
    t: Seq<TokenView>,
    other: Seq<TokenView>,
    q: int,
    x: int,
    k: nat,
    f: nat,
    c: int,
    read: Seq<ListView>,
)
    requires
        continued(s, z, t, other, q, x, k, f),
        0 <= c <= x,
    ensures
        same_program(
            parse::program_from(s, t, c, read),
            parse::program_from(z, other, c, read),
            k,
        ),
    decreases x - c,
{
    lemma_list_at_before(s, z, t, other, q, x, k, f, c);
    match parse::list_at(s, t, c) {
        Err(_) => {},
        Ok((list, next)) => {
            let more = read.push(list);
            assert(parse::program_from(s, t, c, read) == program_after(s, t, next, more));
            if next <= x {
                assert(parse::list_at(z, other, c) == parse::list_at(s, t, c));
                assert(parse::program_from(z, other, c, read) == program_after(
                    z,
                    other,
                    next,
                    more,
                ));
                lemma_after_before(s, z, t, other, q, x, k, f, next);
                if next < x {
                    let after = parse::newlines_end(t, next + 1);
                    lemma_program_before(s, z, t, other, q, x, k, f, after, more);
                }
            } else {
                assert(parse::list_at(z, other, c) == Ok::<(ListView, int), ErrorView>(
                    (list, next + f),
                ));
                assert(parse::program_from(z, other, c, read) == program_after(
                    z,
                    other,
                    next + f,
                    more,
                ));
                lemma_after_behind(s, z, t, other, q, x, k, f, next, more);
            }
        },
    }
}

/// Up to the connector, what follows a list is the same.
proof fn lemma_after_before(
    s: Seq<char>,
    z: Seq<char>,
    t: Seq<TokenView>,
    other: Seq<TokenView>,
    q: int,
    x: int,
    k: nat,
    f: nat,
    next: int,
)
    requires
        continued(s, z, t, other, q, x, k, f),
        0 <= next <= x,
    ensures
        forall|kind: KindView| #[trigger]
            parse::is_kind(other, next, kind) == parse::is_kind(t, next, kind),
        forall|expected: Seq<char>| #[trigger]
            parse::unexpected_at(z, other, next, expected) == parse::unexpected_at(
                s,
                t,
                next,
                expected,
            ),
        next == x ==> !parse::is_kind(t, next, KindView::Semi) && !parse::is_kind(
            t,
            next,
            KindView::Newline,
        ),
        next < x ==> parse::newlines_end(other, next + 1) == parse::newlines_end(t, next + 1)
            && next < parse::newlines_end(t, next + 1) <= x,
        next < t.len(),
        next < other.len(),
{
    assert(other[next] == t[next]);
    lemma_same_offset(s, z, q, t[next].start);
    if next < x {
        lemma_newlines_before(t, other, x, next + 1);
    }
}

/// Blanks and newlines.
pub open spec fn gap(g: Seq<char>) -> bool {
    forall|i: int| 0 <= i < g.len() ==> #[trigger] g[i] == ' ' || g[i] == '\t' || g[i] == '\n'
}

/// The newlines among the characters of `z` from `i` up to `end`, as tokens.
spec fn newline_tokens(z: Seq<char>, i: int, end: int) -> Seq<TokenView>
    decreases end - i,
{
    if i >= end {
        seq![]
    } else if z[i] == '\n' {
        seq![TokenView { kind: KindView::Newline, start: i }] + newline_tokens(z, i + 1, end)
    } else {
        newline_tokens(z, i + 1, end)
    }
}

/// Of blanks and newlines only the newlines are tokens.
proof fn lemma_gap_tokens(z: Seq<char>, i: int, end: int, before: Seq<TokenView>)
    requires
        0 <= i <= end <= z.len(),
        forall|c: int| i <= c < end ==> #[trigger] z[c] == ' ' || z[c] == '\t' || z[c] == '\n',
    ensures
        lex::tokens_from(z, i, before) == lex::tokens_from(
            z,
            end,
            before + newline_tokens(z, i, end),
        ),
        forall|c: int|
            0 <= c < newline_tokens(z, i, end).len() ==> (#[trigger] newline_tokens(
                z,
                i,
                end,
            )[c]).kind == KindView::Newline,
        text::offset(z, end) == text::offset(z, i) + (end - i),
    decreases end - i,
{
    if i >= end {
        assert(before + newline_tokens(z, i, end) =~= before);
    } else if z[i] == '\n' {
        let newline = TokenView { kind: KindView::Newline, start: i };
        lemma_newline_step(z, i);
        lemma_gap_tokens(z, i + 1, end, before.push(newline));
        assert(before.push(newline) + newline_tokens(z, i + 1, end) =~= before + newline_tokens(
            z,
            i,
            end,
        ));
    } else {
        lemma_blanks_before(z, i, i + 1, before);
        text::lemma_offset_step(z, i);
        lemma_gap_tokens(z, i + 1, end, before);
    }
}

/// A text is read as far as `u` goes, where a gap follows.
proof fn lemma_reaches(u: Seq<char>, g: Seq<char>, v: Seq<char>)
    requires
        ends_in_connector(u),
        gap(g),
        g.len() > 0,
    ensures
        ({
            let head = lex::tokens_of(u)->Ok_0;
            let z = u + g + v;
            let end = (u.len() + g.len()) as int;
            &&& lex::tokens_of(z) == lex::tokens_from(
                z,
                end,
                head + newline_tokens(z, u.len() as int, end),
            )
            &&& forall|c: int|
                0 <= c < newline_tokens(z, u.len() as int, end).len() ==> (
                #[trigger] newline_tokens(z, u.len() as int, end)[c]).kind == KindView::Newline
            &&& text::offset(z, end) == text::offset(u, u.len() as int) + g.len()
            &&& 0 <= head.last().start < u.len()
            &&& u[head.last().start] == '|' || u[head.last().start] == '&'
        }),
{
    let z = u + g + v;
    let q = u.len() as int;
    let end = (u.len() + g.len()) as int;
    let head = lex::tokens_of(u)->Ok_0;
    let none: Seq<TokenView> = seq![];
    let e = connector_end(head.last());
    assert(begins_alike(u, z, q));
    assert(e < q ==> lex::at(u, e, ' ') || lex::at(u, e, '\t'));
    lemma_reached(u, u, 0, none);
    if e < q {
        assert(u[e] == z[e]);
    } else {
        assert(z[q] == g[0]);
    }
    lemma_reached(u, z, 0, none);
    lemma_same_offset(u, z, q, q);
    assert forall|c: int| q <= c < end implies #[trigger] z[c] == ' ' || z[c] == '\t' || z[c]
        == '\n' by {
        assert(z[c] == g[c - q]);
    }
    lemma_gap_tokens(z, q, end, head);
}

proof fn lemma_ends_alike(u: Seq<char>, g: Seq<char>, v: Seq<char>)
    requires
        ends_in_connector(u),
        gap(g),
        g.len() > 0,
    ensures
        begins_alike(u + seq![' '] + v, u + g + v, u.len() as int),
        moved::ends_alike(
            u + seq![' '] + v,
            u + g + v,
            u.len() as int + 1,
            g.len() - 1,
            (g.len() - 1) as nat,
        ),
{
    let s = u + seq![' '] + v;
    let z = u + g + v;
    let k = g.len() - 1;
    lemma_reaches(u, seq![' '], v);
    lemma_reaches(u, g, v);
    assert forall|i: int| u.len() + 1 <= i < s.len() implies #[trigger] s[i] == z[i + k] by {}
}

/// The tokens of a text with `more` behind the token `x`, and the rest `k` characters further on.
spec fn with_more(t: Seq<TokenView>, x: int, more: Seq<TokenView>, k: int) -> Seq<TokenView> {
    t.take(x + 1) + more + moved::moved_tokens(t.skip(x + 1), k)
}

proof fn lemma_tokens_behind(u: Seq<char>, g: Seq<char>, v: Seq<char>)
    requires
        ends_in_connector(u),
        gap(g),
        g.len() > 0,
    ensures
        ({
            let s = u + seq![' '] + v;
            let z = u + g + v;
            let head = lex::tokens_of(u)->Ok_0;
            let more = newline_tokens(z, u.len() as int, (u.len() + g.len()) as int);
            let k = g.len() - 1;
            match lex::tokens_of(s) {
                Err(error) => lex::tokens_of(z) == Err::<Seq<TokenView>, ErrorView>(
                    moved::moved_error(error, k as nat),
                ),
                Ok(t) => {
                    &&& head.len() <= t.len()
                    &&& t.take(head.len() as int) == head
                    &&& lex::tokens_of(z) == Ok::<Seq<TokenView>, ErrorView>(
                        with_more(t, head.len() - 1, more, k),
                    )
                    &&& forall|c: int|
                        head.len() <= c < t.len() ==> u.len() + 1 <= (#[trigger] t[c]).start
                            < s.len()
                },
            }
        }),
{
    let s = u + seq![' '] + v;
    let z = u + g + v;
    let q = u.len() as int;
    let head = lex::tokens_of(u)->Ok_0;
    let more = newline_tokens(z, q, (u.len() + g.len()) as int);
    let k = g.len() - 1;
    let none = newline_tokens(s, q, q + 1);
    lemma_reaches(u, seq![' '], v);
    lemma_reaches(u, g, v);
    assert(s[q] == ' ');
    assert(newline_tokens(s, q + 1, q + 1) =~= seq![]);
    assert(none =~= seq![]);
    assert(head + none =~= head);
    lemma_ends_alike(u, g, v);
    moved::lemma_tokens(s, z, q + 1, k, k as nat, q + 1, head, head + more);
    match lex::tokens_of(s) {
        Err(_) => {},
        Ok(t) => {
            assert(t.take(head.len() as int) == head);
            assert((q + 1) + k == u.len() + g.len());
        },
    }
}

/// Line continuation: behind `&&`, `||` or `|`, blanks and newlines mean what one blank means. The
/// line means the same program, or has the same error, where it was or as many bytes further on as
/// there are more of them.
pub proof fn law_newlines_behind_connectors_change_nothing(
    u: Seq<char>,
    g: Seq<char>,
    v: Seq<char>,
)
    requires
        ends_in_connector(u),
        gap(g),
        g.len() > 0,
    ensures
        same_program(
            parse::program_of(u + seq![' '] + v),
            parse::program_of(u + g + v),
            (g.len() - 1) as nat,
        ),
{
    let s = u + seq![' '] + v;
    let z = u + g + v;
    let q = u.len() as int;
    let k = (g.len() - 1) as nat;
    let head = lex::tokens_of(u)->Ok_0;
    let x = head.len() - 1;
    let more = newline_tokens(z, q, (u.len() + g.len()) as int);
    let f = more.len();
    lemma_tokens_behind(u, g, v);
    match lex::tokens_of(s) {
        Err(_) => {},
        Ok(t) => {
            let other = with_more(t, x, more, k as int);
            assert(continued(s, z, t, other, q, x, k, f)) by {
                laws::law_tokens_are_in_order(u);
                lemma_reaches(u, g, v);
                lemma_ends_alike(u, g, v);
                assert forall|c: int| 0 <= c <= x implies #[trigger] other[c] == t[c] && t[c]
                    == head[c] by {
                    assert(t.take(x + 1)[c] == head[c]);
                }
                assert(t[x] == head.last());
                assert forall|c: int| 0 <= c <= x implies 0 <= (#[trigger] t[c]).start
                    <= t[x].start by {
                    assert(other[c] == t[c]);
                }
                assert forall|c: int| x < c <= x + f implies (#[trigger] other[c]).kind
                    == KindView::Newline by {
                    assert(other[c] == more[c - x - 1]);
                }
                assert forall|c: int| x + 1 <= c < t.len() implies #[trigger] other[c + f]
                    == moved::moved_token(t[c], k as int) by {
                    assert(t.skip(x + 1)[c - x - 1] == t[c]);
                }
                assert(u[t[x].start] == s[t[x].start]);
            }
            lemma_newlines_before(t, other, x, 0);
            lemma_program_before(s, z, t, other, q, x, k, f, parse::newlines_end(t, 0), seq![]);
        },
    }
}

} // verus!
