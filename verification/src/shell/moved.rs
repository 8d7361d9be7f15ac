//! The language does not depend on where in a text something stands: two texts that end alike are
//! read alike where they do.

use vstd::prelude::*;

use crate::shell::laws;
use crate::shell::lex;
use crate::shell::lex::{KindView, RedirectToken, TokenView, WordState};
use crate::shell::parse;
use crate::shell::RedirectOp;
use crate::shell::{
    AndOrView, ErrorView, ListView, SegmentView, SimpleView,
};
use crate::text;

verus! {

/// Whether what stands in `s` from `p` on stands in `z` too, `k` characters and `d` bytes further
/// on.
pub open spec fn ends_alike(s: Seq<char>, z: Seq<char>, p: int, k: int, d: nat) -> bool {
    &&& 0 <= p <= s.len()
    &&& 0 <= p + k
    &&& z.len() == s.len() + k
    &&& forall|x: int| p <= x < s.len() ==> #[trigger] s[x] == z[x + k]
    &&& text::offset(z, p + k) == text::offset(s, p) + d
}

pub open spec fn moved_error(error: ErrorView, d: nat) -> ErrorView {
    ErrorView { position: error.position + d, kind: error.kind }
}

/// What was read, with the index after it, further on.
pub open spec fn moved<T>(r: Result<(T, int), ErrorView>, k: int, d: nat) -> Result<
    (T, int),
    ErrorView,
> {
    match r {
        Ok((value, j)) => Ok((value, j + k)),
        Err(error) => Err(moved_error(error, d)),
    }
}

pub open spec fn moved_token(token: TokenView, k: int) -> TokenView {
    TokenView { kind: token.kind, start: token.start + k }
}

pub open spec fn moved_tokens(t: Seq<TokenView>, k: int) -> Seq<TokenView> {
    t.map_values(|token: TokenView| moved_token(token, k))
}

proof fn lemma_offset(s: Seq<char>, z: Seq<char>, p: int, k: int, d: nat, i: int)
    requires
        ends_alike(s, z, p, k, d),
        p <= i <= s.len(),
    ensures
        text::offset(z, i + k) == text::offset(s, i) + d,
{
    let middle = s.subrange(p, i);
    assert(s.take(i) =~= s.take(p) + middle);
    assert(z.take(i + k) =~= z.take(p + k) + middle) by {
        assert forall|x: int| 0 <= x < i + k implies #[trigger] z.take(i + k)[x] == (z.take(p + k)
            + middle)[x] by {
            if x >= p + k {
                assert(s[x - k] == z[x - k + k]);
            }
        }
    }
    text::lemma_byte_len_concat(s.take(p), middle);
    text::lemma_byte_len_concat(z.take(p + k), middle);
}

proof fn lemma_subrange(s: Seq<char>, z: Seq<char>, p: int, k: int, d: nat, i: int, j: int)
    requires
        ends_alike(s, z, p, k, d),
        p <= i <= j <= s.len(),
    ensures
        z.subrange(i + k, j + k) == s.subrange(i, j),
{
    assert forall|x: int| 0 <= x < j - i implies #[trigger] z.subrange(i + k, j + k)[x] == s.subrange(
        i,
        j,
    )[x] by {
        assert(s[x + i] == z[x + i + k]);
    }
    assert(z.subrange(i + k, j + k) =~= s.subrange(i, j));
}

proof fn lemma_at(s: Seq<char>, z: Seq<char>, p: int, k: int, d: nat, i: int)
    requires
        ends_alike(s, z, p, k, d),
        p <= i,
    ensures
        forall|c: char| #[trigger] lex::at(z, i + k, c) == lex::at(s, i, c),
        i < s.len() ==> z[i + k] == s[i],
{
    if i < s.len() {
        assert(s[i] == z[i + k]);
    }
}

proof fn lemma_find(s: Seq<char>, z: Seq<char>, p: int, k: int, d: nat, c: char, i: int)
    requires
        ends_alike(s, z, p, k, d),
        p <= i <= s.len(),
    ensures
        text::find_from(z, c, i + k) == text::find_from(s, c, i) + k,
    decreases s.len() - i,
{
    if i < s.len() {
        assert(s[i] == z[i + k]);
        if s[i] != c {
            lemma_find(s, z, p, k, d, c, i + 1);
        }
    }
}

proof fn lemma_digits(s: Seq<char>, z: Seq<char>, p: int, k: int, d: nat, i: int)
    requires
        ends_alike(s, z, p, k, d),
        p <= i <= s.len(),
    ensures
        lex::digits_end(z, i + k) == lex::digits_end(s, i) + k,
        i <= lex::digits_end(s, i) <= s.len(),
    decreases s.len() - i,
{
    if i < s.len() {
        assert(s[i] == z[i + k]);
        lemma_digits(s, z, p, k, d, i + 1);
    }
}

proof fn lemma_name(s: Seq<char>, z: Seq<char>, p: int, k: int, d: nat, i: int)
    requires
        ends_alike(s, z, p, k, d),
        p <= i <= s.len(),
    ensures
        lex::name_end(z, i + k) == lex::name_end(s, i) + k,
        i <= lex::name_end(s, i) <= s.len(),
    decreases s.len() - i,
{
    if i < s.len() {
        assert(s[i] == z[i + k]);
        lemma_name(s, z, p, k, d, i + 1);
    }
}

proof fn lemma_blanks(s: Seq<char>, z: Seq<char>, p: int, k: int, d: nat, i: int)
    requires
        ends_alike(s, z, p, k, d),
        p <= i <= s.len(),
    ensures
        lex::blanks_end(z, i + k) == lex::blanks_end(s, i) + k,
        i <= lex::blanks_end(s, i) <= s.len(),
    decreases s.len() - i,
{
    if i < s.len() {
        assert(s[i] == z[i + k]);
        lemma_blanks(s, z, p, k, d, i + 1);
    }
}

proof fn lemma_bracket(s: Seq<char>, z: Seq<char>, p: int, k: int, d: nat, i: int)
    requires
        ends_alike(s, z, p, k, d),
        p <= i <= s.len(),
    ensures
        lex::bracket_closes(z, i + k) == lex::bracket_closes(s, i),
    decreases s.len() - i,
{
    if i < s.len() {
        assert(s[i] == z[i + k]);
        lemma_bracket(s, z, p, k, d, i + 1);
    }
}

proof fn lemma_single_quoted(
    s: Seq<char>,
    z: Seq<char>,
    p: int,
    k: int,
    d: nat,
    i: int,
    segments: Seq<SegmentView>,
)
    requires
        ends_alike(s, z, p, k, d),
        p <= i < s.len(),
    ensures
        lex::single_quoted(z, i + k, segments) == moved(lex::single_quoted(s, i, segments), k, d),
{
    lemma_find(s, z, p, k, d, '\'', i + 1);
    text::lemma_find_from(s, '\'', i + 1);
    lemma_offset(s, z, p, k, d, i);
    let close = text::find_from(s, '\'', i + 1);
    lemma_subrange(s, z, p, k, d, i + 1, close);
}

proof fn lemma_expansion(
    s: Seq<char>,
    z: Seq<char>,
    p: int,
    k: int,
    d: nat,
    i: int,
    quoted: bool,
    segments: Seq<SegmentView>,
)
    requires
        ends_alike(s, z, p, k, d),
        p <= i < s.len(),
    ensures
        lex::expansion(z, i + k, quoted, segments) == moved(
            lex::expansion(s, i, quoted, segments),
            k,
            d,
        ),
{
    lemma_offset(s, z, p, k, d, i);
    if i + 1 < s.len() {
        lemma_at(s, z, p, k, d, i + 1);
        lemma_name(s, z, p, k, d, i + 1);
        lemma_subrange(s, z, p, k, d, i + 1, lex::name_end(s, i + 1));
    }
    if i + 2 < s.len() {
        lemma_at(s, z, p, k, d, i + 2);
        lemma_at(s, z, p, k, d, i + 3);
        lemma_name(s, z, p, k, d, i + 2);
        let end = lex::name_end(s, i + 2);
        lemma_at(s, z, p, k, d, end);
        lemma_subrange(s, z, p, k, d, i + 2, end);
    }
}

proof fn lemma_double_quoted(
    s: Seq<char>,
    z: Seq<char>,
    p: int,
    k: int,
    d: nat,
    start: int,
    i: int,
    segments: Seq<SegmentView>,
    had: bool,
)
    requires
        ends_alike(s, z, p, k, d),
        p <= start < i <= s.len(),
    ensures
        lex::double_quoted(z, start + k, i + k, segments, had) == moved(
            lex::double_quoted(s, start, i, segments, had),
            k,
            d,
        ),
    decreases s.len() - i,
{
    lemma_offset(s, z, p, k, d, start);
    lemma_offset(s, z, p, k, d, i);
    lemma_at(s, z, p, k, d, i);
    if i >= s.len() || s[i] == '"' {
    } else if s[i] == '\\' {
        lemma_at(s, z, p, k, d, i + 1);
        if i + 1 < s.len() {
            let (next, j) = lex::double_quoted_escape(s, i, segments)->Ok_0;
            lemma_double_quoted(s, z, p, k, d, start, j, next, had || s[i + 1] != '\n');
        }
    } else if s[i] == '$' {
        lex::lemma_expansion_advances(s, i, true, segments);
        lemma_expansion(s, z, p, k, d, i, true, segments);
        match lex::expansion(s, i, true, segments) {
            Ok((next, j)) => lemma_double_quoted(s, z, p, k, d, start, j, next, true),
            Err(_) => {},
        }
    } else if s[i] != '`' {
        let next = lex::with_char(segments, s[i], true);
        lemma_double_quoted(s, z, p, k, d, start, i + 1, next, true);
    }
}

proof fn lemma_word_step(
    s: Seq<char>,
    z: Seq<char>,
    p: int,
    k: int,
    d: nat,
    i: int,
    state: WordState,
)
    requires
        ends_alike(s, z, p, k, d),
        p <= i < s.len(),
    ensures
        lex::word_step(z, i + k, state) == moved(lex::word_step(s, i, state), k, d),
{
    lemma_offset(s, z, p, k, d, i);
    lemma_at(s, z, p, k, d, i);
    lemma_at(s, z, p, k, d, i + 1);
    lemma_single_quoted(s, z, p, k, d, i, state.segments);
    lemma_double_quoted(s, z, p, k, d, i, i + 1, state.segments, false);
    lemma_expansion(s, z, p, k, d, i, false, state.segments);
    lemma_bracket(s, z, p, k, d, i + 1);
}

proof fn lemma_word(
    s: Seq<char>,
    z: Seq<char>,
    p: int,
    k: int,
    d: nat,
    i: int,
    state: WordState,
)
    requires
        ends_alike(s, z, p, k, d),
        p <= i <= s.len(),
    ensures
        lex::word_from(z, i + k, state) == moved(lex::word_from(s, i, state), k, d),
    decreases s.len() - i,
{
    lemma_at(s, z, p, k, d, i);
    if i < s.len() && !lex::word_break_char(s[i]) {
        lex::lemma_word_step_advances(s, i, state);
        lemma_word_step(s, z, p, k, d, i, state);
        match lex::word_step(s, i, state) {
            Ok((next, j)) => lemma_word(s, z, p, k, d, j, next),
            Err(_) => {},
        }
    }
}

/// A redirect that was read, further on.
pub open spec fn moved_redirect(
    r: Result<Option<(RedirectToken, int)>, ErrorView>,
    k: int,
    d: nat,
) -> Result<Option<(RedirectToken, int)>, ErrorView> {
    match r {
        Ok(Some((token, j))) => Ok(Some((token, j + k))),
        Ok(None) => Ok(None),
        Err(error) => Err(moved_error(error, d)),
    }
}

proof fn lemma_redirect_rest(
    s: Seq<char>,
    z: Seq<char>,
    p: int,
    k: int,
    d: nat,
    i: int,
    fd: Option<u32>,
    op: RedirectOp,
    next: int,
)
    requires
        ends_alike(s, z, p, k, d),
        p <= i < next <= s.len(),
    ensures
        lex::redirect_rest(z, i + k, fd, op, next + k) == moved_redirect(
            lex::redirect_rest(s, i, fd, op, next),
            k,
            d,
        ),
{
    lemma_offset(s, z, p, k, d, i);
    lemma_at(s, z, p, k, d, next);
    if next < s.len() {
        lemma_digits(s, z, p, k, d, next + 1);
        let end = lex::digits_end(s, next + 1);
        lemma_at(s, z, p, k, d, end);
        lemma_subrange(s, z, p, k, d, next + 1, end);
        lemma_offset(s, z, p, k, d, next + 1);
    }
}

proof fn lemma_redirect_operator(
    s: Seq<char>,
    z: Seq<char>,
    p: int,
    k: int,
    d: nat,
    i: int,
    fd: Option<u32>,
)
    requires
        ends_alike(s, z, p, k, d),
        p <= i <= s.len(),
    ensures
        lex::redirect_operator(z, i + k, fd) == moved_redirect(
            lex::redirect_operator(s, i, fd),
            k,
            d,
        ),
{
    lemma_offset(s, z, p, k, d, i);
    lemma_at(s, z, p, k, d, i);
    lemma_at(s, z, p, k, d, i + 1);
    if i < s.len() {
        lemma_redirect_rest(s, z, p, k, d, i, fd, RedirectOp::Read, i + 1);
        lemma_redirect_rest(s, z, p, k, d, i, fd, RedirectOp::Write, i + 1);
        if i + 1 < s.len() {
            lemma_redirect_rest(s, z, p, k, d, i, fd, RedirectOp::Append, i + 2);
        }
    }
}

proof fn lemma_redirect(s: Seq<char>, z: Seq<char>, p: int, k: int, d: nat, i: int)
    requires
        ends_alike(s, z, p, k, d),
        p <= i <= s.len(),
    ensures
        lex::redirect_at(z, i + k) == moved_redirect(lex::redirect_at(s, i), k, d),
{
    lemma_digits(s, z, p, k, d, i);
    let end = lex::digits_end(s, i);
    lemma_at(s, z, p, k, d, end);
    lemma_subrange(s, z, p, k, d, i, end);
    lemma_offset(s, z, p, k, d, i);
    lemma_redirect_operator(s, z, p, k, d, i, None);
    if end > i {
        match lex::descriptor(s, i, end) {
            Ok(fd) => lemma_redirect_operator(s, z, p, k, d, end, Some(fd)),
            Err(_) => {},
        }
    }
}

/// A step through the input, further on.
pub open spec fn moved_step(r: Result<(Option<TokenView>, int), ErrorView>, k: int, d: nat) -> Result<
    (Option<TokenView>, int),
    ErrorView,
> {
    match r {
        Ok((Some(token), j)) => Ok((Some(moved_token(token, k)), j + k)),
        Ok((None, j)) => Ok((None, j + k)),
        Err(error) => Err(moved_error(error, d)),
    }
}

proof fn lemma_token_step(s: Seq<char>, z: Seq<char>, p: int, k: int, d: nat, i: int)
    requires
        ends_alike(s, z, p, k, d),
        p <= i < s.len(),
    ensures
        lex::token_step(z, i + k) == moved_step(lex::token_step(s, i), k, d),
{
    lemma_blanks(s, z, p, k, d, i);
    let at = lex::blanks_end(s, i);
    if at < s.len() {
        lemma_at(s, z, p, k, d, at);
        lemma_at(s, z, p, k, d, at + 1);
        lemma_find(s, z, p, k, d, '\n', at);
        lemma_redirect(s, z, p, k, d, at);
        lemma_word(s, z, p, k, d, at, lex::fresh_word());
        lemma_offset(s, z, p, k, d, at);
    }
}

/// The tokens of texts that end alike are the same from there on, behind those before.
pub proof fn lemma_tokens(
    s: Seq<char>,
    z: Seq<char>,
    p: int,
    k: int,
    d: nat,
    i: int,
    before: Seq<TokenView>,
    others: Seq<TokenView>,
)
    requires
        ends_alike(s, z, p, k, d),
        p <= i <= s.len(),
    ensures
        match lex::tokens_from(s, i, before) {
            Ok(t) => {
                &&& before.len() <= t.len()
                &&& t.take(before.len() as int) == before
                &&& forall|x: int| before.len() <= x < t.len() ==> i <= (#[trigger] t[x]).start < s.len()
                &&& lex::tokens_from(z, i + k, others) == Ok::<Seq<TokenView>, ErrorView>(
                    others + moved_tokens(t.skip(before.len() as int), k),
                )
            },
            Err(error) => lex::tokens_from(z, i + k, others) == Err::<Seq<TokenView>, ErrorView>(
                moved_error(error, d),
            ),
        },
    decreases s.len() - i,
{
    let n = before.len() as int;
    if i >= s.len() {
        assert(before.take(n) =~= before);
        assert(others + moved_tokens(before.skip(n), k) =~= others);
    } else {
        lex::lemma_token_step_advances(s, i);
        lemma_token_step(s, z, p, k, d, i);
        match lex::token_step(s, i) {
            Err(_) => {},
            Ok((None, j)) => lemma_tokens(s, z, p, k, d, j, before, others),
            Ok((Some(token), j)) => {
                let more = before.push(token);
                let other = moved_token(token, k);
                lemma_tokens(s, z, p, k, d, j, more, others.push(other));
                match lex::tokens_from(s, j, more) {
                    Err(_) => {},
                    Ok(t) => {
                        assert(t[n] == more[n]) by {
                            assert(t.take(n + 1)[n] == more[n]);
                        }
                        assert(t.take(n) =~= before) by {
                            assert forall|x: int| 0 <= x < n implies t[x] == before[x] by {
                                assert(t.take(n + 1)[x] == more[x]);
                            }
                        }
                        assert(others.push(other) + moved_tokens(t.skip(n + 1), k) =~= others
                            + moved_tokens(t.skip(n), k));
                    },
                }
            },
        }
    }
}

// ---- programs ----

/// Whether the tokens of `s` from `c` on are those of `z`, `f` tokens further on, each `k`
/// characters further on in its text.
pub open spec fn tokens_end_alike(
    s: Seq<char>,
    t: Seq<TokenView>,
    other: Seq<TokenView>,
    p: int,
    k: int,
    c: int,
    f: int,
) -> bool {
    &&& 0 <= c <= t.len()
    &&& 0 <= c + f
    &&& other.len() == t.len() + f
    &&& forall|x: int| c <= x < t.len() ==> #[trigger] other[x + f] == moved_token(t[x], k)
    &&& forall|x: int| c <= x < t.len() ==> p <= (#[trigger] t[x]).start < s.len()
}

pub proof fn lemma_same_token(
    s: Seq<char>,
    t: Seq<TokenView>,
    other: Seq<TokenView>,
    p: int,
    k: int,
    c: int,
    f: int,
    x: int,
)
    requires
        tokens_end_alike(s, t, other, p, k, c, f),
        c <= x,
    ensures
        x < t.len() ==> other[x + f] == moved_token(t[x], k) && p <= t[x].start < s.len(),
        parse::starts_command(other, x + f) == parse::starts_command(t, x),
        forall|kind: KindView| #[trigger]
            parse::is_kind(other, x + f, kind) == parse::is_kind(t, x, kind),
        parse::and_or_at(other, x + f) == parse::and_or_at(t, x),
{
    if x < t.len() {
        assert(other[x + f] == moved_token(t[x], k));
    }
}

pub proof fn lemma_newlines(
    s: Seq<char>,
    t: Seq<TokenView>,
    other: Seq<TokenView>,
    p: int,
    k: int,
    c: int,
    f: int,
    x: int,
)
    requires
        tokens_end_alike(s, t, other, p, k, c, f),
        c <= x <= t.len(),
    ensures
        parse::newlines_end(other, x + f) == parse::newlines_end(t, x) + f,
        x <= parse::newlines_end(t, x) <= t.len(),
    decreases t.len() - x,
{
    lemma_same_token(s, t, other, p, k, c, f, x);
    if parse::is_kind(t, x, KindView::Newline) {
        lemma_newlines(s, t, other, p, k, c, f, x + 1);
    }
}

proof fn lemma_source_index(
    s: Seq<char>,
    z: Seq<char>,
    p: int,
    k: int,
    d: nat,
    i: int,
    count: nat,
)
    requires
        ends_alike(s, z, p, k, d),
        p <= i <= s.len(),
    ensures
        parse::source_index(z, i + k, count) == parse::source_index(s, i, count) + k,
    decreases s.len() - i,
{
    lemma_at(s, z, p, k, d, i);
    lemma_at(s, z, p, k, d, i + 1);
    if i >= s.len() || count == 0 || lex::word_break_char(s[i]) {
    } else if s[i] == '\\' && lex::at(s, i + 1, '\n') {
        lemma_source_index(s, z, p, k, d, i + 2, count);
    } else {
        lemma_source_index(s, z, p, k, d, i + 1, (count - 1) as nat);
    }
}

proof fn lemma_assignment(
    s: Seq<char>,
    z: Seq<char>,
    p: int,
    k: int,
    d: nat,
    word: Seq<SegmentView>,
    start: int,
)
    requires
        ends_alike(s, z, p, k, d),
        p <= start <= s.len(),
    ensures
        match parse::assignment_of(s, word, start) {
            Ok(assignment) => parse::assignment_of(z, word, start + k) == Ok::<_, ErrorView>(
                assignment,
            ),
            Err(error) => parse::assignment_of(z, word, start + k) == Err::<
                Option<crate::shell::AssignmentView>,
                ErrorView,
            >(moved_error(error, d)),
        },
{
    if word.len() > 0 && word[0] is Literal {
        let append = parse::find_append(word[0]->Literal_value, 0) as nat;
        lemma_source_index(s, z, p, k, d, start, append);
        laws::lemma_source_index(s, start, append);
        lemma_offset(s, z, p, k, d, parse::source_index(s, start, append));
    }
}

proof fn lemma_command_from(
    s: Seq<char>,
    z: Seq<char>,
    p: int,
    k: int,
    d: nat,
    t: Seq<TokenView>,
    other: Seq<TokenView>,
    c: int,
    f: int,
    x: int,
    read: SimpleView,
)
    requires
        ends_alike(s, z, p, k, d),
        tokens_end_alike(s, t, other, p, k, c, f),
        c <= x <= t.len(),
    ensures
        parse::command_from(z, other, x + f, read) == moved(
            parse::command_from(s, t, x, read),
            f,
            d,
        ),
    decreases t.len() - x,
{
    lemma_same_token(s, t, other, p, k, c, f, x);
    lemma_same_token(s, t, other, p, k, c, f, x + 1);
    if parse::starts_command(t, x) {
        lemma_offset(s, z, p, k, d, t[x].start);
        match t[x].kind {
            KindView::Redirect(redirect) => match parse::redirect_of(s, t, x, redirect) {
                Err(_) => {},
                Ok((target, next)) => {
                    assert(next > x && next <= t.len());
                    let more = SimpleView { redirects: read.redirects.push(target), ..read };
                    lemma_command_from(s, z, p, k, d, t, other, c, f, next, more);
                },
            },
            _ => {
                let word = t[x].kind->Word_0;
                lemma_assignment(s, z, p, k, d, word, t[x].start);
                let assignment = if read.words.len() == 0 {
                    parse::assignment_of(s, word, t[x].start)
                } else {
                    Ok(None)
                };
                match assignment {
                    Err(_) => {},
                    Ok(Some(assignment)) => {
                        let more = SimpleView {
                            assignments: read.assignments.push(assignment),
                            ..read
                        };
                        lemma_command_from(s, z, p, k, d, t, other, c, f, x + 1, more);
                    },
                    Ok(None) => {
                        let more = SimpleView { words: read.words.push(word), ..read };
                        lemma_command_from(s, z, p, k, d, t, other, c, f, x + 1, more);
                    },
                }
            },
        }
    }
}

pub proof fn lemma_unexpected(
    s: Seq<char>,
    z: Seq<char>,
    p: int,
    k: int,
    d: nat,
    t: Seq<TokenView>,
    other: Seq<TokenView>,
    c: int,
    f: int,
    x: int,
    expected: Seq<char>,
)
    requires
        ends_alike(s, z, p, k, d),
        tokens_end_alike(s, t, other, p, k, c, f),
        c <= x,
    ensures
        parse::unexpected_at(z, other, x + f, expected) == moved_error(
            parse::unexpected_at(s, t, x, expected),
            d,
        ),
{
    lemma_same_token(s, t, other, p, k, c, f, x);
    if x < t.len() {
        lemma_offset(s, z, p, k, d, t[x].start);
    } else {
        lemma_offset(s, z, p, k, d, s.len() as int);
        text::lemma_offset_bounds(s, s.len() as int);
        text::lemma_offset_bounds(z, z.len() as int);
    }
}

pub proof fn lemma_command_at(
    s: Seq<char>,
    z: Seq<char>,
    p: int,
    k: int,
    d: nat,
    t: Seq<TokenView>,
    other: Seq<TokenView>,
    c: int,
    f: int,
    x: int,
    expected: Seq<char>,
)
    requires
        ends_alike(s, z, p, k, d),
        tokens_end_alike(s, t, other, p, k, c, f),
        c <= x <= t.len(),
    ensures
        parse::command_at(z, other, x + f, expected) == moved(
            parse::command_at(s, t, x, expected),
            f,
            d,
        ),
{
    lemma_same_token(s, t, other, p, k, c, f, x);
    lemma_unexpected(s, z, p, k, d, t, other, c, f, x, expected);
    lemma_command_from(s, z, p, k, d, t, other, c, f, x, parse::empty_command());
    if x < t.len() {
        lemma_offset(s, z, p, k, d, t[x].start);
    }
}

pub proof fn lemma_pipeline_from(
    s: Seq<char>,
    z: Seq<char>,
    p: int,
    k: int,
    d: nat,
    t: Seq<TokenView>,
    other: Seq<TokenView>,
    c: int,
    f: int,
    x: int,
    read: Seq<SimpleView>,
)
    requires
        ends_alike(s, z, p, k, d),
        tokens_end_alike(s, t, other, p, k, c, f),
        c <= x <= t.len(),
    ensures
        parse::pipeline_from(z, other, x + f, read) == moved(
            parse::pipeline_from(s, t, x, read),
            f,
            d,
        ),
    decreases t.len() - x,
{
    lemma_same_token(s, t, other, p, k, c, f, x);
    if parse::is_kind(t, x, KindView::Pipe) {
        lemma_newlines(s, t, other, p, k, c, f, x + 1);
        let after = parse::newlines_end(t, x + 1);
        lemma_command_at(s, z, p, k, d, t, other, c, f, after, "command after pipe"@);
        parse::lemma_command_advances(s, t, after, "command after pipe"@);
        match parse::command_at(s, t, after, "command after pipe"@) {
            Err(_) => {},
            Ok((command, next)) => lemma_pipeline_from(
                s,
                z,
                p,
                k,
                d,
                t,
                other,
                c,
                f,
                next,
                read.push(command),
            ),
        }
    }
}

pub proof fn lemma_pipeline_at(
    s: Seq<char>,
    z: Seq<char>,
    p: int,
    k: int,
    d: nat,
    t: Seq<TokenView>,
    other: Seq<TokenView>,
    c: int,
    f: int,
    x: int,
    expected: Seq<char>,
)
    requires
        ends_alike(s, z, p, k, d),
        tokens_end_alike(s, t, other, p, k, c, f),
        c <= x <= t.len(),
    ensures
        parse::pipeline_at(z, other, x + f, expected) == moved(
            parse::pipeline_at(s, t, x, expected),
            f,
            d,
        ),
{
    lemma_command_at(s, z, p, k, d, t, other, c, f, x, expected);
    parse::lemma_command_advances(s, t, x, expected);
    match parse::command_at(s, t, x, expected) {
        Err(_) => {},
        Ok((command, next)) => lemma_pipeline_from(
            s,
            z,
            p,
            k,
            d,
            t,
            other,
            c,
            f,
            next,
            seq![command],
        ),
    }
}

pub proof fn lemma_list_from(
    s: Seq<char>,
    z: Seq<char>,
    p: int,
    k: int,
    d: nat,
    t: Seq<TokenView>,
    other: Seq<TokenView>,
    c: int,
    f: int,
    x: int,
    read: ListView,
)
    requires
        ends_alike(s, z, p, k, d),
        tokens_end_alike(s, t, other, p, k, c, f),
        c <= x <= t.len(),
    ensures
        parse::list_from(z, other, x + f, read) == moved(parse::list_from(s, t, x, read), f, d),
    decreases t.len() - x,
{
    lemma_same_token(s, t, other, p, k, c, f, x);
    match parse::and_or_at(t, x) {
        None => {},
        Some(op) => {
            lemma_newlines(s, t, other, p, k, c, f, x + 1);
            let after = parse::newlines_end(t, x + 1);
            let expected = parse::expected_after(op);
            lemma_pipeline_at(s, z, p, k, d, t, other, c, f, after, expected);
            parse::lemma_pipeline_advances(s, t, after, expected);
            match parse::pipeline_at(s, t, after, expected) {
                Err(_) => {},
                Ok((pipeline, next)) => {
                    let more = ListView {
                        first: read.first,
                        rest: read.rest.push(AndOrView { op, pipeline }),
                    };
                    lemma_list_from(s, z, p, k, d, t, other, c, f, next, more);
                },
            }
        },
    }
}

proof fn lemma_list_at(
    s: Seq<char>,
    z: Seq<char>,
    p: int,
    k: int,
    d: nat,
    t: Seq<TokenView>,
    other: Seq<TokenView>,
    c: int,
    f: int,
    x: int,
)
    requires
        ends_alike(s, z, p, k, d),
        tokens_end_alike(s, t, other, p, k, c, f),
        c <= x <= t.len(),
    ensures
        parse::list_at(z, other, x + f) == moved(parse::list_at(s, t, x), f, d),
{
    lemma_pipeline_at(s, z, p, k, d, t, other, c, f, x, "command"@);
    parse::lemma_pipeline_advances(s, t, x, "command"@);
    match parse::pipeline_at(s, t, x, "command"@) {
        Err(_) => {},
        Ok((first, next)) => {
            let list = ListView { first, rest: seq![] };
            lemma_list_from(s, z, p, k, d, t, other, c, f, next, list);
        },
    }
}

/// A program, with an error further on.
pub open spec fn moved_program(r: Result<Seq<ListView>, ErrorView>, d: nat) -> Result<
    Seq<ListView>,
    ErrorView,
> {
    match r {
        Ok(lists) => Ok(lists),
        Err(error) => Err(moved_error(error, d)),
    }
}

pub proof fn lemma_program(
    s: Seq<char>,
    z: Seq<char>,
    p: int,
    k: int,
    d: nat,
    t: Seq<TokenView>,
    other: Seq<TokenView>,
    c: int,
    f: int,
    x: int,
    read: Seq<ListView>,
)
    requires
        ends_alike(s, z, p, k, d),
        tokens_end_alike(s, t, other, p, k, c, f),
        c <= x <= t.len(),
    ensures
        parse::program_from(z, other, x + f, read) == moved_program(
            parse::program_from(s, t, x, read),
            d,
        ),
    decreases t.len() - x,
{
    if x < t.len() {
        lemma_list_at(s, z, p, k, d, t, other, c, f, x);
        parse::lemma_list_advances(s, t, x);
        match parse::list_at(s, t, x) {
            Err(_) => {},
            Ok((list, next)) => {
                lemma_same_token(s, t, other, p, k, c, f, next);
                lemma_unexpected(
                    s,
                    z,
                    p,
                    k,
                    d,
                    t,
                    other,
                    c,
                    f,
                    next,
                    "`;`, newline, or end of input"@,
                );
                if next < t.len() {
                    lemma_newlines(s, t, other, p, k, c, f, next + 1);
                    let after = parse::newlines_end(t, next + 1);
                    lemma_program(s, z, p, k, d, t, other, c, f, after, read.push(list));
                }
            },
        }
    }
}

} // verus!
