//! The lexer: from the text of a command line to its tokens.

use vstd::prelude::*;

use crate::shell::{
    ParseError, ParseErrorKind, QuoteKind, RedirectOp, Segment, UnsupportedConstruct, Word,
};
use crate::shell::{ErrorKindView, ErrorView, SegmentView};
use crate::text;

verus! {

#[derive(Debug, PartialEq, Eq)]
pub struct Token {
    pub kind: TokenKind,
    /// The byte at which the token starts.
    pub position: usize,
    /// The index of the character at which the token starts.
    pub start: usize,
}

#[derive(Debug, PartialEq, Eq)]
pub enum TokenKind {
    Word(Word),
    Pipe,
    AndIf,
    OrIf,
    Semi,
    Newline,
    Redirect(RedirectToken),
}

#[derive(Debug, Clone, Copy, PartialEq, Eq, Structural)]
pub struct RedirectToken {
    pub fd: Option<u32>,
    pub op: RedirectOp,
    pub target_fd: Option<u32>,
}

#[verifier::ext_equal]
pub enum KindView {
    Word(Seq<SegmentView>),
    Pipe,
    AndIf,
    OrIf,
    Semi,
    Newline,
    Redirect(RedirectToken),
}

#[verifier::ext_equal]
pub struct TokenView {
    pub kind: KindView,
    /// The index of the character at which the token starts.
    pub start: int,
}

impl View for TokenKind {
    type V = KindView;

    open spec fn view(&self) -> KindView {
        match self {
            TokenKind::Word(word) => KindView::Word(word@),
            TokenKind::Pipe => KindView::Pipe,
            TokenKind::AndIf => KindView::AndIf,
            TokenKind::OrIf => KindView::OrIf,
            TokenKind::Semi => KindView::Semi,
            TokenKind::Newline => KindView::Newline,
            TokenKind::Redirect(redirect) => KindView::Redirect(*redirect),
        }
    }
}

impl View for Token {
    type V = TokenView;

    open spec fn view(&self) -> TokenView {
        TokenView { kind: self.kind@, start: self.start as int }
    }
}

pub open spec fn tokens_view(tokens: Seq<Token>) -> Seq<TokenView> {
    tokens.map_values(|t: Token| t@)
}

/// Every token stands inside the input, at the byte where its first character stands.
pub open spec fn tokens_placed(s: Seq<char>, tokens: Seq<Token>) -> bool {
    forall|k: int|
        0 <= k < tokens.len() ==> (#[trigger] tokens[k]).start < s.len() && tokens[k].position
            == text::offset(s, tokens[k].start as int)
}

/// How a token is named in an error.
pub open spec fn kind_text(kind: KindView) -> Seq<char> {
    match kind {
        KindView::Word(_) => "word"@,
        KindView::Pipe => "`|`"@,
        KindView::AndIf => "`&&`"@,
        KindView::OrIf => "`||`"@,
        KindView::Semi => "`;`"@,
        KindView::Newline => "newline"@,
        KindView::Redirect(_) => "redirect"@,
    }
}

impl TokenKind {
    pub fn description(&self) -> (r: &'static str)
        ensures
            r@ == kind_text(self@),
    {
        match self {
            TokenKind::Word(_) => "word",
            TokenKind::Pipe => "`|`",
            TokenKind::AndIf => "`&&`",
            TokenKind::OrIf => "`||`",
            TokenKind::Semi => "`;`",
            TokenKind::Newline => "newline",
            TokenKind::Redirect(_) => "redirect",
        }
    }
}

// ---- the grammar of tokens ----

pub open spec fn word_break_char(c: char) -> bool {
    c == ' ' || c == '\t' || c == '\n' || c == '|' || c == '&' || c == ';' || c == '<' || c == '>'
}

pub open spec fn name_start_char(c: char) -> bool {
    text::is_alpha(c) || c == '_'
}

pub open spec fn name_char(c: char) -> bool {
    text::is_alpha(c) || text::is_digit(c) || c == '_'
}

/// Special parameters that the language does not have.
pub open spec fn rejected_parameter(c: char) -> bool {
    c == '$' || c == '!' || c == '#' || c == '*' || c == '@' || c == '-'
}

/// Whether the character `c` stands at index `i`.
pub open spec fn at(s: Seq<char>, i: int, c: char) -> bool {
    0 <= i < s.len() && s[i] == c
}

pub open spec fn failure(s: Seq<char>, i: int, kind: ErrorKindView) -> ErrorView {
    ErrorView { position: text::offset(s, i), kind }
}

pub open spec fn unsupported(s: Seq<char>, i: int, construct: UnsupportedConstruct) -> ErrorView {
    failure(s, i, ErrorKindView::Unsupported(construct))
}

/// The end of the run of digits that starts at `i`.
pub open spec fn digits_end(s: Seq<char>, i: int) -> int
    decreases s.len() - i,
{
    if 0 <= i < s.len() && text::is_digit(s[i]) {
        digits_end(s, i + 1)
    } else {
        i
    }
}

/// The end of the run of name characters that starts at `i`.
pub open spec fn name_end(s: Seq<char>, i: int) -> int
    decreases s.len() - i,
{
    if 0 <= i < s.len() && name_char(s[i]) {
        name_end(s, i + 1)
    } else {
        i
    }
}

/// The end of the run of blanks that starts at `i`.
pub open spec fn blanks_end(s: Seq<char>, i: int) -> int
    decreases s.len() - i,
{
    if at(s, i, ' ') || at(s, i, '\t') {
        blanks_end(s, i + 1)
    } else {
        i
    }
}

/// Whether a `]` stands in the rest of the word from `i` on.
pub open spec fn bracket_closes(s: Seq<char>, i: int) -> bool
    decreases s.len() - i,
{
    if 0 <= i < s.len() && s[i] != ']' && !word_break_char(s[i]) {
        bracket_closes(s, i + 1)
    } else {
        at(s, i, ']')
    }
}

/// The segments after a text of the same quoting joined them.
pub open spec fn joined(
    segments: Seq<SegmentView>,
    literal: Seq<char>,
    quoted: bool,
) -> Seq<SegmentView> {
    if literal.len() == 0 && !quoted {
        segments
    } else if literal.len() > 0 && segments.len() > 0 && segments.last() is Literal
        && segments.last()->Literal_quoted == quoted {
        segments.drop_last().push(
            SegmentView::Literal { value: segments.last()->Literal_value + literal, quoted },
        )
    } else {
        segments.push(SegmentView::Literal { value: literal, quoted })
    }
}

pub open spec fn with_char(segments: Seq<SegmentView>, c: char, quoted: bool) -> Seq<SegmentView> {
    joined(segments, seq![c], quoted)
}

/// The segments and the index after the single-quoted text whose quote stands at `i`.
pub open spec fn single_quoted(s: Seq<char>, i: int, segments: Seq<SegmentView>) -> Result<
    (Seq<SegmentView>, int),
    ErrorView,
> {
    let close = text::find_from(s, '\'', i + 1);
    if close < s.len() {
        Ok((joined(segments, s.subrange(i + 1, close), true), close + 1))
    } else {
        Err(failure(s, i, ErrorKindView::UnterminatedQuote { quote: QuoteKind::Single }))
    }
}

/// The segments and the index after the `$` at `i`.
pub open spec fn expansion(
    s: Seq<char>,
    i: int,
    quoted: bool,
    segments: Seq<SegmentView>,
) -> Result<(Seq<SegmentView>, int), ErrorView> {
    if i + 1 >= s.len() {
        Ok((with_char(segments, '$', quoted), i + 1))
    } else {
        let next = s[i + 1];
        if next == '(' {
            Err(unsupported(s, i, UnsupportedConstruct::CommandSubstitution))
        } else if next == '\'' && !quoted {
            Err(unsupported(s, i, UnsupportedConstruct::AnsiCString))
        } else if next == '"' && !quoted {
            Err(unsupported(s, i, UnsupportedConstruct::LocaleTranslation))
        } else if next == '{' {
            braced_expansion(s, i, quoted, segments)
        } else if next == '?' {
            Ok((segments.push(SegmentView::Expansion { name: seq!['?'], quoted }), i + 2))
        } else if name_start_char(next) {
            named_expansion(s, i, i + 1, name_end(s, i + 1), quoted, segments)
        } else if text::is_digit(next) || rejected_parameter(next) {
            Err(unsupported(s, i, UnsupportedConstruct::ParameterExpansion))
        } else {
            Ok((with_char(segments, '$', quoted), i + 1))
        }
    }
}

/// The expansion of the name from `from` to `to`, in the text that starts with the `$` at `i`.
pub open spec fn named_expansion(
    s: Seq<char>,
    i: int,
    from: int,
    to: int,
    quoted: bool,
    segments: Seq<SegmentView>,
) -> Result<(Seq<SegmentView>, int), ErrorView> {
    if s.subrange(from, to) == seq!['_'] {
        Err(unsupported(s, i, UnsupportedConstruct::ParameterExpansion))
    } else {
        Ok((segments.push(SegmentView::Expansion { name: s.subrange(from, to), quoted }), to))
    }
}

/// The segments and the index after the `${` at `i`.
pub open spec fn braced_expansion(
    s: Seq<char>,
    i: int,
    quoted: bool,
    segments: Seq<SegmentView>,
) -> Result<(Seq<SegmentView>, int), ErrorView> {
    if i + 2 >= s.len() {
        Err(failure(s, i, ErrorKindView::UnterminatedBracedExpansion))
    } else {
        let first = s[i + 2];
        if first == '?' {
            if at(s, i + 3, '}') {
                Ok((segments.push(SegmentView::Expansion { name: seq!['?'], quoted }), i + 4))
            } else {
                Err(failure(s, i, ErrorKindView::InvalidParameterExpansion))
            }
        } else if text::is_digit(first) || rejected_parameter(first) {
            Err(unsupported(s, i, UnsupportedConstruct::ParameterExpansion))
        } else if !name_start_char(first) {
            Err(failure(s, i, ErrorKindView::InvalidParameterExpansion))
        } else {
            let end = name_end(s, i + 2);
            if end >= s.len() {
                Err(failure(s, i, ErrorKindView::UnterminatedBracedExpansion))
            } else if s[end] != '}' {
                Err(failure(s, i, ErrorKindView::InvalidParameterExpansion))
            } else {
                match named_expansion(s, i, i + 2, end, quoted, segments) {
                    Ok((result, _)) => Ok((result, end + 1)),
                    Err(error) => Err(error),
                }
            }
        }
    }
}

/// The segments and the index after the escape at `i` inside double quotes.
pub open spec fn double_quoted_escape(s: Seq<char>, i: int, segments: Seq<SegmentView>) -> Result<
    (Seq<SegmentView>, int),
    ErrorView,
> {
    if i + 1 >= s.len() {
        Err(failure(s, i, ErrorKindView::UnterminatedEscape))
    } else if s[i + 1] == '\n' {
        Ok((segments, i + 2))
    } else if s[i + 1] == '$' || s[i + 1] == '`' || s[i + 1] == '"' || s[i + 1] == '\\' {
        Ok((with_char(segments, s[i + 1], true), i + 2))
    } else {
        Ok((with_char(with_char(segments, '\\', true), s[i + 1], true), i + 2))
    }
}

/// The segments and the index after the rest, from `i` on, of the double-quoted text whose
/// quote stands at `start`; `had` says whether the quotes have enclosed anything so far.
pub open spec fn double_quoted(
    s: Seq<char>,
    start: int,
    i: int,
    segments: Seq<SegmentView>,
    had: bool,
) -> Result<(Seq<SegmentView>, int), ErrorView>
    decreases s.len() - i,
{
    if i < 0 || i >= s.len() {
        Err(failure(s, start, ErrorKindView::UnterminatedQuote { quote: QuoteKind::Double }))
    } else if s[i] == '"' {
        Ok((if had { segments } else { joined(segments, seq![], true) }, i + 1))
    } else if s[i] == '\\' {
        match double_quoted_escape(s, i, segments) {
            Ok((next, j)) => double_quoted(s, start, j, next, had || s[i + 1] != '\n'),
            Err(error) => Err(error),
        }
    } else if s[i] == '$' {
        proof {
            lemma_expansion_advances(s, i, true, segments);
        }
        match expansion(s, i, true, segments) {
            Ok((next, j)) => double_quoted(s, start, j, next, true),
            Err(error) => Err(error),
        }
    } else if s[i] == '`' {
        Err(unsupported(s, i, UnsupportedConstruct::Backticks))
    } else {
        double_quoted(s, start, i + 1, with_char(segments, s[i], true), true)
    }
}

/// What has been read of a word so far.
#[verifier::ext_equal]
pub struct WordState {
    pub segments: Seq<SegmentView>,
    /// Whether the word has any content, empty quotes included.
    pub had: bool,
    /// The character just before, where it is an unquoted one.
    pub last: Option<char>,
    /// Whether an unquoted `=` has occurred.
    pub equals: bool,
}

pub open spec fn tilde_expands(state: WordState) -> bool {
    !state.had || state.last == Some('=') || (state.last == Some(':') && state.equals)
}

/// One step through a word: what stands at `i` has been read.
pub open spec fn word_step(s: Seq<char>, i: int, state: WordState) -> Result<
    (WordState, int),
    ErrorView,
> {
    let c = s[i];
    if c == '\'' {
        match single_quoted(s, i, state.segments) {
            Ok((segments, j)) => Ok(
                (WordState { segments, had: true, last: None, equals: state.equals }, j),
            ),
            Err(error) => Err(error),
        }
    } else if c == '"' {
        match double_quoted(s, i, i + 1, state.segments, false) {
            Ok((segments, j)) => Ok(
                (WordState { segments, had: true, last: None, equals: state.equals }, j),
            ),
            Err(error) => Err(error),
        }
    } else if c == '\\' {
        if i + 1 >= s.len() {
            Ok((state, i + 1))
        } else if s[i + 1] == '\n' {
            Ok((state, i + 2))
        } else {
            Ok(
                (
                    WordState {
                        segments: with_char(state.segments, s[i + 1], true),
                        had: true,
                        last: None,
                        equals: state.equals,
                    },
                    i + 2,
                ),
            )
        }
    } else if c == '$' {
        match expansion(s, i, false, state.segments) {
            Ok((segments, j)) => Ok(
                (WordState { segments, had: true, last: None, equals: state.equals }, j),
            ),
            Err(error) => Err(error),
        }
    } else if c == '*' || c == '?' || (c == '[' && bracket_closes(s, i + 1)) {
        Err(unsupported(s, i, UnsupportedConstruct::Glob))
    } else if c == '`' {
        Err(unsupported(s, i, UnsupportedConstruct::Backticks))
    } else if c == '(' || c == ')' {
        Err(unsupported(s, i, UnsupportedConstruct::Subshell))
    } else if c == '{' || c == '}' {
        Err(unsupported(s, i, UnsupportedConstruct::BraceExpansion))
    } else if c == '~' && tilde_expands(state) {
        Err(unsupported(s, i, UnsupportedConstruct::TildeExpansion))
    } else {
        Ok(
            (
                WordState {
                    segments: with_char(state.segments, c, false),
                    had: true,
                    last: Some(c),
                    equals: state.equals || c == '=',
                },
                i + 1,
            ),
        )
    }
}

/// The word that goes on at `i`, and the index after it; no word where nothing but line
/// continuations was read.
pub open spec fn word_from(s: Seq<char>, i: int, state: WordState) -> Result<
    (Option<Seq<SegmentView>>, int),
    ErrorView,
>
    decreases s.len() - i,
{
    if i < 0 || i >= s.len() || word_break_char(s[i]) {
        Ok((if state.had { Some(state.segments) } else { None }, i))
    } else {
        proof {
            lemma_word_step_advances(s, i, state);
        }
        match word_step(s, i, state) {
            Ok((next, j)) => word_from(s, j, next),
            Err(error) => Err(error),
        }
    }
}

pub open spec fn fresh_word() -> WordState {
    WordState { segments: seq![], had: false, last: None, equals: false }
}

/// The file descriptor written by the digits from `from` to `to`.
pub open spec fn descriptor(s: Seq<char>, from: int, to: int) -> Result<u32, ErrorView> {
    if text::digits_value(s.subrange(from, to)) <= u32::MAX {
        Ok(text::digits_value(s.subrange(from, to)) as u32)
    } else {
        Err(failure(s, from, ErrorKindView::InvalidFileDescriptor))
    }
}

/// The rest of a redirect whose operator stands at `p` and ends before `next`.
pub open spec fn redirect_rest(
    s: Seq<char>,
    p: int,
    fd: Option<u32>,
    op: RedirectOp,
    next: int,
) -> Result<Option<(RedirectToken, int)>, ErrorView> {
    if !at(s, next, '&') {
        Ok(Some((RedirectToken { fd, op, target_fd: None }, next)))
    } else {
        let end = digits_end(s, next + 1);
        if op != RedirectOp::Write || end == next + 1 {
            Err(unsupported(s, p, UnsupportedConstruct::RedirectFdDup))
        } else if end < s.len() && !word_break_char(s[end]) {
            Err(failure(s, p, ErrorKindView::AmbiguousRedirect))
        } else {
            match descriptor(s, next + 1, end) {
                Ok(target) => Ok(Some((RedirectToken { fd, op, target_fd: Some(target) }, end))),
                Err(error) => Err(error),
            }
        }
    }
}

/// The redirect whose operator, behind a descriptor or not, stands at `p`.
pub open spec fn redirect_operator(s: Seq<char>, p: int, fd: Option<u32>) -> Result<
    Option<(RedirectToken, int)>,
    ErrorView,
> {
    if at(s, p, '<') {
        if at(s, p + 1, '<') {
            Err(unsupported(s, p, UnsupportedConstruct::Heredoc))
        } else {
            redirect_rest(s, p, fd, RedirectOp::Read, p + 1)
        }
    } else if at(s, p, '>') {
        if at(s, p + 1, '>') {
            redirect_rest(s, p, fd, RedirectOp::Append, p + 2)
        } else {
            redirect_rest(s, p, fd, RedirectOp::Write, p + 1)
        }
    } else {
        Ok(None)
    }
}

/// The redirect that starts at `i`, if one does, and the index after it.
pub open spec fn redirect_at(s: Seq<char>, i: int) -> Result<
    Option<(RedirectToken, int)>,
    ErrorView,
> {
    let end = digits_end(s, i);
    if end > i && (at(s, end, '<') || at(s, end, '>')) {
        match descriptor(s, i, end) {
            Ok(fd) => redirect_operator(s, end, Some(fd)),
            Err(error) => Err(error),
        }
    } else {
        redirect_operator(s, i, None)
    }
}

/// One step through the input, from a place before its end: the token that was read, if any,
/// and the index after it.
pub open spec fn token_step(s: Seq<char>, i: int) -> Result<(Option<TokenView>, int), ErrorView> {
    let p = blanks_end(s, i);
    if p >= s.len() {
        Ok((None, p))
    } else if s[p] == '#' {
        Ok((None, text::find_from(s, '\n', p)))
    } else {
        match redirect_at(s, p) {
            Err(error) => Err(error),
            Ok(Some((redirect, j))) => Ok(
                (Some(TokenView { kind: KindView::Redirect(redirect), start: p }), j),
            ),
            Ok(None) => {
                if s[p] == '\n' {
                    Ok((Some(TokenView { kind: KindView::Newline, start: p }), p + 1))
                } else if s[p] == ';' {
                    Ok((Some(TokenView { kind: KindView::Semi, start: p }), p + 1))
                } else if s[p] == '|' {
                    if at(s, p + 1, '|') {
                        Ok((Some(TokenView { kind: KindView::OrIf, start: p }), p + 2))
                    } else {
                        Ok((Some(TokenView { kind: KindView::Pipe, start: p }), p + 1))
                    }
                } else if s[p] == '&' {
                    if at(s, p + 1, '&') {
                        Ok((Some(TokenView { kind: KindView::AndIf, start: p }), p + 2))
                    } else {
                        Err(unsupported(s, p, UnsupportedConstruct::Background))
                    }
                } else {
                    match word_from(s, p, fresh_word()) {
                        Err(error) => Err(error),
                        Ok((Some(word), j)) => Ok(
                            (Some(TokenView { kind: KindView::Word(word), start: p }), j),
                        ),
                        Ok((None, j)) => Ok((None, j)),
                    }
                }
            },
        }
    }
}

/// The tokens of the input from `i` on, behind those in `before`.
pub open spec fn tokens_from(s: Seq<char>, i: int, before: Seq<TokenView>) -> Result<
    Seq<TokenView>,
    ErrorView,
>
    decreases s.len() - i,
{
    if i < 0 || i >= s.len() {
        Ok(before)
    } else {
        proof {
            lemma_token_step_advances(s, i);
        }
        match token_step(s, i) {
            Err(error) => Err(error),
            Ok((None, j)) => tokens_from(s, j, before),
            Ok((Some(token), j)) => tokens_from(s, j, before.push(token)),
        }
    }
}

/// The tokens of a command line.
pub open spec fn tokens_of(s: Seq<char>) -> Result<Seq<TokenView>, ErrorView> {
    tokens_from(s, 0, seq![])
}

// ---- every step goes forward and stays inside the input ----

pub proof fn lemma_digits_end(s: Seq<char>, i: int)
    requires
        0 <= i <= s.len(),
    ensures
        i <= digits_end(s, i) <= s.len(),
        text::all_digits(s.subrange(i, digits_end(s, i))),
        digits_end(s, i) < s.len() ==> !text::is_digit(s[digits_end(s, i)]),
    decreases s.len() - i,
{
    if i < s.len() && text::is_digit(s[i]) {
        lemma_digits_end(s, i + 1);
        let end = digits_end(s, i + 1);
        assert forall|k: int| 0 <= k < end - i implies text::is_digit(
            #[trigger] s.subrange(i, end)[k],
        ) by {
            if k > 0 {
                assert(s.subrange(i + 1, end)[k - 1] == s.subrange(i, end)[k]);
            }
        }
    }
}

pub proof fn lemma_name_end(s: Seq<char>, i: int)
    requires
        0 <= i <= s.len(),
    ensures
        i <= name_end(s, i) <= s.len(),
        i < s.len() && name_start_char(s[i]) ==> i < name_end(s, i),
    decreases s.len() - i,
{
    if i < s.len() && name_char(s[i]) {
        lemma_name_end(s, i + 1);
    }
}

pub proof fn lemma_blanks_end(s: Seq<char>, i: int)
    requires
        0 <= i <= s.len(),
    ensures
        i <= blanks_end(s, i) <= s.len(),
        !at(s, blanks_end(s, i), ' '),
        !at(s, blanks_end(s, i), '\t'),
    decreases s.len() - i,
{
    if at(s, i, ' ') || at(s, i, '\t') {
        lemma_blanks_end(s, i + 1);
    }
}

pub proof fn lemma_expansion_advances(
    s: Seq<char>,
    i: int,
    quoted: bool,
    segments: Seq<SegmentView>,
)
    requires
        0 <= i < s.len(),
    ensures
        match expansion(s, i, quoted, segments) {
            Ok((_, j)) => i < j <= s.len(),
            Err(error) => error.position <= text::byte_len(s),
        },
{
    text::lemma_offset_bounds(s, i);
    if i + 1 < s.len() {
        lemma_name_end(s, i + 1);
    }
    if i + 2 < s.len() {
        lemma_name_end(s, i + 2);
    }
}

pub proof fn lemma_double_quoted_advances(
    s: Seq<char>,
    start: int,
    i: int,
    segments: Seq<SegmentView>,
    had: bool,
)
    requires
        0 <= start < i <= s.len(),
    ensures
        match double_quoted(s, start, i, segments, had) {
            Ok((_, j)) => i < j <= s.len(),
            Err(error) => error.position <= text::byte_len(s),
        },
    decreases s.len() - i,
{
    text::lemma_offset_bounds(s, start);
    text::lemma_offset_bounds(s, i);
    if i >= s.len() || s[i] == '"' {
    } else if s[i] == '\\' {
        if i + 1 < s.len() {
            let (next, j) = double_quoted_escape(s, i, segments)->Ok_0;
            lemma_double_quoted_advances(s, start, j, next, had || s[i + 1] != '\n');
        }
    } else if s[i] == '$' {
        lemma_expansion_advances(s, i, true, segments);
        match expansion(s, i, true, segments) {
            Ok((next, j)) => lemma_double_quoted_advances(s, start, j, next, true),
            Err(_) => {},
        }
    } else if s[i] != '`' {
        lemma_double_quoted_advances(s, start, i + 1, with_char(segments, s[i], true), true);
    }
}

pub proof fn lemma_word_step_advances(s: Seq<char>, i: int, state: WordState)
    requires
        0 <= i < s.len(),
    ensures
        match word_step(s, i, state) {
            Ok((_, j)) => i < j <= s.len(),
            Err(error) => error.position <= text::byte_len(s),
        },
{
    text::lemma_offset_bounds(s, i);
    text::lemma_find_from(s, '\'', i + 1);
    lemma_double_quoted_advances(s, i, i + 1, state.segments, false);
    lemma_expansion_advances(s, i, false, state.segments);
}

pub proof fn lemma_word_advances(s: Seq<char>, i: int, state: WordState)
    requires
        0 <= i <= s.len(),
    ensures
        match word_from(s, i, state) {
            Ok((_, j)) => i <= j <= s.len() && (i < s.len() && !word_break_char(s[i]) ==> i < j),
            Err(error) => error.position <= text::byte_len(s),
        },
    decreases s.len() - i,
{
    if i < s.len() && !word_break_char(s[i]) {
        lemma_word_step_advances(s, i, state);
        match word_step(s, i, state) {
            Ok((next, j)) => lemma_word_advances(s, j, next),
            Err(_) => {},
        }
    }
}

pub proof fn lemma_redirect_advances(s: Seq<char>, i: int)
    requires
        0 <= i < s.len(),
    ensures
        match redirect_at(s, i) {
            Ok(Some((_, j))) => i < j <= s.len(),
            Ok(None) => s[i] != '<' && s[i] != '>',
            Err(error) => error.position <= text::byte_len(s),
        },
{
    lemma_digits_end(s, i);
    let end = digits_end(s, i);
    assert forall|k: int| 0 <= k <= s.len() implies #[trigger] text::offset(s, k)
        <= text::byte_len(s) by {
        text::lemma_offset_bounds(s, k);
    }
    assert forall|k: int| 0 <= k <= s.len() implies k <= #[trigger] digits_end(s, k)
        <= s.len() by {
        lemma_digits_end(s, k);
    }
}

pub proof fn lemma_token_step_advances(s: Seq<char>, i: int)
    requires
        0 <= i < s.len(),
    ensures
        match token_step(s, i) {
            Ok((token, j)) => i < j <= s.len() && (token matches Some(t) ==> i <= t.start
                < s.len()),
            Err(error) => error.position <= text::byte_len(s),
        },
{
    lemma_blanks_end(s, i);
    let p = blanks_end(s, i);
    if p < s.len() {
        text::lemma_offset_bounds(s, p);
        text::lemma_find_from(s, '\n', p);
        lemma_redirect_advances(s, p);
        lemma_word_advances(s, p, fresh_word());
        if s[p] == '#' {
            assert(text::find_from(s, '\n', p) > p);
        }
    }
}

/// The next step starts behind the token that this one read.
pub proof fn lemma_token_precedes_next(s: Seq<char>, i: int)
    requires
        0 <= i < s.len(),
    ensures
        token_step(s, i) matches Ok((Some(token), j)) ==> token.start < j,
{
    lemma_blanks_end(s, i);
    let p = blanks_end(s, i);
    if p < s.len() {
        lemma_redirect_advances(s, p);
        lemma_word_advances(s, p, fresh_word());
    }
}

/// A lexing error names a byte of the input, or the end of it.
pub proof fn law_lex_error_is_in_the_input(s: Seq<char>, i: int, before: Seq<TokenView>)
    requires
        0 <= i <= s.len(),
    ensures
        tokens_from(s, i, before) matches Err(error) ==> error.position <= text::byte_len(s),
    decreases s.len() - i,
{
    if i < s.len() {
        lemma_token_step_advances(s, i);
        match token_step(s, i) {
            Err(_) => {},
            Ok((None, j)) => law_lex_error_is_in_the_input(s, j, before),
            Ok((Some(token), j)) => law_lex_error_is_in_the_input(s, j, before.push(token)),
        }
    }
}

// ---- the scanners ----

/// The characters of an input, with the byte offset of each and of the end.
pub struct Source {
    pub chars: Vec<char>,
    pub offsets: Vec<usize>,
}

impl Source {
    pub open spec fn wf(&self) -> bool {
        &&& self.chars@.len() < usize::MAX
        &&& self.offsets@.len() == self.chars@.len() + 1
        &&& forall|i: int|
            0 <= i <= self.chars@.len() ==> #[trigger] self.offsets@[i] == text::offset(
                self.chars@,
                i,
            )
    }

    pub fn new(input: &str) -> (r: Self)
        ensures
            r.wf(),
            r.chars@ == input@,
    {
        let chars = text::to_chars(input);
        let length: usize = text::str_bytes(input);
        let mut offsets: Vec<usize> = Vec::new();
        proof {
            text::lemma_offset_bounds(chars@, 0);
        }
        offsets.push(0);
        let mut i: usize = 0;
        let mut position: usize = 0;
        while i < chars.len()
            invariant
                i <= chars@.len(),
                length == text::byte_len(chars@),
                position == text::offset(chars@, i as int),
                offsets@.len() == i + 1,
                forall|k: int|
                    0 <= k <= i ==> #[trigger] offsets@[k] == text::offset(chars@, k),
            decreases chars@.len() - i,
        {
            proof {
                text::lemma_offset_step(chars@, i as int);
            }
            position = position + text::width_of(chars[i]);
            offsets.push(position);
            i = i + 1;
        }
        proof {
            assert(offsets.len() == offsets@.len());
        }
        Source { chars, offsets }
    }

    fn len(&self) -> (n: usize)
        ensures
            n == self.chars@.len(),
    {
        self.chars.len()
    }

    /// The character at index `i`.
    pub fn peek_char(&self, i: usize) -> (r: Option<char>)
        ensures
            r == (if i < self.chars@.len() {
                Some(self.chars@[i as int])
            } else {
                None
            }),
    {
        if i < self.chars.len() {
            Some(self.chars[i])
        } else {
            None
        }
    }

    fn is(&self, i: usize, c: char) -> (r: bool)
        ensures
            r == at(self.chars@, i as int, c),
    {
        i < self.chars.len() && self.chars[i] == c
    }

    pub fn error(&self, i: usize, kind: ParseErrorKind) -> (r: ParseError)
        requires
            self.wf(),
            i <= self.chars@.len(),
        ensures
            r@ == failure(self.chars@, i as int, kind@),
    {
        ParseError::new(self.offsets[i], kind)
    }

    fn unsupported(&self, i: usize, construct: UnsupportedConstruct) -> (r: ParseError)
        requires
            self.wf(),
            i <= self.chars@.len(),
        ensures
            r@ == unsupported(self.chars@, i as int, construct),
    {
        self.error(i, ParseErrorKind::Unsupported(construct))
    }
}

pub fn is_word_break(ch: char) -> (r: bool)
    ensures
        r == word_break_char(ch),
{
    ch == ' ' || ch == '\t' || ch == '\n' || ch == '|' || ch == '&' || ch == ';' || ch == '<' || ch
        == '>'
}

pub fn is_name_start(ch: char) -> (r: bool)
    ensures
        r == name_start_char(ch),
{
    text::alpha(ch) || ch == '_'
}

pub fn is_name_continue(ch: char) -> (r: bool)
    ensures
        r == name_char(ch),
{
    text::alpha(ch) || text::digit(ch) || ch == '_'
}

pub fn is_rejected_special_parameter(ch: char) -> (r: bool)
    ensures
        r == rejected_parameter(ch),
{
    ch == '$' || ch == '!' || ch == '#' || ch == '*' || ch == '@' || ch == '-'
}

fn skip_digits(src: &Source, from: usize) -> (end: usize)
    requires
        from <= src.chars@.len(),
    ensures
        end == digits_end(src.chars@, from as int),
        from <= end <= src.chars@.len(),
        text::all_digits(src.chars@.subrange(from as int, end as int)),
{
    let mut i: usize = from;
    proof {
        lemma_digits_end(src.chars@, from as int);
    }
    while i < src.len() && text::digit(src.chars[i])
        invariant
            from <= i <= src.chars@.len(),
            digits_end(src.chars@, i as int) == digits_end(src.chars@, from as int),
        decreases src.chars@.len() - i,
    {
        i = i + 1;
    }
    i
}

fn skip_name(src: &Source, from: usize) -> (end: usize)
    requires
        from <= src.chars@.len(),
    ensures
        end == name_end(src.chars@, from as int),
        from <= end <= src.chars@.len(),
{
    let mut i: usize = from;
    while i < src.len() && is_name_continue(src.chars[i])
        invariant
            from <= i <= src.chars@.len(),
            name_end(src.chars@, i as int) == name_end(src.chars@, from as int),
        decreases src.chars@.len() - i,
    {
        i = i + 1;
    }
    i
}

fn skip_blanks(src: &Source, from: usize) -> (end: usize)
    requires
        src.wf(),
        from <= src.chars@.len(),
    ensures
        end == blanks_end(src.chars@, from as int),
        from <= end <= src.chars@.len(),
{
    let mut i: usize = from;
    while src.is(i, ' ') || src.is(i, '\t')
        invariant
            src.wf(),
            from <= i <= src.chars@.len(),
            blanks_end(src.chars@, i as int) == blanks_end(src.chars@, from as int),
        decreases src.chars@.len() - i,
    {
        i = i + 1;
    }
    i
}

/// The index of the newline that ends the comment at `from`, or of the end of the input.
fn skip_comment(src: &Source, from: usize) -> (end: usize)
    requires
        from <= src.chars@.len(),
    ensures
        end == text::find_from(src.chars@, '\n', from as int),
        from <= end <= src.chars@.len(),
{
    let mut i: usize = from;
    while i < src.len() && src.chars[i] != '\n'
        invariant
            from <= i <= src.chars@.len(),
            text::find_from(src.chars@, '\n', i as int) == text::find_from(
                src.chars@,
                '\n',
                from as int,
            ),
        decreases src.chars@.len() - i,
    {
        i = i + 1;
    }
    i
}

fn has_closing_bracket_before_word_end(src: &Source, bracket: usize) -> (r: bool)
    requires
        src.wf(),
        bracket < src.chars@.len(),
    ensures
        r == bracket_closes(src.chars@, bracket + 1),
{
    let mut i: usize = bracket + 1;
    while i < src.len() && src.chars[i] != ']' && !is_word_break(src.chars[i])
        invariant
            bracket < i <= src.chars@.len(),
            bracket_closes(src.chars@, i as int) == bracket_closes(src.chars@, bracket + 1),
        decreases src.chars@.len() - i,
    {
        i = i + 1;
    }
    src.is(i, ']')
}

/// Appends a text to the segments, joining it to the last one where the quoting is the same.
pub fn push_literal(segments: &mut Vec<Segment>, literal: String, quoted: bool)
    ensures
        crate::shell::segments_view(final(segments)@) == joined(crate::shell::segments_view(old(segments)@), literal@, quoted),
{
    let ghost before = segments@;
    let empty = literal.as_str().is_empty();
    proof {
        assert(empty == (literal@.len() == 0)) by {
            text::lemma_byte_len_at_least_len(literal@);
        }
    }
    if empty && !quoted {
        return;
    }
    let last = segments.pop();
    proof {
        if before.len() > 0 {
            assert(crate::shell::segments_view(segments@) =~= crate::shell::segments_view(before).drop_last());
            assert(crate::shell::segments_view(before).last() == before.last()@);
        }
    }
    match last {
        Some(Segment::Literal { value, quoted: existing }) if !empty && existing == quoted => {
            let mut value = value;
            value.append(literal.as_str());
            let ghost popped = segments@;
            let segment = Segment::Literal { value, quoted };
            segments.push(segment);
            proof {
                assert(crate::shell::segments_view(segments@) =~= crate::shell::segments_view(popped).push(segment@));
            }
        },
        Some(other) => {
            segments.push(other);
            proof {
                assert(segments@ =~= before);
            }
            let segment = Segment::Literal { value: literal, quoted };
            segments.push(segment);
            proof {
                assert(crate::shell::segments_view(segments@) =~= crate::shell::segments_view(before).push(segment@));
            }
        },
        None => {
            let segment = Segment::Literal { value: literal, quoted };
            segments.push(segment);
            proof {
                assert(crate::shell::segments_view(segments@) =~= crate::shell::segments_view(before).push(segment@));
            }
        },
    }
}

fn push_char(segments: &mut Vec<Segment>, ch: char, quoted: bool)
    ensures
        crate::shell::segments_view(final(segments)@) == with_char(crate::shell::segments_view(old(segments)@), ch, quoted),
{
    let mut literal = String::new();
    literal.push(ch);
    proof {
        assert(literal@ =~= seq![ch]);
    }
    push_literal(segments, literal, quoted);
}

fn push_expansion(segments: &mut Vec<Segment>, name: String, quoted: bool)
    ensures
        crate::shell::segments_view(final(segments)@) == crate::shell::segments_view(old(segments)@).push(
            SegmentView::Expansion { name: name@, quoted },
        ),
{
    let ghost before = segments@;
    let segment = Segment::Expansion { name, quoted };
    segments.push(segment);
    proof {
        assert(crate::shell::segments_view(segments@) =~= crate::shell::segments_view(before).push(segment@));
    }
}

/// What a scanner that adds to the segments reports: where it stopped, or why it failed.
pub open spec fn scanned(
    expected: Result<(Seq<SegmentView>, int), ErrorView>,
    segments: Seq<Segment>,
    result: Result<usize, ParseError>,
) -> bool {
    match expected {
        Ok((after, end)) => result matches Ok(j) && j == end && crate::shell::segments_view(segments) == after,
        Err(error) => result matches Err(e) && e@ == error,
    }
}

fn scan_single_quoted(src: &Source, position: usize, segments: &mut Vec<Segment>) -> (r: Result<
    usize,
    ParseError,
>)
    requires
        src.wf(),
        position < src.chars@.len(),
    ensures
        scanned(
            single_quoted(src.chars@, position as int, crate::shell::segments_view(old(segments)@)),
            final(segments)@,
            r,
        ),
{
    let from: usize = position + 1;
    let mut close: usize = from;
    while close < src.len() && src.chars[close] != '\''
        invariant
            from <= close <= src.chars@.len(),
            text::find_from(src.chars@, '\'', close as int) == text::find_from(
                src.chars@,
                '\'',
                from as int,
            ),
        decreases src.chars@.len() - close,
    {
        close = close + 1;
    }
    if close < src.len() {
        push_literal(segments, text::from_range(&src.chars, from, close), true);
        Ok(close + 1)
    } else {
        Err(src.error(position, ParseErrorKind::UnterminatedQuote { quote: QuoteKind::Single }))
    }
}

fn scan_named_expansion(
    src: &Source,
    position: usize,
    from: usize,
    to: usize,
    quoted: bool,
    segments: &mut Vec<Segment>,
) -> (r: Result<usize, ParseError>)
    requires
        src.wf(),
        position < src.chars@.len(),
        from <= to <= src.chars@.len(),
    ensures
        scanned(
            named_expansion(
                src.chars@,
                position as int,
                from as int,
                to as int,
                quoted,
                crate::shell::segments_view(old(segments)@),
            ),
            final(segments)@,
            r,
        ),
{
    let ghost name = src.chars@.subrange(from as int, to as int);
    if to - from == 1 && src.chars[from] == '_' {
        proof {
            assert(name =~= seq!['_']);
        }
        return Err(src.unsupported(position, UnsupportedConstruct::ParameterExpansion));
    }
    proof {
        if name == seq!['_'] {
            assert(name.len() == 1 && name[0] == '_');
        }
    }
    push_expansion(segments, text::from_range(&src.chars, from, to), quoted);
    Ok(to)
}

fn question_mark() -> (r: String)
    ensures
        r@ == seq!['?'],
{
    let mut name = String::new();
    name.push('?');
    proof {
        assert(name@ =~= seq!['?']);
    }
    name
}

fn scan_braced_expansion(
    src: &Source,
    position: usize,
    quoted: bool,
    segments: &mut Vec<Segment>,
) -> (r: Result<usize, ParseError>)
    requires
        src.wf(),
        position + 1 < src.chars@.len(),
    ensures
        scanned(
            braced_expansion(
                src.chars@,
                position as int,
                quoted,
                crate::shell::segments_view(old(segments)@),
            ),
            final(segments)@,
            r,
        ),
{
    let name_start: usize = position + 2;
    let first = match src.peek_char(name_start) {
        Some(first) => first,
        None => {
            return Err(src.error(position, ParseErrorKind::UnterminatedBracedExpansion));
        },
    };
    if first == '?' {
        if !src.is(name_start + 1, '}') {
            return Err(src.error(position, ParseErrorKind::InvalidParameterExpansion));
        }
        push_expansion(segments, question_mark(), quoted);
        return Ok(name_start + 2);
    }
    if text::digit(first) || is_rejected_special_parameter(first) {
        return Err(src.unsupported(position, UnsupportedConstruct::ParameterExpansion));
    }
    if !is_name_start(first) {
        return Err(src.error(position, ParseErrorKind::InvalidParameterExpansion));
    }
    let end = skip_name(src, name_start);
    match src.peek_char(end) {
        Some('}') => {
            match scan_named_expansion(src, position, name_start, end, quoted, segments) {
                Ok(_) => Ok(end + 1),
                Err(error) => Err(error),
            }
        },
        None => Err(src.error(position, ParseErrorKind::UnterminatedBracedExpansion)),
        Some(_) => Err(src.error(position, ParseErrorKind::InvalidParameterExpansion)),
    }
}

fn scan_expansion(
    src: &Source,
    position: usize,
    quoted: bool,
    segments: &mut Vec<Segment>,
) -> (r: Result<usize, ParseError>)
    requires
        src.wf(),
        position < src.chars@.len(),
    ensures
        scanned(
            expansion(src.chars@, position as int, quoted, crate::shell::segments_view(old(segments)@)),
            final(segments)@,
            r,
        ),
{
    let next_position: usize = position + 1;
    let next = match src.peek_char(next_position) {
        Some(next) => next,
        None => {
            push_char(segments, '$', quoted);
            return Ok(next_position);
        },
    };
    if next == '(' {
        Err(src.unsupported(position, UnsupportedConstruct::CommandSubstitution))
    } else if next == '\'' && !quoted {
        Err(src.unsupported(position, UnsupportedConstruct::AnsiCString))
    } else if next == '"' && !quoted {
        Err(src.unsupported(position, UnsupportedConstruct::LocaleTranslation))
    } else if next == '{' {
        scan_braced_expansion(src, position, quoted, segments)
    } else if next == '?' {
        push_expansion(segments, question_mark(), quoted);
        Ok(next_position + 1)
    } else if is_name_start(next) {
        let end = skip_name(src, next_position);
        scan_named_expansion(src, position, next_position, end, quoted, segments)
    } else if text::digit(next) || is_rejected_special_parameter(next) {
        Err(src.unsupported(position, UnsupportedConstruct::ParameterExpansion))
    } else {
        push_char(segments, '$', quoted);
        Ok(next_position)
    }
}

fn scan_double_quoted_escape(src: &Source, position: usize, segments: &mut Vec<Segment>) -> (r:
    Result<usize, ParseError>)
    requires
        src.wf(),
        position < src.chars@.len(),
    ensures
        scanned(
            double_quoted_escape(src.chars@, position as int, crate::shell::segments_view(old(segments)@)),
            final(segments)@,
            r,
        ),
{
    let next = match src.peek_char(position + 1) {
        Some(next) => next,
        None => {
            return Err(src.error(position, ParseErrorKind::UnterminatedEscape));
        },
    };
    if next == '\n' {
        return Ok(position + 2);
    }
    // Bash gives the backslash a special meaning only before these characters here.
    if next == '$' || next == '`' || next == '"' || next == '\\' {
        push_char(segments, next, true);
    } else {
        push_char(segments, '\\', true);
        push_char(segments, next, true);
    }
    Ok(position + 2)
}

fn scan_double_quoted(src: &Source, position: usize, segments: &mut Vec<Segment>) -> (r: Result<
    usize,
    ParseError,
>)
    requires
        src.wf(),
        position < src.chars@.len(),
    ensures
        scanned(
            double_quoted(
                src.chars@,
                position as int,
                position + 1,
                crate::shell::segments_view(old(segments)@),
                false,
            ),
            final(segments)@,
            r,
        ),
{
    let mut cursor: usize = position + 1;
    let mut had_content = false;
    let ghost expected = double_quoted(
        src.chars@,
        position as int,
        position + 1,
        crate::shell::segments_view(segments@),
        false,
    );
    while cursor < src.len()
        invariant
            src.wf(),
            position < cursor <= src.chars@.len(),
            double_quoted(
                src.chars@,
                position as int,
                cursor as int,
                crate::shell::segments_view(segments@),
                had_content,
            ) == expected,
            expected == double_quoted(
                src.chars@,
                position as int,
                position + 1,
                crate::shell::segments_view(old(segments)@),
                false,
            ),
        decreases src.chars@.len() - cursor,
    {
        let ch = src.chars[cursor];
        if ch == '"' {
            if !had_content {
                let empty = String::new();
                push_literal(segments, empty, true);
            }
            return Ok(cursor + 1);
        } else if ch == '\\' {
            match scan_double_quoted_escape(src, cursor, segments) {
                Ok(next) => {
                    had_content = had_content || src.chars[cursor + 1] != '\n';
                    cursor = next;
                },
                Err(error) => {
                    return Err(error);
                },
            }
        } else if ch == '$' {
            proof {
                lemma_expansion_advances(
                    src.chars@,
                    cursor as int,
                    true,
                    crate::shell::segments_view(segments@),
                );
            }
            match scan_expansion(src, cursor, true, segments) {
                Ok(next) => {
                    had_content = true;
                    cursor = next;
                },
                Err(error) => {
                    return Err(error);
                },
            }
        } else if ch == '`' {
            return Err(src.unsupported(cursor, UnsupportedConstruct::Backticks));
        } else {
            push_char(segments, ch, true);
            had_content = true;
            cursor = cursor + 1;
        }
    }
    Err(src.error(position, ParseErrorKind::UnterminatedQuote { quote: QuoteKind::Double }))
}

/// The escape at `position`: the index after it and the character it stands for, none for a
/// line continuation or at the end of the input.
fn scan_unquoted_escape(src: &Source, position: usize) -> (r: (usize, Option<char>))
    requires
        src.wf(),
        position < src.chars@.len(),
    ensures
        r == (if position + 1 >= src.chars@.len() {
            ((position + 1) as usize, None::<char>)
        } else if src.chars@[position + 1] == '\n' {
            ((position + 2) as usize, None::<char>)
        } else {
            ((position + 2) as usize, Some(src.chars@[position + 1]))
        }),
{
    match src.peek_char(position + 1) {
        None => (position + 1, None),
        Some('\n') => (position + 2, None),
        Some(next) => (position + 2, Some(next)),
    }
}

pub open spec fn word_view(word: Option<Word>) -> Option<Seq<SegmentView>> {
    match word {
        Some(word) => Some(word@),
        None => None,
    }
}

fn scan_word(src: &Source, position: usize) -> (r: Result<(Option<Word>, usize), ParseError>)
    requires
        src.wf(),
        position <= src.chars@.len(),
    ensures
        match word_from(src.chars@, position as int, fresh_word()) {
            Ok((word, end)) => r matches Ok((w, j)) && word_view(w) == word && j == end,
            Err(error) => r matches Err(e) && e@ == error,
        },
{
    let mut segments: Vec<Segment> = Vec::new();
    let mut cursor: usize = position;
    let mut had_content = false;
    let mut last_unquoted_char: Option<char> = None;
    let mut has_unquoted_equals = false;
    proof {
        assert(crate::shell::segments_view(segments@) =~= seq![]);
    }
    while cursor < src.len() && !is_word_break(src.chars[cursor])
        invariant
            src.wf(),
            position <= cursor <= src.chars@.len(),
            word_from(
                src.chars@,
                cursor as int,
                WordState {
                    segments: crate::shell::segments_view(segments@),
                    had: had_content,
                    last: last_unquoted_char,
                    equals: has_unquoted_equals,
                },
            ) == word_from(src.chars@, position as int, fresh_word()),
        decreases src.chars@.len() - cursor,
    {
        let ch = src.chars[cursor];
        let ghost state = WordState {
            segments: crate::shell::segments_view(segments@),
            had: had_content,
            last: last_unquoted_char,
            equals: has_unquoted_equals,
        };
        proof {
            lemma_word_step_advances(src.chars@, cursor as int, state);
        }
        if ch == '\'' || ch == '"' || ch == '$' {
            let scanned = if ch == '\'' {
                scan_single_quoted(src, cursor, &mut segments)
            } else if ch == '"' {
                scan_double_quoted(src, cursor, &mut segments)
            } else {
                scan_expansion(src, cursor, false, &mut segments)
            };
            match scanned {
                Ok(next) => {
                    had_content = true;
                    last_unquoted_char = None;
                    cursor = next;
                },
                Err(error) => {
                    return Err(error);
                },
            }
        } else if ch == '\\' {
            let (next, escaped) = scan_unquoted_escape(src, cursor);
            match escaped {
                Some(escaped) => {
                    push_char(&mut segments, escaped, true);
                    had_content = true;
                    last_unquoted_char = None;
                },
                None => {},
            }
            cursor = next;
        } else if ch == '*' || ch == '?' || (ch == '[' && has_closing_bracket_before_word_end(
            src,
            cursor,
        )) {
            return Err(src.unsupported(cursor, UnsupportedConstruct::Glob));
        } else if ch == '`' {
            return Err(src.unsupported(cursor, UnsupportedConstruct::Backticks));
        } else if ch == '(' || ch == ')' {
            return Err(src.unsupported(cursor, UnsupportedConstruct::Subshell));
        } else if ch == '{' || ch == '}' {
            return Err(src.unsupported(cursor, UnsupportedConstruct::BraceExpansion));
        } else if ch == '~' && (!had_content || last_unquoted_char == Some('=') || (
        last_unquoted_char == Some(':') && has_unquoted_equals)) {
            return Err(src.unsupported(cursor, UnsupportedConstruct::TildeExpansion));
        } else {
            push_char(&mut segments, ch, false);
            had_content = true;
            has_unquoted_equals = has_unquoted_equals || ch == '=';
            last_unquoted_char = Some(ch);
            cursor = cursor + 1;
        }
    }
    if had_content {
        Ok((Some(Word { segments }), cursor))
    } else {
        Ok((None, cursor))
    }
}

fn parse_fd(src: &Source, from: usize, to: usize) -> (r: Result<u32, ParseError>)
    requires
        src.wf(),
        from <= to <= src.chars@.len(),
        text::all_digits(src.chars@.subrange(from as int, to as int)),
    ensures
        match descriptor(src.chars@, from as int, to as int) {
            Ok(fd) => r == Ok::<u32, ParseError>(fd),
            Err(error) => r matches Err(e) && e@ == error,
        },
{
    match text::digits_to_number(&src.chars, from, to, u32::MAX as u64) {
        Some(fd) => Ok(fd as u32),
        None => Err(src.error(from, ParseErrorKind::InvalidFileDescriptor)),
    }
}

/// What a redirect scanner reports.
pub open spec fn redirect_scanned(
    expected: Result<Option<(RedirectToken, int)>, ErrorView>,
    result: Result<Option<(RedirectToken, usize)>, ParseError>,
) -> bool {
    match expected {
        Ok(Some((redirect, end))) => result matches Ok(Some((t, j))) && t == redirect && j == end,
        Ok(None) => result == Ok::<Option<(RedirectToken, usize)>, ParseError>(None),
        Err(error) => result matches Err(e) && e@ == error,
    }
}

fn scan_redirect(src: &Source, position: usize) -> (r: Result<
    Option<(RedirectToken, usize)>,
    ParseError,
>)
    requires
        src.wf(),
        position < src.chars@.len(),
    ensures
        redirect_scanned(redirect_at(src.chars@, position as int), r),
{
    let mut fd: Option<u32> = None;
    let mut operator: usize = position;
    let digits_end = skip_digits(src, position);
    if digits_end > position && (src.is(digits_end, '<') || src.is(digits_end, '>')) {
        match parse_fd(src, position, digits_end) {
            Ok(number) => {
                fd = Some(number);
            },
            Err(error) => {
                return Err(error);
            },
        }
        operator = digits_end;
    }
    let (op, next): (RedirectOp, usize) = if src.is(operator, '<') {
        if src.is(operator + 1, '<') {
            return Err(src.unsupported(operator, UnsupportedConstruct::Heredoc));
        }
        (RedirectOp::Read, operator + 1)
    } else if src.is(operator, '>') {
        if src.is(operator + 1, '>') {
            (RedirectOp::Append, operator + 2)
        } else {
            (RedirectOp::Write, operator + 1)
        }
    } else {
        return Ok(None);
    };
    if !src.is(next, '&') {
        return Ok(Some((RedirectToken { fd, op, target_fd: None }, next)));
    }
    let fd_end = skip_digits(src, next + 1);
    if op != RedirectOp::Write || fd_end == next + 1 {
        return Err(src.unsupported(operator, UnsupportedConstruct::RedirectFdDup));
    }
    if fd_end < src.len() && !is_word_break(src.chars[fd_end]) {
        return Err(src.error(operator, ParseErrorKind::AmbiguousRedirect));
    }
    match parse_fd(src, next + 1, fd_end) {
        Ok(target) => Ok(Some((RedirectToken { fd, op, target_fd: Some(target) }, fd_end))),
        Err(error) => Err(error),
    }
}

fn push_token(src: &Source, tokens: &mut Vec<Token>, kind: TokenKind, start: usize)
    requires
        src.wf(),
        start < src.chars@.len(),
        tokens_placed(src.chars@, old(tokens)@),
    ensures
        tokens_view(final(tokens)@) == tokens_view(old(tokens)@).push(
            TokenView { kind: kind@, start: start as int },
        ),
        tokens_placed(src.chars@, final(tokens)@),
{
    let ghost before = tokens@;
    let token = Token { kind, position: src.offsets[start], start };
    tokens.push(token);
    proof {
        assert(tokens_view(tokens@) =~= tokens_view(before).push(token@));
    }
}

/// Reads the tokens of an input whose characters have been laid out.
pub fn lex_source(src: &Source) -> (r: Result<Vec<Token>, ParseError>)
    requires
        src.wf(),
    ensures
        match tokens_of(src.chars@) {
            Ok(expected) => r matches Ok(tokens) && tokens_view(tokens@) == expected
                && tokens_placed(src.chars@, tokens@),
            Err(error) => r matches Err(e) && e@ == error,
        },
{
    let mut tokens: Vec<Token> = Vec::new();
    let mut position: usize = 0;
    proof {
        assert(tokens_view(tokens@) =~= seq![]);
    }
    while position < src.len()
        invariant
            src.wf(),
            position <= src.chars@.len(),
            tokens_placed(src.chars@, tokens@),
            tokens_from(src.chars@, position as int, tokens_view(tokens@)) == tokens_of(src.chars@),
        decreases src.chars@.len() - position,
    {
        proof {
            lemma_token_step_advances(src.chars@, position as int);
        }
        let start = skip_blanks(src, position);
        if start >= src.len() {
            position = start;
            continue;
        }
        let ch = src.chars[start];
        if ch == '#' {
            position = skip_comment(src, start);
            continue;
        }
        match scan_redirect(src, start) {
            Err(error) => {
                return Err(error);
            },
            Ok(Some((redirect, next))) => {
                push_token(src, &mut tokens, TokenKind::Redirect(redirect), start);
                position = next;
            },
            Ok(None) => {
                if ch == '\n' {
                    push_token(src, &mut tokens, TokenKind::Newline, start);
                    position = start + 1;
                } else if ch == ';' {
                    push_token(src, &mut tokens, TokenKind::Semi, start);
                    position = start + 1;
                } else if ch == '|' {
                    if src.is(start + 1, '|') {
                        push_token(src, &mut tokens, TokenKind::OrIf, start);
                        position = start + 2;
                    } else {
                        push_token(src, &mut tokens, TokenKind::Pipe, start);
                        position = start + 1;
                    }
                } else if ch == '&' {
                    if src.is(start + 1, '&') {
                        push_token(src, &mut tokens, TokenKind::AndIf, start);
                        position = start + 2;
                    } else {
                        return Err(src.unsupported(start, UnsupportedConstruct::Background));
                    }
                } else {
                    match scan_word(src, start) {
                        Err(error) => {
                            return Err(error);
                        },
                        Ok((word, next)) => {
                            match word {
                                Some(word) => {
                                    push_token(src, &mut tokens, TokenKind::Word(word), start);
                                },
                                None => {},
                            }
                            position = next;
                        },
                    }
                }
            },
        }
    }
    Ok(tokens)
}

/// Reads the tokens of a command line.
pub fn lex(input: &str) -> (r: Result<Vec<Token>, ParseError>)
    ensures
        match tokens_of(input@) {
            Ok(expected) => r matches Ok(tokens) && tokens_view(tokens@) == expected
                && tokens_placed(input@, tokens@),
            Err(error) => r matches Err(e) && e@ == error,
        },
{
    let src = Source::new(input);
    lex_source(&src)
}

} // verus!
