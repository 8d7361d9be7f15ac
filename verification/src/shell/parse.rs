//! The parser: from the tokens of a command line to its program.

use vstd::prelude::*;

use crate::shell::lex::{lex_source, RedirectToken, Source, Token, TokenKind};
use crate::shell::lex::{KindView, TokenView};
use crate::shell::{
    AndOr, AndOrList, AndOrOp, Assignment, Command, ParseError, ParseErrorKind, Pipeline, Program,
    Redirect, RedirectTarget, Segment, SimpleCommand, UnsupportedConstruct, Word,
};
use crate::shell::{
    AndOrView, AssignmentView, ErrorKindView, ErrorView, ListView, RedirectTargetView,
    RedirectView, SegmentView, SimpleView,
};
use crate::text;

verus! {

// ---- the grammar of programs ----

/// Whether a text can name a variable.
pub open spec fn assignment_name(name: Seq<char>) -> bool {
    &&& name.len() > 0
    &&& crate::shell::lex::name_start_char(name[0])
    &&& forall|i: int| 0 <= i < name.len() ==> crate::shell::lex::name_char(#[trigger] name[i])
}

/// The first index from `i` on at which `+=` stands, or the length of the text.
pub open spec fn find_append(v: Seq<char>, i: int) -> int
    decreases v.len() - i,
{
    if 0 <= i < v.len() && !(v[i] == '+' && crate::shell::lex::at(v, i + 1, '=')) {
        find_append(v, i + 1)
    } else {
        i
    }
}

/// The source index of the character that comes after `count` more characters of the unquoted
/// text that goes on at `i`; line continuations are no part of that text.
pub open spec fn source_index(s: Seq<char>, i: int, count: nat) -> int
    decreases s.len() - i,
{
    if i < 0 || i >= s.len() || count == 0 || crate::shell::lex::word_break_char(s[i]) {
        i
    } else if s[i] == '\\' && crate::shell::lex::at(s, i + 1, '\n') {
        source_index(s, i + 2, count)
    } else {
        source_index(s, i + 1, (count - 1) as nat)
    }
}

/// What a word that may be an assignment is: its name up to the first `=`, and its value.
pub open spec fn assignment_of(s: Seq<char>, word: Seq<SegmentView>, start: int) -> Result<
    Option<AssignmentView>,
    ErrorView,
> {
    if word.len() == 0 || !(word[0] is Literal) || word[0]->Literal_quoted {
        Ok(None)
    } else {
        let v = word[0]->Literal_value;
        let append = find_append(v, 0);
        let equals = text::find_from(v, '=', 0);
        if append < v.len() && assignment_name(v.take(append)) {
            Err(
                crate::shell::lex::unsupported(
                    s,
                    source_index(s, start, append as nat),
                    UnsupportedConstruct::AppendAssignment,
                ),
            )
        } else if equals >= v.len() || !assignment_name(v.take(equals)) {
            Ok(None)
        } else {
            let first = v.skip(equals + 1);
            Ok(
                Some(
                    AssignmentView {
                        name: v.take(equals),
                        value: if first.len() > 0 {
                            seq![SegmentView::Literal { value: first, quoted: false }]
                                + word.skip(1)
                        } else {
                            word.skip(1)
                        },
                    },
                ),
            )
        }
    }
}

pub open spec fn is_kind(t: Seq<TokenView>, c: int, kind: KindView) -> bool {
    0 <= c < t.len() && t[c].kind == kind
}

pub open spec fn starts_command(t: Seq<TokenView>, c: int) -> bool {
    0 <= c < t.len() && (t[c].kind is Word || t[c].kind is Redirect)
}

/// The word `!`.
pub open spec fn negation(kind: KindView) -> bool {
    kind == KindView::Word(seq![SegmentView::Literal { value: seq!['!'], quoted: false }])
}

pub open spec fn newlines_end(t: Seq<TokenView>, c: int) -> int
    decreases t.len() - c,
{
    if is_kind(t, c, KindView::Newline) {
        newlines_end(t, c + 1)
    } else {
        c
    }
}

/// The error for a token, or the end of the input, where something else was expected.
pub open spec fn unexpected_at(
    s: Seq<char>,
    t: Seq<TokenView>,
    c: int,
    expected: Seq<char>,
) -> ErrorView {
    if 0 <= c < t.len() {
        crate::shell::lex::failure(
            s,
            t[c].start,
            ErrorKindView::UnexpectedToken {
                expected,
                found: crate::shell::lex::kind_text(t[c].kind),
            },
        )
    } else {
        ErrorView {
            position: text::byte_len(s),
            kind: ErrorKindView::UnexpectedEof { expected },
        }
    }
}

/// The redirect whose token stands at `c`, and the index after it.
pub open spec fn redirect_of(
    s: Seq<char>,
    t: Seq<TokenView>,
    c: int,
    redirect: RedirectToken,
) -> Result<(RedirectView, int), ErrorView> {
    match redirect.target_fd {
        Some(fd) => Ok(
            (
                RedirectView {
                    fd: redirect.fd,
                    op: redirect.op,
                    target: RedirectTargetView::Fd(fd),
                },
                c + 1,
            ),
        ),
        None => if 0 <= c + 1 < t.len() && t[c + 1].kind is Word {
            Ok(
                (
                    RedirectView {
                        fd: redirect.fd,
                        op: redirect.op,
                        target: RedirectTargetView::Word(t[c + 1].kind->Word_0),
                    },
                    c + 2,
                ),
            )
        } else {
            Err(
                crate::shell::lex::failure(
                    s,
                    t[c].start,
                    ErrorKindView::MissingRedirectTarget,
                ),
            )
        },
    }
}

/// The command that goes on at `c` behind what has been read of it, and the index after it.
pub open spec fn command_from(
    s: Seq<char>,
    t: Seq<TokenView>,
    c: int,
    read: SimpleView,
) -> Result<(SimpleView, int), ErrorView>
    decreases t.len() - c,
{
    if !starts_command(t, c) {
        Ok((read, c))
    } else {
        match t[c].kind {
            KindView::Redirect(redirect) => match redirect_of(s, t, c, redirect) {
                Err(error) => Err(error),
                Ok((target, next)) => command_from(
                    s,
                    t,
                    next,
                    SimpleView { redirects: read.redirects.push(target), ..read },
                ),
            },
            _ => {
                let word = t[c].kind->Word_0;
                let assignment = if read.words.len() == 0 {
                    assignment_of(s, word, t[c].start)
                } else {
                    Ok(None)
                };
                match assignment {
                    Err(error) => Err(error),
                    Ok(Some(assignment)) => command_from(
                        s,
                        t,
                        c + 1,
                        SimpleView { assignments: read.assignments.push(assignment), ..read },
                    ),
                    Ok(None) => command_from(
                        s,
                        t,
                        c + 1,
                        SimpleView { words: read.words.push(word), ..read },
                    ),
                }
            },
        }
    }
}

pub open spec fn empty_command() -> SimpleView {
    SimpleView { assignments: seq![], words: seq![], redirects: seq![] }
}

/// The command that starts at `c`, and the index after it.
pub open spec fn command_at(
    s: Seq<char>,
    t: Seq<TokenView>,
    c: int,
    expected: Seq<char>,
) -> Result<(SimpleView, int), ErrorView> {
    if !starts_command(t, c) {
        Err(unexpected_at(s, t, c, expected))
    } else if negation(t[c].kind) {
        Err(
            crate::shell::lex::unsupported(s, t[c].start, UnsupportedConstruct::PipelineNegation),
        )
    } else {
        command_from(s, t, c, empty_command())
    }
}

/// The pipeline that goes on at `c` behind the commands read, and the index after it.
pub open spec fn pipeline_from(
    s: Seq<char>,
    t: Seq<TokenView>,
    c: int,
    read: Seq<SimpleView>,
) -> Result<(Seq<SimpleView>, int), ErrorView>
    decreases t.len() - c,
{
    if !is_kind(t, c, KindView::Pipe) {
        Ok((read, c))
    } else {
        proof {
            lemma_newlines_end(t, c + 1);
            lemma_command_advances(s, t, newlines_end(t, c + 1), "command after pipe"@);
        }
        match command_at(s, t, newlines_end(t, c + 1), "command after pipe"@) {
            Err(error) => Err(error),
            Ok((command, next)) => pipeline_from(s, t, next, read.push(command)),
        }
    }
}

/// The pipeline that starts at `c`, and the index after it.
pub open spec fn pipeline_at(
    s: Seq<char>,
    t: Seq<TokenView>,
    c: int,
    expected: Seq<char>,
) -> Result<(Seq<SimpleView>, int), ErrorView> {
    match command_at(s, t, c, expected) {
        Err(error) => Err(error),
        Ok((command, next)) => pipeline_from(s, t, next, seq![command]),
    }
}

pub open spec fn and_or_at(t: Seq<TokenView>, c: int) -> Option<AndOrOp> {
    if is_kind(t, c, KindView::AndIf) {
        Some(AndOrOp::And)
    } else if is_kind(t, c, KindView::OrIf) {
        Some(AndOrOp::Or)
    } else {
        None
    }
}

pub open spec fn expected_after(op: AndOrOp) -> Seq<char> {
    match op {
        AndOrOp::And => "command after `&&`"@,
        AndOrOp::Or => "command after `||`"@,
    }
}

/// The and-or list that goes on at `c` behind the pipelines read, and the index after it.
pub open spec fn list_from(s: Seq<char>, t: Seq<TokenView>, c: int, read: ListView) -> Result<
    (ListView, int),
    ErrorView,
>
    decreases t.len() - c,
{
    match and_or_at(t, c) {
        None => Ok((read, c)),
        Some(op) => {
            proof {
                lemma_newlines_end(t, c + 1);
                lemma_pipeline_advances(s, t, newlines_end(t, c + 1), expected_after(op));
            }
            match pipeline_at(s, t, newlines_end(t, c + 1), expected_after(op)) {
                Err(error) => Err(error),
                Ok((pipeline, next)) => list_from(
                    s,
                    t,
                    next,
                    ListView { first: read.first, rest: read.rest.push(AndOrView { op, pipeline }) },
                ),
            }
        },
    }
}

/// The and-or list that starts at `c`, and the index after it.
pub open spec fn list_at(s: Seq<char>, t: Seq<TokenView>, c: int) -> Result<
    (ListView, int),
    ErrorView,
> {
    match pipeline_at(s, t, c, "command"@) {
        Err(error) => Err(error),
        Ok((first, next)) => list_from(s, t, next, ListView { first, rest: seq![] }),
    }
}

/// The program that goes on at `c` behind the lists read.
pub open spec fn program_from(
    s: Seq<char>,
    t: Seq<TokenView>,
    c: int,
    read: Seq<ListView>,
) -> Result<Seq<ListView>, ErrorView>
    decreases t.len() - c,
{
    if c < 0 || c >= t.len() {
        Ok(read)
    } else {
        proof {
            lemma_list_advances(s, t, c);
            match list_at(s, t, c) {
                Err(_) => {},
                Ok((_, next)) => {
                    if next + 1 <= t.len() {
                        lemma_newlines_end(t, next + 1);
                    }
                },
            }
        }
        match list_at(s, t, c) {
            Err(error) => Err(error),
            Ok((list, next)) => if is_kind(t, next, KindView::Semi) || is_kind(
                t,
                next,
                KindView::Newline,
            ) {
                program_from(s, t, newlines_end(t, next + 1), read.push(list))
            } else if next >= t.len() {
                Ok(read.push(list))
            } else {
                Err(unexpected_at(s, t, next, "`;`, newline, or end of input"@))
            },
        }
    }
}

/// The program that a command line writes.
pub open spec fn program_of(s: Seq<char>) -> Result<Seq<ListView>, ErrorView> {
    match crate::shell::lex::tokens_of(s) {
        Err(error) => Err(error),
        Ok(t) => program_from(s, t, newlines_end(t, 0), seq![]),
    }
}

// ---- every step goes forward ----

pub proof fn lemma_newlines_end(t: Seq<TokenView>, c: int)
    requires
        0 <= c <= t.len(),
    ensures
        c <= newlines_end(t, c) <= t.len(),
    decreases t.len() - c,
{
    if is_kind(t, c, KindView::Newline) {
        lemma_newlines_end(t, c + 1);
    }
}

pub proof fn lemma_command_from_advances(
    s: Seq<char>,
    t: Seq<TokenView>,
    c: int,
    read: SimpleView,
)
    requires
        0 <= c <= t.len(),
    ensures
        command_from(s, t, c, read) matches Ok((_, next)) ==> c <= next <= t.len() && (
        starts_command(t, c) ==> c < next),
    decreases t.len() - c,
{
    if starts_command(t, c) {
        match t[c].kind {
            KindView::Redirect(redirect) => match redirect_of(s, t, c, redirect) {
                Err(_) => {},
                Ok((target, next)) => {
                    lemma_command_from_advances(
                        s,
                        t,
                        next,
                        SimpleView { redirects: read.redirects.push(target), ..read },
                    );
                },
            },
            _ => {
                let word = t[c].kind->Word_0;
                let assignment = if read.words.len() == 0 {
                    assignment_of(s, word, t[c].start)
                } else {
                    Ok(None)
                };
                match assignment {
                    Err(_) => {},
                    Ok(Some(assignment)) => lemma_command_from_advances(
                        s,
                        t,
                        c + 1,
                        SimpleView { assignments: read.assignments.push(assignment), ..read },
                    ),
                    Ok(None) => lemma_command_from_advances(
                        s,
                        t,
                        c + 1,
                        SimpleView { words: read.words.push(word), ..read },
                    ),
                }
            },
        }
    }
}

pub proof fn lemma_command_advances(
    s: Seq<char>,
    t: Seq<TokenView>,
    c: int,
    expected: Seq<char>,
)
    requires
        0 <= c <= t.len(),
    ensures
        command_at(s, t, c, expected) matches Ok((_, next)) ==> c < next <= t.len(),
{
    lemma_command_from_advances(s, t, c, empty_command());
}

pub proof fn lemma_pipeline_from_advances(
    s: Seq<char>,
    t: Seq<TokenView>,
    c: int,
    read: Seq<SimpleView>,
)
    requires
        0 <= c <= t.len(),
    ensures
        pipeline_from(s, t, c, read) matches Ok((_, next)) ==> c <= next <= t.len(),
    decreases t.len() - c,
{
    if is_kind(t, c, KindView::Pipe) {
        lemma_newlines_end(t, c + 1);
        lemma_command_advances(s, t, newlines_end(t, c + 1), "command after pipe"@);
        match command_at(s, t, newlines_end(t, c + 1), "command after pipe"@) {
            Err(_) => {},
            Ok((command, next)) => lemma_pipeline_from_advances(s, t, next, read.push(command)),
        }
    }
}

pub proof fn lemma_pipeline_advances(
    s: Seq<char>,
    t: Seq<TokenView>,
    c: int,
    expected: Seq<char>,
)
    requires
        0 <= c <= t.len(),
    ensures
        pipeline_at(s, t, c, expected) matches Ok((_, next)) ==> c < next <= t.len(),
{
    lemma_command_advances(s, t, c, expected);
    match command_at(s, t, c, expected) {
        Err(_) => {},
        Ok((command, next)) => lemma_pipeline_from_advances(s, t, next, seq![command]),
    }
}

pub proof fn lemma_list_from_advances(s: Seq<char>, t: Seq<TokenView>, c: int, read: ListView)
    requires
        0 <= c <= t.len(),
    ensures
        list_from(s, t, c, read) matches Ok((_, next)) ==> c <= next <= t.len(),
    decreases t.len() - c,
{
    match and_or_at(t, c) {
        None => {},
        Some(op) => {
            lemma_newlines_end(t, c + 1);
            lemma_pipeline_advances(s, t, newlines_end(t, c + 1), expected_after(op));
            match pipeline_at(s, t, newlines_end(t, c + 1), expected_after(op)) {
                Err(_) => {},
                Ok((pipeline, next)) => lemma_list_from_advances(
                    s,
                    t,
                    next,
                    ListView { first: read.first, rest: read.rest.push(AndOrView { op, pipeline }) },
                ),
            }
        },
    }
}

pub proof fn lemma_list_advances(s: Seq<char>, t: Seq<TokenView>, c: int)
    requires
        0 <= c <= t.len(),
    ensures
        list_at(s, t, c) matches Ok((_, next)) ==> c < next <= t.len(),
{
    lemma_pipeline_advances(s, t, c, "command"@);
    match pipeline_at(s, t, c, "command"@) {
        Err(_) => {},
        Ok((first, next)) => lemma_list_from_advances(
            s,
            t,
            next,
            ListView { first, rest: seq![] },
        ),
    }
}

// ---- the parser ----

pub fn is_assignment_name(name: &str) -> (r: bool)
    ensures
        r == assignment_name(name@),
{
    let chars = text::to_chars(name);
    assignment_name_prefix(&chars, chars.len())
}

/// Whether the first `to` characters can name a variable.
fn assignment_name_prefix(chars: &Vec<char>, to: usize) -> (r: bool)
    requires
        to <= chars@.len(),
    ensures
        r == assignment_name(chars@.take(to as int)),
        to == chars@.len() ==> r == assignment_name(chars@),
{
    let ghost name = chars@.take(to as int);
    proof {
        if to == chars@.len() {
            assert(name =~= chars@);
        }
    }
    if to == 0 || !crate::shell::lex::is_name_start(chars[0]) {
        return false;
    }
    let mut i: usize = 0;
    while i < to
        invariant
            i <= to <= chars@.len(),
            name == chars@.take(to as int),
            to == chars@.len() ==> name == chars@,
            forall|k: int| 0 <= k < i ==> crate::shell::lex::name_char(#[trigger] name[k]),
        decreases to - i,
    {
        if !crate::shell::lex::is_name_continue(chars[i]) {
            proof {
                assert(!crate::shell::lex::name_char(name[i as int]));
            }
            return false;
        }
        i = i + 1;
    }
    true
}

/// The source index of the character with index `count` of the unquoted text at `start`.
fn source_position_for_unquoted_literal(src: &Source, start: usize, count: usize) -> (r: usize)
    requires
        src.wf(),
        start <= src.chars@.len(),
    ensures
        r == source_index(src.chars@, start as int, count as nat),
        r <= src.chars@.len(),
{
    let mut cursor: usize = start;
    let mut left: usize = count;
    while cursor < src.chars.len() && left > 0 && !crate::shell::lex::is_word_break(
        src.chars[cursor],
    )
        invariant
            src.wf(),
            start <= cursor <= src.chars@.len(),
            source_index(src.chars@, cursor as int, left as nat) == source_index(
                src.chars@,
                start as int,
                count as nat,
            ),
        decreases src.chars@.len() - cursor,
    {
        if src.chars[cursor] == '\\' && cursor + 1 < src.chars.len() && src.chars[cursor + 1]
            == '\n' {
            cursor = cursor + 2;
        } else {
            left = left - 1;
            cursor = cursor + 1;
        }
    }
    cursor
}

fn first_append(chars: &Vec<char>) -> (r: usize)
    ensures
        r == find_append(chars@, 0),
        r <= chars@.len(),
{
    let mut i: usize = 0;
    while i < chars.len() && !(chars[i] == '+' && i + 1 < chars.len() && chars[i + 1] == '=')
        invariant
            i <= chars@.len(),
            find_append(chars@, i as int) == find_append(chars@, 0),
        decreases chars@.len() - i,
    {
        i = i + 1;
    }
    i
}

fn first_equals(chars: &Vec<char>) -> (r: usize)
    ensures
        r == text::find_from(chars@, '=', 0),
        r <= chars@.len(),
{
    let mut i: usize = 0;
    while i < chars.len() && chars[i] != '='
        invariant
            i <= chars@.len(),
            text::find_from(chars@, '=', i as int) == text::find_from(chars@, '=', 0),
        decreases chars@.len() - i,
    {
        i = i + 1;
    }
    i
}

/// The assignment that a word before the command's name writes, if it writes one.
pub fn assignment_from_word(src: &Source, word: &Word, start: usize) -> (r: Result<
    Option<Assignment>,
    ParseError,
>)
    requires
        src.wf(),
        start <= src.chars@.len(),
    ensures
        match assignment_of(src.chars@, word@, start as int) {
            Ok(Some(expected)) => r matches Ok(Some(a)) && a@ == expected,
            Ok(None) => r == Ok::<Option<Assignment>, ParseError>(None),
            Err(error) => r matches Err(e) && e@ == error,
        },
{
    if word.segments.len() == 0 {
        return Ok(None);
    }
    proof {
        assert(word@[0] == word.segments@[0]@);
    }
    let value = match &word.segments[0] {
        Segment::Literal { value, quoted: false } => value,
        _ => {
            return Ok(None);
        },
    };
    let chars = text::to_chars(value.as_str());
    let append = first_append(&chars);
    if append < chars.len() && assignment_name_prefix(&chars, append) {
        let position = source_position_for_unquoted_literal(src, start, append);
        return Err(
            src.error(
                position,
                ParseErrorKind::Unsupported(UnsupportedConstruct::AppendAssignment),
            ),
        );
    }
    let equals = first_equals(&chars);
    if equals >= chars.len() || !assignment_name_prefix(&chars, equals) {
        return Ok(None);
    }
    let name = text::from_range(&chars, 0, equals);
    let mut rest = crate::shell::copy_segments(&word.segments, 1);
    let ghost rest_view = crate::shell::segments_view(rest@);
    let mut segments: Vec<Segment> = Vec::new();
    proof {
        assert(name@ =~= chars@.take(equals as int));
    }
    if equals + 1 < chars.len() {
        let first = text::from_range(&chars, equals + 1, chars.len());
        proof {
            assert(first@ =~= chars@.skip(equals + 1));
        }
        segments.push(Segment::Literal { value: first, quoted: false });
    }
    let ghost head = crate::shell::segments_view(segments@);
    segments.append(&mut rest);
    let assignment = Assignment { name, value: Word { segments } };
    proof {
        assert(assignment.value@ =~= head + rest_view);
        if equals + 1 < chars@.len() {
            assert(head =~= seq![
                SegmentView::Literal { value: chars@.skip(equals + 1), quoted: false },
            ]);
        } else {
            assert(chars@.skip(equals + 1).len() == 0);
            assert(assignment.value@ =~= rest_view);
        }
    }
    Ok(Some(assignment))
}

pub fn is_pipeline_negation_word(kind: &TokenKind) -> (r: bool)
    ensures
        r == negation(kind@),
{
    let word = match kind {
        TokenKind::Word(word) => word,
        _ => {
            return false;
        },
    };
    let ghost bang = SegmentView::Literal { value: seq!['!'], quoted: false };
    if word.segments.len() != 1 {
        proof {
            assert(word@.len() != seq![bang].len());
        }
        return false;
    }
    proof {
        assert(word@[0] == word.segments@[0]@);
        if word@[0] == bang {
            assert(word@ =~= seq![bang]);
        }
        if word@ == seq![bang] {
            assert(word@[0] == bang);
        }
        reveal_strlit("!");
        assert("!"@ =~= seq!['!']);
    }
    match &word.segments[0] {
        Segment::Literal { value, quoted: false } => text::str_eq(value.as_str(), "!"),
        _ => false,
    }
}

struct Parser<'a> {
    source: &'a Source,
    tokens: Vec<Token>,
}

impl<'a> Parser<'a> {
    spec fn wf(&self) -> bool {
        &&& self.source.wf()
        &&& crate::shell::lex::tokens_placed(self.source.chars@, self.tokens@)
        &&& self.tokens@.len() <= usize::MAX
    }

    spec fn chars(&self) -> Seq<char> {
        self.source.chars@
    }

    spec fn view(&self) -> Seq<TokenView> {
        crate::shell::lex::tokens_view(self.tokens@)
    }

    fn starts_command(&self, c: usize) -> (r: bool)
        ensures
            r == starts_command(self.view(), c as int),
    {
        if c >= self.tokens.len() {
            return false;
        }
        match &self.tokens[c].kind {
            TokenKind::Word(_) => true,
            TokenKind::Redirect(_) => true,
            _ => false,
        }
    }

    fn is_newline(&self, c: usize) -> (r: bool)
        ensures
            r == is_kind(self.view(), c as int, KindView::Newline),
    {
        if c >= self.tokens.len() {
            return false;
        }
        match &self.tokens[c].kind {
            TokenKind::Newline => true,
            _ => false,
        }
    }

    fn is_pipe(&self, c: usize) -> (r: bool)
        ensures
            r == is_kind(self.view(), c as int, KindView::Pipe),
    {
        if c >= self.tokens.len() {
            return false;
        }
        match &self.tokens[c].kind {
            TokenKind::Pipe => true,
            _ => false,
        }
    }

    fn is_semi(&self, c: usize) -> (r: bool)
        ensures
            r == is_kind(self.view(), c as int, KindView::Semi),
    {
        if c >= self.tokens.len() {
            return false;
        }
        match &self.tokens[c].kind {
            TokenKind::Semi => true,
            _ => false,
        }
    }

    fn and_or(&self, c: usize) -> (r: Option<AndOrOp>)
        ensures
            r == and_or_at(self.view(), c as int),
    {
        if c >= self.tokens.len() {
            return None;
        }
        match &self.tokens[c].kind {
            TokenKind::AndIf => Some(AndOrOp::And),
            TokenKind::OrIf => Some(AndOrOp::Or),
            _ => None,
        }
    }

    fn skip_newlines(&self, c: usize) -> (r: usize)
        requires
            self.wf(),
            c <= self.tokens@.len(),
        ensures
            r == newlines_end(self.view(), c as int),
            c <= r <= self.tokens@.len(),
    {
        let mut i: usize = c;
        while self.is_newline(i)
            invariant
                c <= i <= self.tokens@.len(),
                self.wf(),
                newlines_end(self.view(), i as int) == newlines_end(self.view(), c as int),
            decreases self.tokens@.len() - i,
        {
            i = i + 1;
        }
        i
    }

    fn unexpected(&self, c: usize, expected: &'static str) -> (r: ParseError)
        requires
            self.wf(),
        ensures
            r@ == unexpected_at(self.chars(), self.view(), c as int, expected@),
    {
        if c < self.tokens.len() {
            let token = &self.tokens[c];
            ParseError::new(
                token.position,
                ParseErrorKind::UnexpectedToken { expected, found: token.kind.description() },
            )
        } else {
            proof {
                text::lemma_offset_bounds(self.chars(), self.chars().len() as int);
            }
            self.source.error(
                self.source.chars.len(),
                ParseErrorKind::UnexpectedEof { expected },
            )
        }
    }

    fn parse_redirect(&self, c: usize, redirect: RedirectToken) -> (r: Result<
        (Redirect, usize),
        ParseError,
    >)
        requires
            self.wf(),
            c < self.tokens@.len(),
        ensures
            match redirect_of(self.chars(), self.view(), c as int, redirect) {
                Ok((expected, next)) => r matches Ok((redirect, n)) && redirect@ == expected && n
                    == next,
                Err(error) => r matches Err(e) && e@ == error,
            },
    {
        match redirect.target_fd {
            Some(fd) => Ok(
                (
                    Redirect { fd: redirect.fd, op: redirect.op, target: RedirectTarget::Fd(fd) },
                    c + 1,
                ),
            ),
            None => {
                if c + 1 < self.tokens.len() {
                    match &self.tokens[c + 1].kind {
                        TokenKind::Word(word) => {
                            return Ok(
                                (
                                    Redirect {
                                        fd: redirect.fd,
                                        op: redirect.op,
                                        target: RedirectTarget::Word(word.clone()),
                                    },
                                    c + 2,
                                ),
                            );
                        },
                        _ => {},
                    }
                }
                Err(
                    ParseError::new(
                        self.tokens[c].position,
                        ParseErrorKind::MissingRedirectTarget,
                    ),
                )
            },
        }
    }

    fn parse_command(&self, start: usize, expected: &'static str) -> (r: Result<
        (Command, usize),
        ParseError,
    >)
        requires
            self.wf(),
            start <= self.tokens@.len(),
        ensures
            match command_at(self.chars(), self.view(), start as int, expected@) {
                Ok((command, next)) => r matches Ok((c, n)) && c@ == command && n == next,
                Err(error) => r matches Err(e) && e@ == error,
            },
    {
        if !self.starts_command(start) {
            return Err(self.unexpected(start, expected));
        }
        if is_pipeline_negation_word(&self.tokens[start].kind) {
            return Err(
                ParseError::new(
                    self.tokens[start].position,
                    ParseErrorKind::Unsupported(UnsupportedConstruct::PipelineNegation),
                ),
            );
        }
        let mut assignments: Vec<Assignment> = Vec::new();
        let mut words: Vec<Word> = Vec::new();
        let mut redirects: Vec<Redirect> = Vec::new();
        let mut c: usize = start;
        let ghost result = command_from(
            self.chars(),
            self.view(),
            start as int,
            empty_command(),
        );
        proof {
            assert(crate::shell::assignments_view(assignments@) =~= seq![]);
            assert(crate::shell::words_view(words@) =~= seq![]);
            assert(crate::shell::redirects_view(redirects@) =~= seq![]);
        }
        while self.starts_command(c)
            invariant
                self.wf(),
                start <= c <= self.tokens@.len(),
                command_from(
                    self.chars(),
                    self.view(),
                    c as int,
                    SimpleView {
                        assignments: crate::shell::assignments_view(assignments@),
                        words: crate::shell::words_view(words@),
                        redirects: crate::shell::redirects_view(redirects@),
                    },
                ) == result,
                result == command_at(self.chars(), self.view(), start as int, expected@),
            decreases self.tokens@.len() - c,
        {
            match &self.tokens[c].kind {
                TokenKind::Word(word) => {
                    let assignment = if words.len() == 0 {
                        match assignment_from_word(self.source, word, self.tokens[c].start) {
                            Ok(assignment) => assignment,
                            Err(error) => {
                                return Err(error);
                            },
                        }
                    } else {
                        None
                    };
                    match assignment {
                        Some(assignment) => {
                            let ghost before = assignments@;
                            assignments.push(assignment);
                            proof {
                                assert(crate::shell::assignments_view(assignments@)
                                    =~= crate::shell::assignments_view(before).push(assignment@));
                            }
                        },
                        None => {
                            let ghost before = words@;
                            let copy = word.clone();
                            words.push(copy);
                            proof {
                                assert(crate::shell::words_view(words@)
                                    =~= crate::shell::words_view(before).push(copy@));
                            }
                        },
                    }
                    c = c + 1;
                },
                TokenKind::Redirect(redirect) => {
                    match self.parse_redirect(c, *redirect) {
                        Ok((redirect, next)) => {
                            let ghost before = redirects@;
                            redirects.push(redirect);
                            proof {
                                assert(crate::shell::redirects_view(redirects@)
                                    =~= crate::shell::redirects_view(before).push(redirect@));
                            }
                            c = next;
                        },
                        Err(error) => {
                            return Err(error);
                        },
                    }
                },
                _ => {
                    proof {
                        assert(false);
                    }
                    c = c + 1;
                },
            }
        }
        Ok((Command::Simple(SimpleCommand { assignments, words, redirects }), c))
    }

    fn parse_pipeline(&self, start: usize, expected: &'static str) -> (r: Result<
        (Pipeline, usize),
        ParseError,
    >)
        requires
            self.wf(),
            start <= self.tokens@.len(),
        ensures
            match pipeline_at(self.chars(), self.view(), start as int, expected@) {
                Ok((pipeline, next)) => r matches Ok((p, n)) && p@ == pipeline && n == next,
                Err(error) => r matches Err(e) && e@ == error,
            },
    {
        let ghost result = pipeline_at(self.chars(), self.view(), start as int, expected@);
        proof {
            lemma_command_advances(self.chars(), self.view(), start as int, expected@);
        }
        let (first, next) = match self.parse_command(start, expected) {
            Ok(parsed) => parsed,
            Err(error) => {
                return Err(error);
            },
        };
        let mut commands: Vec<Command> = Vec::new();
        commands.push(first);
        let mut c: usize = next;
        proof {
            assert(crate::shell::commands_view(commands@) =~= seq![first@]);
        }
        while self.is_pipe(c)
            invariant
                self.wf(),
                c <= self.tokens@.len(),
                pipeline_from(
                    self.chars(),
                    self.view(),
                    c as int,
                    crate::shell::commands_view(commands@),
                ) == result,
                result == pipeline_at(self.chars(), self.view(), start as int, expected@),
            decreases self.tokens@.len() - c,
        {
            let after = self.skip_newlines(c + 1);
            proof {
                lemma_command_advances(
                    self.chars(),
                    self.view(),
                    after as int,
                    "command after pipe"@,
                );
            }
            match self.parse_command(after, "command after pipe") {
                Ok((command, next)) => {
                    let ghost before = commands@;
                    commands.push(command);
                    proof {
                        assert(crate::shell::commands_view(commands@)
                            =~= crate::shell::commands_view(before).push(command@));
                    }
                    c = next;
                },
                Err(error) => {
                    return Err(error);
                },
            }
        }
        Ok((Pipeline { commands }, c))
    }

    fn parse_and_or_list(&self, start: usize) -> (r: Result<(AndOrList, usize), ParseError>)
        requires
            self.wf(),
            start <= self.tokens@.len(),
        ensures
            match list_at(self.chars(), self.view(), start as int) {
                Ok((list, next)) => r matches Ok((l, n)) && l@ == list && n == next,
                Err(error) => r matches Err(e) && e@ == error,
            },
    {
        let ghost result = list_at(self.chars(), self.view(), start as int);
        proof {
            lemma_pipeline_advances(self.chars(), self.view(), start as int, "command"@);
        }
        let (first, next) = match self.parse_pipeline(start, "command") {
            Ok(parsed) => parsed,
            Err(error) => {
                return Err(error);
            },
        };
        let mut rest: Vec<AndOr> = Vec::new();
        let mut c: usize = next;
        proof {
            assert(crate::shell::and_ors_view(rest@) =~= seq![]);
        }
        loop
            invariant
                self.wf(),
                c <= self.tokens@.len(),
                list_from(
                    self.chars(),
                    self.view(),
                    c as int,
                    ListView { first: first@, rest: crate::shell::and_ors_view(rest@) },
                ) == result,
                result == list_at(self.chars(), self.view(), start as int),
            decreases self.tokens@.len() - c,
        {
            let op = match self.and_or(c) {
                Some(op) => op,
                None => {
                    return Ok((AndOrList { first, rest }, c));
                },
            };
            let after = self.skip_newlines(c + 1);
            proof {
                lemma_pipeline_advances(
                    self.chars(),
                    self.view(),
                    after as int,
                    expected_after(op),
                );
            }
            let expected = match op {
                AndOrOp::And => "command after `&&`",
                AndOrOp::Or => "command after `||`",
            };
            match self.parse_pipeline(after, expected) {
                Ok((pipeline, next)) => {
                    let ghost before = rest@;
                    let and_or = AndOr { op, pipeline };
                    rest.push(and_or);
                    proof {
                        assert(crate::shell::and_ors_view(rest@) =~= crate::shell::and_ors_view(
                            before,
                        ).push(and_or@));
                    }
                    c = next;
                },
                Err(error) => {
                    return Err(error);
                },
            }
        }
    }

    fn parse_program(&self) -> (r: Result<Program, ParseError>)
        requires
            self.wf(),
        ensures
            match program_from(self.chars(), self.view(), newlines_end(self.view(), 0), seq![]) {
                Ok(program) => r matches Ok(p) && p@ == program,
                Err(error) => r matches Err(e) && e@ == error,
            },
    {
        let mut lists: Vec<AndOrList> = Vec::new();
        let mut c = self.skip_newlines(0);
        let ghost result = program_from(
            self.chars(),
            self.view(),
            newlines_end(self.view(), 0),
            seq![],
        );
        proof {
            assert(crate::shell::lists_view(lists@) =~= seq![]);
        }
        while c < self.tokens.len()
            invariant
                self.wf(),
                c <= self.tokens@.len(),
                program_from(
                    self.chars(),
                    self.view(),
                    c as int,
                    crate::shell::lists_view(lists@),
                ) == result,
                result == program_from(
                    self.chars(),
                    self.view(),
                    newlines_end(self.view(), 0),
                    seq![],
                ),
            decreases self.tokens@.len() - c,
        {
            proof {
                lemma_list_advances(self.chars(), self.view(), c as int);
            }
            match self.parse_and_or_list(c) {
                Ok((list, next)) => {
                    let ghost before = lists@;
                    lists.push(list);
                    proof {
                        assert(crate::shell::lists_view(lists@) =~= crate::shell::lists_view(
                            before,
                        ).push(list@));
                    }
                    if self.is_semi(next) || self.is_newline(next) {
                        c = self.skip_newlines(next + 1);
                    } else if next < self.tokens.len() {
                        return Err(self.unexpected(next, "`;`, newline, or end of input"));
                    } else {
                        return Ok(Program { lists });
                    }
                },
                Err(error) => {
                    return Err(error);
                },
            }
        }
        Ok(Program { lists })
    }
}

/// Parses a command line.
pub fn parse(input: &str) -> (r: Result<Program, ParseError>)
    ensures
        match program_of(input@) {
            Ok(program) => r matches Ok(p) && p@ == program,
            Err(error) => r matches Err(e) && e@ == error,
        },
{
    let source = Source::new(input);
    match lex_source(&source) {
        Ok(tokens) => {
            proof {
                assert(tokens.len() == tokens@.len());
            }
            let parser = Parser { source: &source, tokens };
            parser.parse_program()
        },
        Err(error) => Err(error),
    }
}

} // verus!
