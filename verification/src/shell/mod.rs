//! The shell language: programs, words, redirects and the errors that parsing reports.

pub mod laws;
pub mod lex;
pub mod moved;
pub mod newlines;
pub mod parse;
pub mod written;

use vstd::prelude::*;

use crate::text;

pub use self::parse::parse;

verus! {

pub type ParseResult<T> = Result<T, ParseError>;

/// A whole command line: and-or lists that run one after another.
#[derive(Debug, Clone, PartialEq, Eq)]
pub struct Program {
    pub lists: Vec<AndOrList>,
}

#[derive(Debug, Clone, PartialEq, Eq)]
pub struct AndOrList {
    pub first: Pipeline,
    pub rest: Vec<AndOr>,
}

#[derive(Debug, Clone, PartialEq, Eq)]
pub struct AndOr {
    pub op: AndOrOp,
    pub pipeline: Pipeline,
}

#[derive(Debug, Clone, Copy, PartialEq, Eq, Structural)]
pub enum AndOrOp {
    And,
    Or,
}

#[derive(Debug, Clone, PartialEq, Eq)]
pub struct Pipeline {
    pub commands: Vec<Command>,
}

#[derive(Debug, Clone, PartialEq, Eq)]
pub enum Command {
    Simple(SimpleCommand),
}

#[derive(Debug, Clone, PartialEq, Eq)]
pub struct SimpleCommand {
    pub assignments: Vec<Assignment>,
    pub words: Vec<Word>,
    pub redirects: Vec<Redirect>,
}

#[derive(Debug, Clone, PartialEq, Eq)]
pub struct Assignment {
    pub name: String,
    pub value: Word,
}

/// A shell word before field splitting.
///
/// Bash field-splits unquoted expansion results after parsing. The segments keep that
/// information, so that splitting can be applied with the final environment.
#[derive(Debug, PartialEq, Eq)]
pub struct Word {
    pub segments: Vec<Segment>,
}

#[derive(Debug, PartialEq, Eq)]
pub enum Segment {
    Literal { value: String, quoted: bool },
    Expansion { name: String, quoted: bool },
}

#[derive(Debug, Clone, PartialEq, Eq)]
pub struct Redirect {
    pub fd: Option<u32>,
    pub op: RedirectOp,
    pub target: RedirectTarget,
}

#[derive(Debug, Clone, Copy, PartialEq, Eq, Structural)]
pub enum RedirectOp {
    Read,
    Write,
    Append,
}

#[derive(Debug, Clone, PartialEq, Eq)]
pub enum RedirectTarget {
    Word(Word),
    Fd(u32),
}

/// A parse error, with the byte of the input that it is about.
#[derive(Debug, Clone, PartialEq, Eq)]
pub struct ParseError {
    pub position: usize,
    pub kind: ParseErrorKind,
}

#[derive(Debug, Clone, PartialEq, Eq)]
pub enum ParseErrorKind {
    UnexpectedEof { expected: &'static str },
    UnexpectedToken { expected: &'static str, found: &'static str },
    MissingRedirectTarget,
    UnterminatedQuote { quote: QuoteKind },
    UnterminatedEscape,
    UnterminatedBracedExpansion,
    InvalidParameterExpansion,
    InvalidFileDescriptor,
    AmbiguousRedirect,
    Unsupported(UnsupportedConstruct),
}

#[derive(Debug, Clone, Copy, PartialEq, Eq, Structural)]
pub enum QuoteKind {
    Single,
    Double,
}

#[derive(Debug, Clone, Copy, PartialEq, Eq, Structural)]
pub enum UnsupportedConstruct {
    Glob,
    CommandSubstitution,
    Backticks,
    Background,
    Subshell,
    BraceExpansion,
    Heredoc,
    TildeExpansion,
    ParameterExpansion,
    RedirectFdDup,
    AnsiCString,
    LocaleTranslation,
    AppendAssignment,
    PipelineNegation,
}

// ---- what the types stand for ----

#[verifier::ext_equal]
pub enum SegmentView {
    Literal { value: Seq<char>, quoted: bool },
    Expansion { name: Seq<char>, quoted: bool },
}

#[verifier::ext_equal]
pub struct AssignmentView {
    pub name: Seq<char>,
    pub value: Seq<SegmentView>,
}

#[verifier::ext_equal]
pub enum RedirectTargetView {
    Word(Seq<SegmentView>),
    Fd(u32),
}

#[verifier::ext_equal]
pub struct RedirectView {
    pub fd: Option<u32>,
    pub op: RedirectOp,
    pub target: RedirectTargetView,
}

#[verifier::ext_equal]
pub struct SimpleView {
    pub assignments: Seq<AssignmentView>,
    pub words: Seq<Seq<SegmentView>>,
    pub redirects: Seq<RedirectView>,
}

#[verifier::ext_equal]
pub struct AndOrView {
    pub op: AndOrOp,
    pub pipeline: Seq<SimpleView>,
}

#[verifier::ext_equal]
pub struct ListView {
    pub first: Seq<SimpleView>,
    pub rest: Seq<AndOrView>,
}

#[verifier::ext_equal]
pub enum ErrorKindView {
    UnexpectedEof { expected: Seq<char> },
    UnexpectedToken { expected: Seq<char>, found: Seq<char> },
    MissingRedirectTarget,
    UnterminatedQuote { quote: QuoteKind },
    UnterminatedEscape,
    UnterminatedBracedExpansion,
    InvalidParameterExpansion,
    InvalidFileDescriptor,
    AmbiguousRedirect,
    Unsupported(UnsupportedConstruct),
}

#[verifier::ext_equal]
pub struct ErrorView {
    pub position: nat,
    pub kind: ErrorKindView,
}

impl View for Segment {
    type V = SegmentView;

    open spec fn view(&self) -> SegmentView {
        match self {
            Segment::Literal { value, quoted } => SegmentView::Literal {
                value: value@,
                quoted: *quoted,
            },
            Segment::Expansion { name, quoted } => SegmentView::Expansion {
                name: name@,
                quoted: *quoted,
            },
        }
    }
}

pub open spec fn segments_view(s: Seq<Segment>) -> Seq<SegmentView> {
    s.map_values(|x: Segment| x@)
}

impl View for Word {
    type V = Seq<SegmentView>;

    open spec fn view(&self) -> Seq<SegmentView> {
        segments_view(self.segments@)
    }
}

pub open spec fn words_view(s: Seq<Word>) -> Seq<Seq<SegmentView>> {
    s.map_values(|x: Word| x@)
}

impl View for Assignment {
    type V = AssignmentView;

    open spec fn view(&self) -> AssignmentView {
        AssignmentView { name: self.name@, value: self.value@ }
    }
}

pub open spec fn assignments_view(s: Seq<Assignment>) -> Seq<AssignmentView> {
    s.map_values(|x: Assignment| x@)
}

impl View for RedirectTarget {
    type V = RedirectTargetView;

    open spec fn view(&self) -> RedirectTargetView {
        match self {
            RedirectTarget::Word(w) => RedirectTargetView::Word(w@),
            RedirectTarget::Fd(fd) => RedirectTargetView::Fd(*fd),
        }
    }
}

impl View for Redirect {
    type V = RedirectView;

    open spec fn view(&self) -> RedirectView {
        RedirectView { fd: self.fd, op: self.op, target: self.target@ }
    }
}

pub open spec fn redirects_view(s: Seq<Redirect>) -> Seq<RedirectView> {
    s.map_values(|x: Redirect| x@)
}

impl View for SimpleCommand {
    type V = SimpleView;

    open spec fn view(&self) -> SimpleView {
        SimpleView {
            assignments: assignments_view(self.assignments@),
            words: words_view(self.words@),
            redirects: redirects_view(self.redirects@),
        }
    }
}

impl View for Command {
    type V = SimpleView;

    open spec fn view(&self) -> SimpleView {
        match self {
            Command::Simple(simple) => simple@,
        }
    }
}

pub open spec fn commands_view(s: Seq<Command>) -> Seq<SimpleView> {
    s.map_values(|x: Command| x@)
}

impl View for Pipeline {
    type V = Seq<SimpleView>;

    open spec fn view(&self) -> Seq<SimpleView> {
        commands_view(self.commands@)
    }
}

impl View for AndOr {
    type V = AndOrView;

    open spec fn view(&self) -> AndOrView {
        AndOrView { op: self.op, pipeline: self.pipeline@ }
    }
}

pub open spec fn and_ors_view(s: Seq<AndOr>) -> Seq<AndOrView> {
    s.map_values(|x: AndOr| x@)
}

impl View for AndOrList {
    type V = ListView;

    open spec fn view(&self) -> ListView {
        ListView { first: self.first@, rest: and_ors_view(self.rest@) }
    }
}

pub open spec fn lists_view(s: Seq<AndOrList>) -> Seq<ListView> {
    s.map_values(|x: AndOrList| x@)
}

impl View for Program {
    type V = Seq<ListView>;

    open spec fn view(&self) -> Seq<ListView> {
        lists_view(self.lists@)
    }
}

impl View for ParseErrorKind {
    type V = ErrorKindView;

    open spec fn view(&self) -> ErrorKindView {
        match self {
            ParseErrorKind::UnexpectedEof { expected } => ErrorKindView::UnexpectedEof {
                expected: expected@,
            },
            ParseErrorKind::UnexpectedToken { expected, found } => ErrorKindView::UnexpectedToken {
                expected: expected@,
                found: found@,
            },
            ParseErrorKind::MissingRedirectTarget => ErrorKindView::MissingRedirectTarget,
            ParseErrorKind::UnterminatedQuote { quote } => ErrorKindView::UnterminatedQuote {
                quote: *quote,
            },
            ParseErrorKind::UnterminatedEscape => ErrorKindView::UnterminatedEscape,
            ParseErrorKind::UnterminatedBracedExpansion => {
                ErrorKindView::UnterminatedBracedExpansion
            },
            ParseErrorKind::InvalidParameterExpansion => ErrorKindView::InvalidParameterExpansion,
            ParseErrorKind::InvalidFileDescriptor => ErrorKindView::InvalidFileDescriptor,
            ParseErrorKind::AmbiguousRedirect => ErrorKindView::AmbiguousRedirect,
            ParseErrorKind::Unsupported(construct) => ErrorKindView::Unsupported(*construct),
        }
    }
}

impl View for ParseError {
    type V = ErrorView;

    open spec fn view(&self) -> ErrorView {
        ErrorView { position: self.position as nat, kind: self.kind@ }
    }
}

impl Clone for Segment {
    fn clone(&self) -> (r: Self)
        ensures
            r@ == self@,
    {
        match self {
            Segment::Literal { value, quoted } => Segment::Literal {
                value: value.clone(),
                quoted: *quoted,
            },
            Segment::Expansion { name, quoted } => Segment::Expansion {
                name: name.clone(),
                quoted: *quoted,
            },
        }
    }
}

/// A copy of the segments from index `from` on.
pub fn copy_segments(segments: &Vec<Segment>, from: usize) -> (r: Vec<Segment>)
    requires
        from <= segments@.len(),
    ensures
        segments_view(r@) == segments_view(segments@).skip(from as int),
{
    let mut r: Vec<Segment> = Vec::new();
    let mut i: usize = from;
    while i < segments.len()
        invariant
            from <= i <= segments@.len(),
            segments_view(r@) == segments_view(segments@).subrange(from as int, i as int),
        decreases segments@.len() - i,
    {
        let ghost before = r@;
        let segment = segments[i].clone();
        r.push(segment);
        i = i + 1;
        proof {
            assert(segments_view(r@) =~= segments_view(before).push(segment@));
            assert(segments_view(r@) =~= segments_view(segments@).subrange(from as int, i as int));
        }
    }
    proof {
        assert(segments_view(r@) =~= segments_view(segments@).skip(from as int));
    }
    r
}

impl Clone for Word {
    fn clone(&self) -> (r: Self)
        ensures
            r@ == self@,
    {
        let r = Word { segments: copy_segments(&self.segments, 0) };
        proof {
            assert(r@ =~= self@);
        }
        r
    }
}

impl Default for Word {
    fn default() -> (r: Self)
        ensures
            r@ == Seq::<SegmentView>::empty(),
    {
        let r = Word { segments: Vec::new() };
        proof {
            assert(r@ =~= Seq::<SegmentView>::empty());
        }
        r
    }
}

impl Default for Program {
    fn default() -> (r: Self)
        ensures
            r@ == Seq::<ListView>::empty(),
    {
        let r = Program { lists: Vec::new() };
        proof {
            assert(r@ =~= Seq::<ListView>::empty());
        }
        r
    }
}

/// The name under which an unsupported construct is reported.
pub open spec fn construct_text(construct: UnsupportedConstruct) -> Seq<char> {
    match construct {
        UnsupportedConstruct::Glob => "glob pattern"@,
        UnsupportedConstruct::CommandSubstitution => "command substitution"@,
        UnsupportedConstruct::Backticks => "backtick command substitution"@,
        UnsupportedConstruct::Background => "background execution"@,
        UnsupportedConstruct::Subshell => "subshell syntax"@,
        UnsupportedConstruct::BraceExpansion => "brace expansion"@,
        UnsupportedConstruct::Heredoc => "heredoc"@,
        UnsupportedConstruct::TildeExpansion => "tilde expansion"@,
        UnsupportedConstruct::ParameterExpansion => "parameter expansion"@,
        UnsupportedConstruct::RedirectFdDup => "redirect fd duplication"@,
        UnsupportedConstruct::AnsiCString => "ANSI-C quoting"@,
        UnsupportedConstruct::LocaleTranslation => "locale translation quoting"@,
        UnsupportedConstruct::AppendAssignment => "append assignment"@,
        UnsupportedConstruct::PipelineNegation => "pipeline negation"@,
    }
}

pub open spec fn error_kind_text(kind: ErrorKindView) -> Seq<char> {
    match kind {
        ErrorKindView::UnexpectedEof { expected } => "expected "@ + expected
            + ", found end of input"@,
        ErrorKindView::UnexpectedToken { expected, found } => "expected "@ + expected + ", found "@
            + found,
        ErrorKindView::MissingRedirectTarget => "missing redirect target"@,
        ErrorKindView::UnterminatedQuote { quote } => match quote {
            QuoteKind::Single => "unterminated single quote"@,
            QuoteKind::Double => "unterminated double quote"@,
        },
        ErrorKindView::UnterminatedEscape => "unterminated escape"@,
        ErrorKindView::UnterminatedBracedExpansion => "unterminated braced parameter expansion"@,
        ErrorKindView::InvalidParameterExpansion => "invalid or unsupported parameter expansion"@,
        ErrorKindView::InvalidFileDescriptor => "invalid file descriptor"@,
        ErrorKindView::AmbiguousRedirect => "ambiguous redirect"@,
        ErrorKindView::Unsupported(construct) => "unsupported "@ + construct_text(construct),
    }
}

/// The message that a parse error is reported with.
pub open spec fn error_text(error: ErrorView) -> Seq<char> {
    "parse error at byte "@ + text::decimal_text(error.position) + ": "@ + error_kind_text(error.kind)
}

impl UnsupportedConstruct {
    pub fn name(&self) -> (r: &'static str)
        ensures
            r@ == construct_text(*self),
    {
        match self {
            UnsupportedConstruct::Glob => "glob pattern",
            UnsupportedConstruct::CommandSubstitution => "command substitution",
            UnsupportedConstruct::Backticks => "backtick command substitution",
            UnsupportedConstruct::Background => "background execution",
            UnsupportedConstruct::Subshell => "subshell syntax",
            UnsupportedConstruct::BraceExpansion => "brace expansion",
            UnsupportedConstruct::Heredoc => "heredoc",
            UnsupportedConstruct::TildeExpansion => "tilde expansion",
            UnsupportedConstruct::ParameterExpansion => "parameter expansion",
            UnsupportedConstruct::RedirectFdDup => "redirect fd duplication",
            UnsupportedConstruct::AnsiCString => "ANSI-C quoting",
            UnsupportedConstruct::LocaleTranslation => "locale translation quoting",
            UnsupportedConstruct::AppendAssignment => "append assignment",
            UnsupportedConstruct::PipelineNegation => "pipeline negation",
        }
    }
}

impl ParseErrorKind {
    pub fn message(&self) -> (r: String)
        ensures
            r@ == error_kind_text(self@),
    {
        match self {
            ParseErrorKind::UnexpectedEof { expected } => {
                text::concat3("expected ", expected, ", found end of input")
            },
            ParseErrorKind::UnexpectedToken { expected, found } => {
                text::concat4("expected ", expected, ", found ", found)
            },
            ParseErrorKind::MissingRedirectTarget => text::copy("missing redirect target"),
            ParseErrorKind::UnterminatedQuote { quote } => match quote {
                QuoteKind::Single => text::copy("unterminated single quote"),
                QuoteKind::Double => text::copy("unterminated double quote"),
            },
            ParseErrorKind::UnterminatedEscape => text::copy("unterminated escape"),
            ParseErrorKind::UnterminatedBracedExpansion => {
                text::copy("unterminated braced parameter expansion")
            },
            ParseErrorKind::InvalidParameterExpansion => {
                text::copy("invalid or unsupported parameter expansion")
            },
            ParseErrorKind::InvalidFileDescriptor => text::copy("invalid file descriptor"),
            ParseErrorKind::AmbiguousRedirect => text::copy("ambiguous redirect"),
            ParseErrorKind::Unsupported(construct) => {
                text::concat2("unsupported ", construct.name())
            },
        }
    }
}

impl ParseError {
    pub fn new(position: usize, kind: ParseErrorKind) -> (r: Self)
        ensures
            r.position == position,
            r.kind == kind,
    {
        ParseError { position, kind }
    }

    /// The message of the error, as a user reads it.
    pub fn message(&self) -> (r: String)
        ensures
            r@ == error_text(self@),
    {
        let position = text::decimal(self.position as u64);
        let kind = self.kind.message();
        text::concat4("parse error at byte ", position.as_str(), ": ", kind.as_str())
    }
}

} // verus!
