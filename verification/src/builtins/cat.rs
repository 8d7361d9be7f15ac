//! `cat`: concatenation, with line numbers and visible characters where asked for.

use vstd::prelude::*;
use vstd::utf8::*;

use crate::builtins;
use crate::builtins::flags;
use crate::builtins::operands;
use crate::builtins::lines;
use crate::builtins::{Failure, FailureView};
use crate::bytes;
use crate::text;

verus! {

#[derive(Debug, Clone, Copy, PartialEq, Eq, Structural)]
pub struct CatFlags {
    pub number: bool,
    pub number_nonblank: bool,
    pub squeeze: bool,
    pub show_ends: bool,
    pub show_tabs: bool,
}

impl CatFlags {
    pub open spec fn is_plain(&self) -> bool {
        !(self.number || self.number_nonblank || self.squeeze || self.show_ends || self.show_tabs)
    }

    /// Whether the input is passed on as it is.
    pub fn plain(&self) -> (r: bool)
        ensures
            r == self.is_plain(),
    {
        !(self.number || self.number_nonblank || self.squeeze || self.show_ends || self.show_tabs)
    }
}

/// The line number, the blank line before, and the line that has not ended, which all carry over
/// from one file to the next.
#[derive(Debug, Clone, Copy, PartialEq, Eq, Structural)]
pub struct CatState {
    pub line: u64,
    pub prev_blank: bool,
    /// Whether what comes next goes on with a line.
    pub mid_line: bool,
}

impl CatState {
    pub fn new() -> (r: Self)
        ensures
            r == (CatState { line: 0, prev_blank: false, mid_line: false }),
    {
        CatState { line: 0, prev_blank: false, mid_line: false }
    }
}

/// What `cat` is asked to do.
pub struct CatPlan {
    pub flags: CatFlags,
    pub paths: Vec<String>,
}

pub open spec fn cat_flags(letters: Seq<char>) -> CatFlags {
    CatFlags {
        number: letters.contains('n'),
        number_nonblank: letters.contains('b'),
        squeeze: letters.contains('s'),
        show_ends: letters.contains('E'),
        show_tabs: letters.contains('T'),
    }
}

/// Reads the arguments of `cat`.
pub fn parse_cat_args(args: &Vec<String>) -> (r: Result<CatPlan, Failure>)
    ensures
        match flags::scanned(text::texts(args@), "nbsET"@) {
            Ok(read) => r matches Ok(plan) && plan.flags == cat_flags(read.letters)
                && text::texts(plan.paths@) == operands::or_stdin(read.operands),
            Err(letter) => r matches Err(failure) && failure@ == (FailureView {
                message: builtins::unsupported_text("cat"@, builtins::letter_option(letter)),
                code: 1,
            }),
        },
{
    match flags::split_letters(args, "nbsET") {
        Err(letter) => Err(builtins::unsupported_letter("cat", letter, 1)),
        Ok(read) => {
            let flags = CatFlags {
                number: flags::holds(&read.letters, 'n'),
                number_nonblank: flags::holds(&read.letters, 'b'),
                squeeze: flags::holds(&read.letters, 's'),
                show_ends: flags::holds(&read.letters, 'E'),
                show_tabs: flags::holds(&read.letters, 'T'),
            };
            Ok(CatPlan { flags, paths: operands::operands_or_stdin(&read.operands) })
        },
    }
}

pub open spec fn ends_line(line: Seq<u8>) -> bool {
    line.len() > 0 && line.last() == 10
}

pub open spec fn content(line: Seq<u8>) -> Seq<u8> {
    if ends_line(line) {
        line.drop_last()
    } else {
        line
    }
}

/// Bytes with `^I` for each of the first `n` tabs.
pub open spec fn visible_tabs(b: Seq<u8>, n: int) -> Seq<u8>
    decreases n,
{
    if n <= 0 {
        seq![]
    } else if b[n - 1] == 9 {
        visible_tabs(b, n - 1) + seq![94u8, 73u8]
    } else {
        visible_tabs(b, n - 1).push(b[n - 1])
    }
}

pub open spec fn is_numbered(flags: CatFlags, blank: bool) -> bool {
    if flags.number_nonblank {
        !blank
    } else {
        flags.number
    }
}

/// A line number as it stands before a line.
pub open spec fn number_prefix(line: nat) -> Seq<u8> {
    encode_utf8(text::pad_left(text::decimal_text(line), 6)).push(9)
}

/// The content of a line as it is printed.
pub open spec fn shown_body(body: Seq<u8>, flags: CatFlags) -> Seq<u8> {
    if flags.show_tabs {
        visible_tabs(body, body.len() as int)
    } else {
        body
    }
}

/// The end of a line as it is printed: a line without a newline gets no mark.
pub open spec fn shown_ending(line: Seq<u8>, flags: CatFlags) -> Seq<u8> {
    if !ends_line(line) {
        seq![]
    } else if flags.show_ends {
        seq![36u8, 10u8]
    } else {
        seq![10u8]
    }
}

/// The number behind a line number; the counter starts over behind its last number.
pub open spec fn next_number(line: u64) -> u64 {
    if line == u64::MAX {
        0
    } else {
        (line + 1) as u64
    }
}

/// The state behind what is printed.
pub open spec fn state_after(
    flags: CatFlags,
    state: CatState,
    blank: bool,
    mid_line: bool,
) -> CatState {
    CatState {
        line: if is_numbered(flags, blank) && !state.mid_line {
            next_number(state.line)
        } else {
            state.line
        },
        prev_blank: blank,
        mid_line,
    }
}

/// What `cat` prints for a line, or for what goes on with one, and the state after it.
pub open spec fn cat_line(line: Seq<u8>, flags: CatFlags, state: CatState) -> (Seq<u8>, CatState) {
    let body = content(line);
    let blank = ends_line(line) && body.len() == 0 && !state.mid_line;
    if flags.squeeze && blank && state.prev_blank {
        (seq![], state)
    } else {
        let numbered = is_numbered(flags, blank) && !state.mid_line;
        let next = state_after(flags, state, blank, !ends_line(line));
        let prefix = if numbered {
            number_prefix(next.line as nat)
        } else {
            seq![]
        };
        (prefix + shown_body(body, flags) + shown_ending(line, flags), next)
    }
}

/// What `cat` prints for the first `n` lines, and the state after them.
pub open spec fn cat_lines(
    lines: Seq<Seq<u8>>,
    n: int,
    flags: CatFlags,
    state: CatState,
) -> (Seq<u8>, CatState)
    decreases n,
{
    if n <= 0 {
        (seq![], state)
    } else {
        let (out, before) = cat_lines(lines, n - 1, flags, state);
        let (more, after) = cat_line(lines[n - 1], flags, before);
        (out + more, after)
    }
}

fn push_body(body: &[u8], flags: &CatFlags, out: &mut Vec<u8>)
    ensures
        final(out)@ == old(out)@ + shown_body(body@, *flags),
{
    let ghost start = out@;
    if !flags.show_tabs {
        bytes::extend(out, body);
        return;
    }
    let mut i: usize = 0;
    proof {
        assert(start + visible_tabs(body@, 0) =~= start);
    }
    while i < body.len()
        invariant
            i <= body@.len(),
            out@ == start + visible_tabs(body@, i as int),
        decreases body@.len() - i,
    {
        if body[i] == 9 {
            out.push(94);
            out.push(73);
        } else {
            out.push(body[i]);
        }
        proof {
            assert(out@ =~= start + visible_tabs(body@, i + 1));
        }
        i = i + 1;
    }
}

fn push_number(line: u64, out: &mut Vec<u8>)
    ensures
        final(out)@ == old(out)@ + number_prefix(line as nat),
{
    let ghost start = out@;
    let number = text::decimal(line);
    let padded = text::padded(number.as_str(), 6);
    bytes::extend(out, padded.as_str().as_bytes());
    out.push(9);
    proof {
        assert(out@ =~= start + number_prefix(line as nat));
    }
}

fn transform_line(line: &Vec<u8>, flags: &CatFlags, state: &mut CatState, out: &mut Vec<u8>)
    ensures
        ({
            let (more, after) = cat_line(line@, *flags, *old(state));
            final(out)@ == old(out)@ + more && *final(state) == after
        }),
{
    let ghost start = out@;
    let ghost before = *state;
    let had_newline = line.len() > 0 && line[line.len() - 1] == 10;
    let end: usize = if had_newline {
        line.len() - 1
    } else {
        line.len()
    };
    let body = bytes::slice(line.as_slice(), 0, end);
    proof {
        assert(body@ =~= content(line@));
    }
    let blank = had_newline && end == 0 && !state.mid_line;
    if flags.squeeze && blank && state.prev_blank {
        proof {
            assert(start + seq![] =~= start);
        }
        return;
    }
    let numbered = !state.mid_line && if flags.number_nonblank {
        !blank
    } else {
        flags.number
    };
    let next: u64 = if !numbered {
        state.line
    } else if state.line == u64::MAX {
        0
    } else {
        state.line + 1
    };
    *state = CatState { line: next, prev_blank: blank, mid_line: !had_newline };
    proof {
        assert(*state == state_after(*flags, before, blank, !ends_line(line@)));
    }
    let ghost prefix: Seq<u8> = if numbered {
        number_prefix(next as nat)
    } else {
        seq![]
    };
    if numbered {
        push_number(next, out);
    }
    proof {
        assert(out@ =~= start + prefix);
    }
    push_body(body, flags, out);
    if had_newline {
        if flags.show_ends {
            out.push(36);
        }
        out.push(10);
    }
    proof {
        assert(out@ =~= start + (prefix + shown_body(body@, *flags) + shown_ending(line@, *flags)));
    }
}

/// Appends what `cat` prints for a piece of input.
pub fn cat_transform(data: &[u8], flags: &CatFlags, state: &mut CatState, out: &mut Vec<u8>)
    ensures
        ({
            let (more, after) = cat_bytes(data@, *flags, *old(state));
            final(out)@ == old(out)@ + more && *final(state) == after
        }),
{
    let ghost all = lines::lines_of(data@);
    let ghost start = out@;
    let ghost first = *state;
    let pieces = lines::lines_with_endings(data);
    proof {
        assert(pieces@.len() == all.len());
        assert(start + seq![] =~= start);
    }
    let mut i: usize = 0;
    while i < pieces.len()
        invariant
            i <= pieces@.len(),
            all == lines::byte_lines(pieces@),
            out@ == start + cat_lines(all, i as int, *flags, first).0,
            *state == cat_lines(all, i as int, *flags, first).1,
        decreases pieces@.len() - i,
    {
        let ghost before = out@;
        proof {
            assert(all[i as int] == pieces@[i as int]@);
        }
        transform_line(&pieces[i], flags, state, out);
        proof {
            let (printed, st) = cat_lines(all, i as int, *flags, first);
            let (more, after) = cat_line(all[i as int], *flags, st);
            assert(out@ =~= start + (printed + more));
        }
        i = i + 1;
    }
}

proof fn lemma_plain_lines(all: Seq<Seq<u8>>, n: int, flags: CatFlags, state: CatState)
    requires
        flags.is_plain(),
        0 <= n <= all.len(),
    ensures
        cat_lines(all, n, flags, state).0 + lines::concatenated(all.skip(n))
            == lines::concatenated(all),
    decreases n,
{
    if n == 0 {
        assert(all.skip(0) =~= all);
        assert(cat_lines(all, 0, flags, state).0 + lines::concatenated(all)
            =~= lines::concatenated(all));
    } else {
        lemma_plain_lines(all, n - 1, flags, state);
        let before = cat_lines(all, n - 1, flags, state);
        let line = all[n - 1];
        let more = cat_line(line, flags, before.1).0;
        assert(more =~= line);
        assert(all.skip(n - 1)[0] == line);
        assert(all.skip(n - 1).skip(1) =~= all.skip(n));
        assert(before.0 + (line + lines::concatenated(all.skip(n))) =~= (before.0 + more)
            + lines::concatenated(all.skip(n)));
    }
}

/// Without options `cat` prints its input as it is.
pub proof fn law_plain_cat_changes_nothing(data: Seq<u8>, flags: CatFlags, state: CatState)
    requires
        flags.is_plain(),
    ensures
        cat_lines(
            lines::lines_of(data),
            lines::lines_of(data).len() as int,
            flags,
            state,
        ).0 == data,
{
    let all = lines::lines_of(data);
    lemma_plain_lines(all, all.len() as int, flags, state);
    lines::law_lines_make_up_the_input(data);
    let nothing = all.skip(all.len() as int);
    assert(nothing.len() == 0);
    assert(lines::concatenated(nothing) =~= seq![]);
    let out = cat_lines(all, all.len() as int, flags, state).0;
    assert(out + lines::concatenated(nothing) =~= out);
}

proof fn lemma_lines_in_turn(
    x: Seq<Seq<u8>>,
    y: Seq<Seq<u8>>,
    n: int,
    flags: CatFlags,
    state: CatState,
)
    requires
        0 <= n <= y.len(),
    ensures
        ({
            let (first, between) = cat_lines(x, x.len() as int, flags, state);
            let (second, after) = cat_lines(y, n, flags, between);
            cat_lines(x + y, x.len() + n, flags, state) == (first + second, after)
        }),
    decreases n,
{
    let (first, between) = cat_lines(x, x.len() as int, flags, state);
    if n == 0 {
        lemma_first_lines(x, y, x.len() as int, flags, state);
        assert(first + seq![] =~= first);
    } else {
        lemma_lines_in_turn(x, y, n - 1, flags, state);
        let (second, before) = cat_lines(y, n - 1, flags, between);
        assert((x + y)[x.len() + n - 1] == y[n - 1]);
        let more = cat_line(y[n - 1], flags, before).0;
        assert((first + second) + more =~= first + (second + more));
    }
}

proof fn lemma_first_lines(
    x: Seq<Seq<u8>>,
    y: Seq<Seq<u8>>,
    n: int,
    flags: CatFlags,
    state: CatState,
)
    requires
        0 <= n <= x.len(),
    ensures
        cat_lines(x + y, n, flags, state) == cat_lines(x, n, flags, state),
    decreases n,
{
    if n > 0 {
        lemma_first_lines(x, y, n - 1, flags, state);
        assert((x + y)[n - 1] == x[n - 1]);
    }
}

proof fn lemma_visible_tabs(x: Seq<u8>, y: Seq<u8>, n: int)
    requires
        0 <= n <= y.len(),
    ensures
        visible_tabs(x + y, x.len() + n) == visible_tabs(x, x.len() as int) + visible_tabs(y, n),
    decreases n,
{
    let front = visible_tabs(x, x.len() as int);
    if n == 0 {
        lemma_visible_prefix(x, y, x.len() as int);
        assert(front + seq![] =~= front);
    } else {
        lemma_visible_tabs(x, y, n - 1);
        assert((x + y)[x.len() + n - 1] == y[n - 1]);
        assert(visible_tabs(x + y, x.len() + n) =~= front + visible_tabs(y, n));
    }
}

proof fn lemma_visible_prefix(x: Seq<u8>, y: Seq<u8>, n: int)
    requires
        0 <= n <= x.len(),
    ensures
        visible_tabs(x + y, n) == visible_tabs(x, n),
    decreases n,
{
    if n > 0 {
        lemma_visible_prefix(x, y, n - 1);
        assert((x + y)[n - 1] == x[n - 1]);
    }
}

/// A line that comes in two pieces is printed as the line is.
proof fn lemma_pieces_of_a_line(x: Seq<u8>, y: Seq<u8>, flags: CatFlags, state: CatState)
    requires
        x.len() > 0,
        !ends_line(x),
        y.len() > 0,
    ensures
        ({
            let (first, between) = cat_line(x, flags, state);
            let (second, after) = cat_line(y, flags, between);
            cat_line(x + y, flags, state) == (first + second, after)
        }),
{
    let (first, between) = cat_line(x, flags, state);
    let (second, after) = cat_line(y, flags, between);
    let both = x + y;
    assert(both.last() == y.last());
    assert(content(both) =~= x + content(y));
    lemma_visible_tabs(x, content(y), content(y).len() as int);
    assert(shown_body(content(both), flags) =~= shown_body(x, flags) + shown_body(
        content(y),
        flags,
    ));
    assert(cat_line(both, flags, state).0 =~= first + second);
}

/// What `cat` prints for a piece of input, and the state after it.
pub open spec fn cat_bytes(data: Seq<u8>, flags: CatFlags, state: CatState) -> (Seq<u8>, CatState) {
    cat_lines(lines::lines_of(data), lines::lines_of(data).len() as int, flags, state)
}

/// The first line, then the rest.
proof fn lemma_line_then_rest(line: Seq<u8>, rest: Seq<Seq<u8>>, flags: CatFlags, state: CatState)
    ensures
        ({
            let (first, between) = cat_line(line, flags, state);
            let (second, after) = cat_lines(rest, rest.len() as int, flags, between);
            cat_lines(seq![line] + rest, rest.len() as int + 1, flags, state) == (
            first + second,
            after,
            )
        }),
{
    let one = seq![line];
    lemma_lines_in_turn(one, rest, rest.len() as int, flags, state);
    assert(cat_lines(one, 0, flags, state) == (Seq::<u8>::empty(), state));
    let (first, between) = cat_line(line, flags, state);
    assert(Seq::<u8>::empty() + first =~= first);
    assert(cat_lines(one, 1, flags, state) == (first, between));
}

/// A piece that has a line which ends at `end`.
proof fn lemma_first_line(data: Seq<u8>, more: Seq<u8>, flags: CatFlags, state: CatState)
    requires
        lines::newline_from(data, 0) < data.len(),
    ensures
        ({
            let end = lines::newline_from(data, 0);
            let (first, between) = cat_line(data.take(end + 1), flags, state);
            let (second, after) = cat_bytes(data.skip(end + 1) + more, flags, between);
            cat_bytes(data + more, flags, state) == (first + second, after)
        }),
{
    lines::law_whole_lines_do_not_depend_on_what_follows(data, more);
    let end = lines::newline_from(data, 0);
    let rest = lines::lines_of(data.skip(end + 1) + more);
    lemma_line_then_rest(data.take(end + 1), rest, flags, state);
}

/// `cat` on two inputs prints what it prints for both joined, and ends in the same state: numbers,
/// blank lines and a line that has not ended carry over.
pub proof fn law_cat_goes_on_across_inputs(
    a: Seq<u8>,
    b: Seq<u8>,
    flags: CatFlags,
    state: CatState,
)
    ensures
        ({
            let (first, between) = cat_bytes(a, flags, state);
            let (second, after) = cat_bytes(b, flags, between);
            cat_bytes(a + b, flags, state) == (first + second, after)
        }),
    decreases a.len(),
{
    let (first, between) = cat_bytes(a, flags, state);
    let (second, after) = cat_bytes(b, flags, between);
    lines::lemma_newline_from(a, 0);
    let end = lines::newline_from(a, 0);
    if a.len() == 0 {
        assert(a + b =~= b);
        assert(first + second =~= second);
    } else if end < a.len() {
        let rest = a.skip(end + 1);
        let (line, next) = cat_line(a.take(end + 1), flags, state);
        lemma_first_line(a, b, flags, state);
        lemma_first_line(a, seq![], flags, state);
        assert(a + seq![] =~= a);
        assert(rest + seq![] =~= rest);
        law_cat_goes_on_across_inputs(rest, b, flags, next);
        let part = cat_bytes(rest, flags, next).0;
        assert(line + (part + second) =~= (line + part) + second);
    } else if b.len() == 0 {
        assert(a + b =~= a);
        assert(first + second =~= first);
    } else {
        lemma_unended_line(a, b, flags, state);
    }
}

/// What has no newline is one line that has not ended.
proof fn lemma_no_newline(data: Seq<u8>, flags: CatFlags, state: CatState)
    requires
        data.len() > 0,
        lines::newline_from(data, 0) >= data.len(),
    ensures
        cat_bytes(data, flags, state) == cat_line(data, flags, state),
        !ends_line(data),
{
    let none: Seq<Seq<u8>> = seq![];
    lines::lemma_newline_from(data, 0);
    assert(data.skip(0) =~= data);
    assert(lines::lines_of(data) =~= seq![data] + none);
    lemma_line_then_rest(data, none, flags, state);
    let (first, between) = cat_line(data, flags, state);
    assert(cat_lines(none, 0, flags, between) == (Seq::<u8>::empty(), between));
    assert(first + Seq::<u8>::empty() =~= first);
}

proof fn lemma_unended_line(a: Seq<u8>, b: Seq<u8>, flags: CatFlags, state: CatState)
    requires
        a.len() > 0,
        lines::newline_from(a, 0) >= a.len(),
        b.len() > 0,
    ensures
        ({
            let (first, between) = cat_bytes(a, flags, state);
            let (second, after) = cat_bytes(b, flags, between);
            cat_bytes(a + b, flags, state) == (first + second, after)
        }),
{
    lines::lemma_newline_from(a, 0);
    lines::lemma_newline_from(b, 0);
    lemma_no_newline(a, flags, state);
    lemma_newline_behind(a, b, 0);
    let between = cat_line(a, flags, state).1;
    if lines::newline_from(b, 0) < b.len() {
        lemma_line_goes_on(a, b, flags, state);
    } else {
        lemma_no_newline(b, flags, between);
        lemma_no_newline(a + b, flags, state);
        lemma_pieces_of_a_line(a, b, flags, state);
    }
}

proof fn lemma_line_goes_on(a: Seq<u8>, b: Seq<u8>, flags: CatFlags, state: CatState)
    requires
        a.len() > 0,
        !ends_line(a),
        lines::newline_from(b, 0) < b.len(),
        lines::newline_from(a + b, 0) == a.len() + lines::newline_from(b, 0),
    ensures
        ({
            let (first, between) = cat_line(a, flags, state);
            let (second, after) = cat_bytes(b, flags, between);
            cat_bytes(a + b, flags, state) == (first + second, after)
        }),
{
    let none: Seq<u8> = seq![];
    let all = a + b;
    let end = lines::newline_from(b, 0);
    lines::lemma_newline_from(b, 0);
    let line = b.take(end + 1);
    let rest = b.skip(end + 1);
    let (x, between) = cat_line(a, flags, state);
    let (y, next) = cat_line(line, flags, between);
    let z = cat_bytes(rest, flags, next).0;
    lemma_pieces_of_a_line(a, line, flags, state);
    assert(b + none =~= b && rest + none =~= rest && all + none =~= all);
    assert(all.take(a.len() + end + 1) =~= a + line);
    assert(all.skip(a.len() + end + 1) =~= rest);
    lemma_first_line(b, none, flags, between);
    lemma_first_line(all, none, flags, state);
    assert((x + y) + z =~= x + (y + z));
}

proof fn lemma_newline_behind(a: Seq<u8>, b: Seq<u8>, i: int)
    requires
        0 <= i <= a.len(),
        forall|k: int| i <= k < a.len() ==> a[k] != 10,
    ensures
        lines::newline_from(a + b, i) == a.len() + lines::newline_from(b, 0),
    decreases a.len() - i,
{
    if i < a.len() {
        assert((a + b)[i] == a[i]);
        lemma_newline_behind(a, b, i + 1);
    } else {
        lines::lemma_newline_shift(a + b, i, 0);
        assert((a + b).skip(i) =~= b);
    }
}

/// Each letter of `cat` switches on what it stands for and nothing else, wherever it stands.
pub proof fn law_cat_letters_add_up(a: Seq<char>, b: Seq<char>)
    ensures
        ({
            let x = cat_flags(a);
            let y = cat_flags(b);
            cat_flags(a + b) == (CatFlags {
                number: x.number || y.number,
                number_nonblank: x.number_nonblank || y.number_nonblank,
                squeeze: x.squeeze || y.squeeze,
                show_ends: x.show_ends || y.show_ends,
                show_tabs: x.show_tabs || y.show_tabs,
            })
        }),
        forall|c: char|
            #[trigger] cat_flags(seq![c]) == (CatFlags {
                number: c == 'n',
                number_nonblank: c == 'b',
                squeeze: c == 's',
                show_ends: c == 'E',
                show_tabs: c == 'T',
            }),
{
    flags::lemma_contains_concat(a, b, 'n');
    flags::lemma_contains_concat(a, b, 'b');
    flags::lemma_contains_concat(a, b, 's');
    flags::lemma_contains_concat(a, b, 'E');
    flags::lemma_contains_concat(a, b, 'T');
    assert forall|c: char|
        #[trigger] cat_flags(seq![c]) == (CatFlags {
            number: c == 'n',
            number_nonblank: c == 'b',
            squeeze: c == 's',
            show_ends: c == 'E',
            show_tabs: c == 'T',
        }) by {
        flags::lemma_contains_one(c);
    }
}

/// Tabs are made visible one by one: those of two pieces are those of each, a tab is shown as
/// `^I`, and any other byte as itself.
pub proof fn law_tabs_are_made_visible(a: Seq<u8>, b: Seq<u8>)
    ensures
        visible_tabs(a + b, (a + b).len() as int) == visible_tabs(a, a.len() as int)
            + visible_tabs(b, b.len() as int),
        forall|c: u8|
            #[trigger] visible_tabs(seq![c], 1) == (if c == 0x09 {
                seq![0x5eu8, 0x49u8]
            } else {
                seq![c]
            }),
{
    lemma_tabs(a, b, b.len() as int);
    reveal_with_fuel(visible_tabs, 2);
    assert forall|c: u8|
        #[trigger] visible_tabs(seq![c], 1) == (if c == 0x09 {
            seq![0x5eu8, 0x49u8]
        } else {
            seq![c]
        }) by {
        assert(seq![c][0] == c);
        if c == 9 {
            assert(visible_tabs(seq![c], 1) =~= seq![94u8, 73u8]);
        } else {
            assert(visible_tabs(seq![c], 1) =~= seq![c]);
        }
    }
}

proof fn lemma_tabs_front(a: Seq<u8>, b: Seq<u8>, n: int)
    requires
        0 <= n <= a.len(),
    ensures
        visible_tabs(a + b, n) == visible_tabs(a, n),
    decreases n,
{
    if n > 0 {
        lemma_tabs_front(a, b, n - 1);
        assert((a + b)[n - 1] == a[n - 1]);
    }
}

proof fn lemma_tabs(a: Seq<u8>, b: Seq<u8>, n: int)
    requires
        0 <= n <= b.len(),
    ensures
        visible_tabs(a + b, a.len() + n) == visible_tabs(a, a.len() as int) + visible_tabs(b, n),
    decreases n,
{
    let front = visible_tabs(a, a.len() as int);
    if n == 0 {
        lemma_tabs_front(a, b, a.len() as int);
        assert(front + visible_tabs(b, 0) =~= front);
    } else {
        lemma_tabs(a, b, n - 1);
        assert((a + b)[a.len() + n - 1] == b[n - 1]);
        assert(visible_tabs(a + b, a.len() + n) =~= front + visible_tabs(b, n));
    }
}

/// What the options of `cat` do to a line that starts a new one, each for itself: a number in a
/// column of six and a tab stand in front of a numbered line, `$` stands in front of a newline, and
/// an empty line behind an empty line is left out where lines are squeezed. A number is the one
/// behind the last, empty lines have none where only the others are numbered, and a line that
/// goes on has none either.
pub proof fn law_options_change_lines(body: Seq<u8>, flags: CatFlags, state: CatState)
    requires
        body.len() == 0 || body.last() != 0x0a,
        state.line < u64::MAX,
    ensures
        ({
            let line = body.push(0x0a);
            let plain = CatFlags { number: false, number_nonblank: false, squeeze: false, ..flags };
            let (out, after) = cat_line(line, flags, state);
            let (shown, _) = cat_line(line, plain, state);
            let left_out = flags.squeeze && body.len() == 0 && !state.mid_line && state.prev_blank;
            let numbered = !state.mid_line && (if flags.number_nonblank {
                body.len() > 0
            } else {
                flags.number
            });
            &&& left_out ==> out.len() == 0 && after == state
            &&& !left_out && numbered ==> after.line == state.line + 1 && out == encode_utf8(
                text::pad_left(text::decimal_text((state.line + 1) as nat), 6),
            ).push(0x09) + shown
            &&& !left_out && !numbered ==> after.line == state.line && out == shown
            &&& !left_out ==> !after.mid_line && (after.prev_blank <==> body.len() == 0
                && !state.mid_line)
            &&& shown == (if flags.show_tabs {
                visible_tabs(body, body.len() as int)
            } else {
                body
            }) + (if flags.show_ends {
                seq![0x24u8]
            } else {
                seq![]
            }) + seq![0x0au8]
        }),
{
    let line = body.push(0x0a);
    assert(line.drop_last() =~= body);
    let plain = CatFlags { number: false, number_nonblank: false, squeeze: false, ..flags };
    let (out, after) = cat_line(line, flags, state);
    let (shown, _) = cat_line(line, plain, state);
    let told = shown_body(body, flags) + shown_ending(line, flags);
    assert(shown =~= told);
    if flags.show_ends {
        assert(seq![0x24u8] + seq![0x0au8] =~= seq![36u8, 10u8]);
        assert(told =~= shown_body(body, flags) + seq![0x24u8] + seq![0x0au8]);
    } else {
        assert(told =~= shown_body(body, flags) + Seq::<u8>::empty() + seq![0x0au8]);
    }
    let left_out = flags.squeeze && body.len() == 0 && !state.mid_line && state.prev_blank;
    if !left_out {
        let numbered = is_numbered(flags, body.len() == 0 && !state.mid_line) && !state.mid_line;
        if numbered {
            let prefix = number_prefix(after.line as nat);
            assert(out =~= prefix + shown);
        } else {
            assert(out =~= shown);
        }
    }
}

} // verus!
