//! Lines: of byte strings, of texts, and of input that arrives in chunks.

use vstd::prelude::*;
use vstd::utf8::*;

use crate::bytes;
use crate::path;
use crate::text;

verus! {

/// The longest line that a line-oriented command buffers.
pub const MAX_STREAM_LINE_BYTES: usize = 1048576;

/// The index of the first newline from `i` on, or the length.
pub open spec fn newline_from(b: Seq<u8>, i: int) -> int
    decreases b.len() - i,
{
    if 0 <= i < b.len() && b[i] != 10 {
        newline_from(b, i + 1)
    } else {
        i
    }
}

pub proof fn lemma_newline_from(b: Seq<u8>, i: int)
    requires
        0 <= i <= b.len(),
    ensures
        i <= newline_from(b, i) <= b.len(),
        newline_from(b, i) < b.len() ==> b[newline_from(b, i)] == 10,
        forall|k: int| i <= k < newline_from(b, i) ==> b[k] != 10,
    decreases b.len() - i,
{
    if i < b.len() && b[i] != 10 {
        lemma_newline_from(b, i + 1);
    }
}

/// The lines from index `i` on, each with its newline; the last may lack one.
pub open spec fn lines_from(b: Seq<u8>, i: int) -> Seq<Seq<u8>>
    decreases b.len() - i,
{
    if i < 0 || i >= b.len() {
        seq![]
    } else {
        let end = newline_from(b, i);
        proof {
            lemma_newline_from(b, i);
        }
        if end < b.len() {
            seq![b.subrange(i, end + 1)] + lines_from(b, end + 1)
        } else {
            seq![b.skip(i)]
        }
    }
}

/// The lines of a byte string, each with its newline; the last may lack one.
pub open spec fn lines_of(b: Seq<u8>) -> Seq<Seq<u8>> {
    lines_from(b, 0)
}

pub open spec fn byte_lines(v: Seq<Vec<u8>>) -> Seq<Seq<u8>> {
    v.map_values(|line: Vec<u8>| line@)
}

/// The first index from `from` on that holds a newline, or the length.
pub fn find_newline(data: &[u8], from: usize) -> (r: usize)
    requires
        from <= data@.len(),
    ensures
        r == newline_from(data@, from as int),
        from <= r <= data@.len(),
{
    let mut i: usize = from;
    while i < data.len() && data[i] != 10
        invariant
            from <= i <= data@.len(),
            newline_from(data@, i as int) == newline_from(data@, from as int),
        decreases data@.len() - i,
    {
        i = i + 1;
    }
    i
}

/// The lines of a byte string, each with its newline; the last may lack one.
pub fn lines_with_endings(input: &[u8]) -> (r: Vec<Vec<u8>>)
    ensures
        byte_lines(r@) == lines_of(input@),
{
    let mut lines: Vec<Vec<u8>> = Vec::new();
    let mut start: usize = 0;
    proof {
        assert(byte_lines(lines@) =~= seq![]);
        assert(byte_lines(lines@) + lines_from(input@, 0) =~= lines_of(input@));
    }
    while start < input.len()
        invariant
            start <= input@.len(),
            byte_lines(lines@) + lines_from(input@, start as int) == lines_of(input@),
        decreases input@.len() - start,
    {
        let end = find_newline(input, start);
        let stop: usize = if end < input.len() {
            end + 1
        } else {
            end
        };
        let line = bytes::copy(bytes::slice(input, start, stop));
        let ghost before = lines@;
        lines.push(line);
        proof {
            assert(byte_lines(lines@) =~= byte_lines(before).push(line@));
            if end >= input@.len() {
                assert(line@ =~= input@.skip(start as int));
                assert(lines_from(input@, stop as int) =~= seq![]);
            }
            assert(byte_lines(before) + (seq![line@] + lines_from(input@, stop as int))
                =~= byte_lines(lines@) + lines_from(input@, stop as int));
            assert(seq![line@] + lines_from(input@, stop as int) =~= lines_from(
                input@,
                start as int,
            ));
        }
        start = stop;
    }
    proof {
        assert(byte_lines(lines@) + lines_from(input@, start as int) =~= byte_lines(lines@));
    }
    lines
}

/// There are no more lines than bytes.
/// The bytes of lines put together.
pub open spec fn concatenated(lines: Seq<Seq<u8>>) -> Seq<u8>
    decreases lines.len(),
{
    if lines.len() == 0 {
        seq![]
    } else {
        lines[0] + concatenated(lines.skip(1))
    }
}

proof fn lemma_lines_concatenate(b: Seq<u8>, i: int)
    requires
        0 <= i <= b.len(),
    ensures
        concatenated(lines_from(b, i)) == b.skip(i),
    decreases b.len() - i,
{
    if i < b.len() {
        lemma_newline_from(b, i);
        let end = newline_from(b, i);
        let all = lines_from(b, i);
        if end < b.len() {
            lemma_lines_concatenate(b, end + 1);
            assert(all.skip(1) =~= lines_from(b, end + 1));
            assert(b.subrange(i, end + 1) + b.skip(end + 1) =~= b.skip(i));
        } else {
            assert(all.skip(1) =~= seq![]);
            assert(concatenated(all.skip(1)) =~= seq![]);
            assert(b.skip(i) + seq![] =~= b.skip(i));
        }
    } else {
        assert(b.skip(i) =~= seq![]);
    }
}

/// Cutting an input into lines loses nothing: the lines put together are the input.
pub proof fn law_lines_make_up_the_input(b: Seq<u8>)
    ensures
        concatenated(lines_of(b)) == b,
{
    lemma_lines_concatenate(b, 0);
    assert(b.skip(0) =~= b);
}

proof fn lemma_newline_in_prefix(a: Seq<u8>, rest: Seq<u8>, i: int)
    requires
        0 <= i <= a.len(),
        newline_from(a, i) < a.len(),
    ensures
        newline_from(a + rest, i) == newline_from(a, i),
    decreases a.len() - i,
{
    if i < a.len() && a[i] != 10 {
        lemma_newline_in_prefix(a, rest, i + 1);
    }
}

pub proof fn lemma_newline_shift(b: Seq<u8>, k: int, i: int)
    requires
        0 <= k <= b.len(),
        0 <= i <= b.len() - k,
    ensures
        newline_from(b.skip(k), i) + k == newline_from(b, i + k),
    decreases b.len() - k - i,
{
    if i < b.len() - k && b[i + k] != 10 {
        lemma_newline_shift(b, k, i + 1);
    }
}

proof fn lemma_lines_shift(b: Seq<u8>, k: int, i: int)
    requires
        0 <= k <= b.len(),
        0 <= i <= b.len() - k,
    ensures
        lines_from(b.skip(k), i) == lines_from(b, i + k),
    decreases b.len() - k - i,
{
    let tail = b.skip(k);
    if i < tail.len() {
        lemma_newline_shift(b, k, i);
        lemma_newline_from(tail, i);
        let end = newline_from(tail, i);
        if end < tail.len() {
            lemma_lines_shift(b, k, end + 1);
            assert(tail.subrange(i, end + 1) =~= b.subrange(i + k, end + k + 1));
        } else {
            assert(tail.skip(i) =~= b.skip(i + k));
        }
    }
}

/// A line that has arrived whole is the first line of the input, whatever arrives behind it: it
/// does not matter how the input is cut into chunks.
pub proof fn law_whole_lines_do_not_depend_on_what_follows(pending: Seq<u8>, rest: Seq<u8>)
    requires
        newline_from(pending, 0) < pending.len(),
    ensures
        ({
            let end = newline_from(pending, 0);
            lines_of(pending + rest) == seq![pending.take(end + 1)] + lines_of(
                pending.skip(end + 1) + rest,
            )
        }),
{
    lemma_newline_from(pending, 0);
    lemma_newline_in_prefix(pending, rest, 0);
    let end = newline_from(pending, 0);
    let all = pending + rest;
    assert(all.subrange(0, end + 1) =~= pending.take(end + 1));
    lemma_lines_shift(all, end + 1, 0);
    assert(all.skip(end + 1) =~= pending.skip(end + 1) + rest);
}

proof fn lemma_newline_before_end(a: Seq<u8>, i: int)
    requires
        0 <= i < a.len(),
        a.last() == 10,
    ensures
        newline_from(a, i) < a.len(),
    decreases a.len() - i,
{
    if a[i] != 10 {
        lemma_newline_before_end(a, i + 1);
    }
}

proof fn lemma_lines_behind_whole_lines(a: Seq<u8>, b: Seq<u8>, i: int)
    requires
        0 <= i <= a.len(),
        a.len() > 0 ==> a.last() == 10,
    ensures
        lines_from(a + b, i) == lines_from(a, i) + lines_of(b),
    decreases a.len() - i,
{
    let all = a + b;
    if i == a.len() {
        lemma_lines_shift(all, i, 0);
        assert(all.skip(i) =~= b);
        assert(lines_from(a, i) + lines_of(b) =~= lines_of(b));
    } else {
        lemma_newline_before_end(a, i);
        lemma_newline_from(a, i);
        lemma_newline_in_prefix(a, b, i);
        let end = newline_from(a, i);
        lemma_lines_behind_whole_lines(a, b, end + 1);
        assert(all.subrange(i, end + 1) =~= a.subrange(i, end + 1));
        assert(lines_from(all, i) =~= lines_from(a, i) + lines_of(b));
    }
}

/// Whole lines put before an input come before its lines.
pub proof fn law_whole_lines_come_first(a: Seq<u8>, b: Seq<u8>)
    requires
        a.len() > 0 ==> a.last() == 10,
    ensures
        lines_of(a + b) == lines_of(a) + lines_of(b),
{
    lemma_lines_behind_whole_lines(a, b, 0);
}

/// What a line reader answers when it is asked for a line.
#[derive(Debug, PartialEq, Eq)]
pub enum NextLine {
    /// A line, with its newline unless it is the last and lacks one.
    Line(Vec<u8>),
    /// More input is needed.
    More,
    /// There are no more lines.
    End,
    /// A line exceeds what is buffered of one.
    TooLong,
}

/// Cuts input that arrives in chunks into lines.
#[derive(Debug)]
pub struct LineReader {
    pub pending: Vec<u8>,
    pub eof: bool,
}

pub open spec fn has_newline(b: Seq<u8>) -> bool {
    newline_from(b, 0) < b.len()
}

impl LineReader {
    pub fn new() -> (r: Self)
        ensures
            r.pending@ == Seq::<u8>::empty(),
            !r.eof,
    {
        LineReader { pending: Vec::new(), eof: false }
    }

    /// Takes the next line, if it has arrived.
    pub fn next_line(&mut self) -> (r: NextLine)
        ensures
            final(self).eof == old(self).eof,
            ({
                let pending = old(self).pending@;
                let end = newline_from(pending, 0);
                if has_newline(pending) {
                    if end + 1 > MAX_STREAM_LINE_BYTES {
                        r is TooLong && final(self).pending@ == pending
                    } else {
                        r matches NextLine::Line(line) && line@ == pending.take(end + 1) && final(self).pending@ == pending.skip(end + 1)
                    }
                } else if pending.len() > MAX_STREAM_LINE_BYTES {
                    r is TooLong && final(self).pending@ == pending
                } else if !old(self).eof {
                    r is More && final(self).pending@ == pending
                } else if pending.len() == 0 {
                    r is End && final(self).pending@ == pending
                } else {
                    r matches NextLine::Line(line) && line@ == pending && final(self).pending@
                        == Seq::<u8>::empty()
                }
            }),
    {
        let end = find_newline(self.pending.as_slice(), 0);
        if end < self.pending.len() {
            if end >= MAX_STREAM_LINE_BYTES {
                return NextLine::TooLong;
            }
            let mut rest = self.pending.split_off(end + 1);
            std::mem::swap(&mut rest, &mut self.pending);
            proof {
                assert(rest@ =~= old(self).pending@.take(end + 1));
                assert(self.pending@ =~= old(self).pending@.skip(end + 1));
            }
            return NextLine::Line(rest);
        }
        if self.pending.len() > MAX_STREAM_LINE_BYTES {
            return NextLine::TooLong;
        }
        if !self.eof {
            return NextLine::More;
        }
        if self.pending.len() == 0 {
            return NextLine::End;
        }
        let mut line: Vec<u8> = Vec::new();
        std::mem::swap(&mut line, &mut self.pending);
        NextLine::Line(line)
    }

    /// Takes a chunk of input; an empty one says that there is no more. The result says whether
    /// the line that is being read still fits.
    pub fn feed(&mut self, chunk: &[u8]) -> (r: bool)
        ensures
            ({
                let pending = old(self).pending@;
                let end = newline_from(chunk@, 0);
                if chunk@.len() == 0 {
                    r && final(self).eof && final(self).pending@ == pending
                } else {
                    let grown = pending.len() + if has_newline(chunk@) {
                        end + 1
                    } else {
                        chunk@.len() as int
                    };
                    &&& final(self).eof == old(self).eof
                    &&& r == (grown <= MAX_STREAM_LINE_BYTES)
                    &&& final(self).pending@ == if r {
                        pending + chunk@
                    } else {
                        pending
                    }
                }
            }),
    {
        if chunk.len() == 0 {
            self.eof = true;
            return true;
        }
        let end = find_newline(chunk, 0);
        let added: usize = if end < chunk.len() {
            end + 1
        } else {
            chunk.len()
        };
        if self.pending.len() > MAX_STREAM_LINE_BYTES || added > MAX_STREAM_LINE_BYTES
            - self.pending.len() {
            return false;
        }
        bytes::extend(&mut self.pending, chunk);
        true
    }
}

/// The text that bytes hold, with a replacement character where they are not UTF-8.
pub uninterp spec fn lossy_text(b: Seq<u8>) -> Seq<char>;

/// Reads bytes as text with `String::from_utf8_lossy`. The text is a function of the bytes, and
/// it is the decoded text where the bytes are valid UTF-8; which replacement characters stand
/// for invalid bytes is left unsaid.
#[verifier::external_body]
pub(crate) fn decode_lossy(b: &[u8]) -> (r: String)
    ensures
        r@ == lossy_text(b@),
        valid_utf8(b@) ==> r@ == decode_utf8(b@),
{
    String::from_utf8_lossy(b).into_owned()
}

pub open spec fn without_suffix(s: Seq<char>, c: char) -> Seq<char> {
    if s.len() > 0 && s.last() == c {
        s.drop_last()
    } else {
        s
    }
}

/// A line without its ending: a newline, then a carriage return.
pub open spec fn line_body(s: Seq<char>) -> Seq<char> {
    without_suffix(without_suffix(s, '\n'), '\r')
}

/// A line without its ending.
pub fn strip_line_ending(line: &str) -> (r: String)
    ensures
        r@ == line_body(line@),
{
    let chars = text::to_chars(line);
    let mut end: usize = chars.len();
    if end > 0 && chars[end - 1] == '\n' {
        end = end - 1;
    }
    proof {
        assert(chars@.take(end as int) =~= without_suffix(line@, '\n'));
    }
    if end > 0 && chars[end - 1] == '\r' {
        end = end - 1;
    }
    let r = text::from_range(&chars, 0, end);
    proof {
        assert(r@ =~= line_body(line@));
    }
    r
}

/// The text of a line, without its ending.
pub fn line_text_lossy(line: &[u8]) -> (r: String)
    ensures
        r@ == line_body(lossy_text(line@)),
        valid_utf8(line@) ==> r@ == line_body(decode_utf8(line@)),
{
    let decoded = decode_lossy(line);
    strip_line_ending(decoded.as_str())
}

/// The lines of a text from index `i` on, without their endings; a carriage return counts as
/// part of the ending only before a newline.
pub open spec fn text_lines_from(s: Seq<char>, i: int) -> Seq<Seq<char>>
    decreases s.len() - i,
{
    if i < 0 || i >= s.len() {
        seq![]
    } else {
        let end = text::find_from(s, '\n', i);
        proof {
            text::lemma_find_from(s, '\n', i);
        }
        if end < s.len() {
            seq![without_suffix(s.subrange(i, end), '\r')] + text_lines_from(s, end + 1)
        } else {
            seq![s.skip(i)]
        }
    }
}

/// The lines of a text, without their endings.
pub fn text_lines(input: &str) -> (r: Vec<String>)
    ensures
        text::texts(r@) == text_lines_from(input@, 0),
{
    let chars = text::to_chars(input);
    let mut lines: Vec<String> = Vec::new();
    let mut start: usize = 0;
    proof {
        assert(text::texts(lines@) =~= seq![]);
        assert(text::texts(lines@) + text_lines_from(input@, 0) =~= text_lines_from(input@, 0));
    }
    while start < chars.len()
        invariant
            chars@ == input@,
            start <= chars@.len(),
            text::texts(lines@) + text_lines_from(input@, start as int) == text_lines_from(
                input@,
                0,
            ),
        decreases chars@.len() - start,
    {
        let mut end: usize = start;
        while end < chars.len() && chars[end] != '\n'
            invariant
                chars@ == input@,
                start <= end <= chars@.len(),
                text::find_from(input@, '\n', end as int) == text::find_from(
                    input@,
                    '\n',
                    start as int,
                ),
            decreases chars@.len() - end,
        {
            end = end + 1;
        }
        let mut stop: usize = end;
        let mut next: usize = end;
        if end < chars.len() {
            next = end + 1;
            if stop > start && chars[stop - 1] == '\r' {
                stop = stop - 1;
            }
        }
        let line = text::from_range(&chars, start, stop);
        let ghost before = lines@;
        lines.push(line);
        proof {
            assert(text::texts(lines@) =~= text::texts(before).push(line@));
            if end < input@.len() {
                assert(line@ =~= without_suffix(input@.subrange(start as int, end as int), '\r'));
            } else {
                assert(line@ =~= input@.skip(start as int));
                assert(text_lines_from(input@, next as int) =~= seq![]);
            }
            assert(text_lines_from(input@, start as int) =~= seq![line@] + text_lines_from(
                input@,
                next as int,
            ));
            assert(text::texts(before) + (seq![line@] + text_lines_from(input@, next as int))
                =~= text::texts(lines@) + text_lines_from(input@, next as int));
        }
        start = next;
    }
    proof {
        assert(text::texts(lines@) + text_lines_from(input@, start as int) =~= text::texts(
            lines@,
        ));
    }
    lines
}

/// The lines of an input, as text without their endings.
pub fn text_lines_lossy(input: &[u8]) -> (r: Vec<String>)
    ensures
        text::texts(r@) == text_lines_from(lossy_text(input@), 0),
        valid_utf8(input@) ==> text::texts(r@) == text_lines_from(decode_utf8(input@), 0),
{
    let decoded = decode_lossy(input);
    text_lines(decoded.as_str())
}

/// A line loses its ending and nothing else: a newline, a carriage return, or both.
pub proof fn law_lines_lose_their_endings(body: Seq<char>)
    requires
        body.len() == 0 || (body.last() != '\n' && body.last() != '\r'),
    ensures
        line_body(body) == body,
        line_body(body + seq!['\n']) == body,
        line_body(body + seq!['\r']) == body,
        line_body(body + seq!['\r', '\n']) == body,
        line_body(body + seq!['\n', '\r']) == body + seq!['\n'],
{
    assert((body + seq!['\n']).drop_last() =~= body);
    assert((body + seq!['\r']).drop_last() =~= body);
    assert((body + seq!['\r', '\n']).drop_last() =~= body + seq!['\r']);
    assert((body + seq!['\n', '\r']).drop_last() =~= body + seq!['\n']);
}

/// A text has a line for each newline, and one for what stands behind the last: the first line is
/// what stands before the first newline, without a carriage return there.
pub proof fn law_newlines_end_lines(a: Seq<char>, b: Seq<char>)
    requires
        !a.contains('\n'),
    ensures
        a.len() == 0 || a.last() != '\r' ==> text_lines_from(a + seq!['\n'] + b, 0) == seq![a]
            + text_lines_from(b, 0),
        text_lines_from(a + seq!['\r', '\n'] + b, 0) == seq![a] + text_lines_from(b, 0),
        a.len() > 0 ==> text_lines_from(a, 0) == seq![a],
        text_lines_from(seq![], 0).len() == 0,
{
    let z = a + seq!['\n'] + b;
    lemma_first_line(a, b);
    let longer = a + seq!['\r'];
    assert(!longer.contains('\n')) by {
        if longer.contains('\n') {
            let i = longer.index_of('\n');
            if i < a.len() {
                assert(a[i] == '\n');
            }
        }
    }
    lemma_first_line(longer, b);
    assert(longer + seq!['\n'] + b =~= a + seq!['\r', '\n'] + b);
    assert(longer.drop_last() =~= a);
    if a.len() > 0 {
        text::lemma_find_from(a, '\n', 0);
        let end = text::find_from(a, '\n', 0);
        if end < a.len() {
            assert(a.contains(a[end]));
        }
        assert(a.skip(0) =~= a);
    }
}

proof fn lemma_first_line(a: Seq<char>, b: Seq<char>)
    requires
        !a.contains('\n'),
    ensures
        text_lines_from(a + seq!['\n'] + b, 0) == seq![without_suffix(a, '\r')] + text_lines_from(
            b,
            0,
        ),
{
    let z = a + seq!['\n'] + b;
    let n = a.len() as int;
    text::lemma_find_from(z, '\n', 0);
    let end = text::find_from(z, '\n', 0);
    assert(z[n] == '\n');
    assert(end == n) by {
        if end < n {
            assert(a[end] == z[end]);
            assert(a.contains(a[end]));
        }
    }
    assert(z.subrange(0, n) =~= a);
    lemma_text_lines_behind(b, z, n + 1, 0);
}

proof fn lemma_text_lines_behind(b: Seq<char>, z: Seq<char>, k: int, j: int)
    requires
        0 <= k,
        0 <= j <= b.len(),
        z.len() == k + b.len(),
        forall|x: int| 0 <= x < b.len() ==> #[trigger] b[x] == z[k + x],
    ensures
        text_lines_from(z, k + j) == text_lines_from(b, j),
    decreases b.len() - j,
{
    if j < b.len() {
        path::lemma_find_shifted(b, z, '\n', k, j);
        text::lemma_find_from(b, '\n', j);
        let end = text::find_from(b, '\n', j);
        if end < b.len() {
            assert(z.subrange(k + j, k + end) =~= b.subrange(j, end));
            lemma_text_lines_behind(b, z, k, end + 1);
        } else {
            assert(z.skip(k + j) =~= b.skip(j));
        }
    }
}

} // verus!
