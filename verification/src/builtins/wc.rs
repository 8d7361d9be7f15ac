//! `wc`: lines, words and bytes.

use vstd::prelude::*;

use crate::builtins;
use crate::builtins::flags;
use crate::builtins::operands;
use crate::builtins::{Failure, FailureView};
use crate::text;

verus! {

/// How many lines, words and bytes an input has.
#[derive(Debug, Clone, Copy, PartialEq, Eq, Structural)]
pub struct Counts {
    pub lines: usize,
    pub words: usize,
    pub bytes: usize,
}

/// White space between words, as in the C locale.
pub open spec fn separates(b: u8) -> bool {
    b == 32 || 9 <= b <= 13
}

/// The number of newlines.
pub open spec fn line_count(b: Seq<u8>) -> nat
    decreases b.len(),
{
    if b.len() == 0 {
        0
    } else {
        line_count(b.drop_last()) + if b.last() == 10 {
            1nat
        } else {
            0nat
        }
    }
}

/// Whether a word goes on behind a byte string.
pub open spec fn in_word(b: Seq<u8>) -> bool {
    b.len() > 0 && !separates(b.last())
}

/// The number of places at which a word starts.
pub open spec fn word_count(b: Seq<u8>) -> nat
    decreases b.len(),
{
    if b.len() == 0 {
        0
    } else {
        word_count(b.drop_last()) + if !separates(b.last()) && !in_word(b.drop_last()) {
            1nat
        } else {
            0nat
        }
    }
}

pub open spec fn counts_of(b: Seq<u8>) -> Counts {
    Counts {
        lines: line_count(b) as usize,
        words: word_count(b) as usize,
        bytes: b.len() as usize,
    }
}

proof fn lemma_counts_bound(b: Seq<u8>)
    ensures
        line_count(b) <= b.len(),
        word_count(b) <= b.len(),
    decreases b.len(),
{
    if b.len() > 0 {
        lemma_counts_bound(b.drop_last());
    }
}

/// Counts input that arrives in chunks.
pub struct Counter {
    counts: Counts,
    in_word: bool,
    seen: Ghost<Seq<u8>>,
}

impl Counter {
    #[verifier::type_invariant]
    spec fn inv(&self) -> bool {
        &&& self.seen@.len() <= usize::MAX
        &&& self.counts == counts_of(self.seen@)
        &&& self.in_word == in_word(self.seen@)
    }

    /// All the input so far.
    pub closed spec fn seen(&self) -> Seq<u8> {
        self.seen@
    }

    pub fn new() -> (r: Self)
        ensures
            r.seen() == Seq::<u8>::empty(),
    {
        Counter {
            counts: Counts { lines: 0, words: 0, bytes: 0 },
            in_word: false,
            seen: Ghost(Seq::<u8>::empty()),
        }
    }

    /// Counts a chunk of input. How the input is cut into chunks does not matter.
    pub fn feed(&mut self, chunk: &[u8])
        requires
            old(self).seen().len() + chunk@.len() <= usize::MAX,
        ensures
            final(self).seen() == old(self).seen() + chunk@,
    {
        proof {
            use_type_invariant(&*self);
        }
        let ghost before = self.seen@;
        let mut counts: Counts = self.counts;
        let mut inside: bool = self.in_word;
        let mut i: usize = 0;
        let ghost mut all = before;
        proof {
            assert(before + chunk@.take(0) =~= before);
        }
        while i < chunk.len()
            invariant
                i <= chunk@.len(),
                before.len() + chunk@.len() <= usize::MAX,
                all == before + chunk@.take(i as int),
                counts == counts_of(all),
                inside == in_word(all),
            decreases chunk@.len() - i,
        {
            let byte: u8 = chunk[i];
            let ghost next = all.push(byte);
            proof {
                lemma_counts_bound(all);
                lemma_counts_bound(next);
                assert(next.drop_last() =~= all);
                assert(before + chunk@.take(i + 1) =~= next);
            }
            counts.bytes = counts.bytes + 1;
            if byte == 10 {
                counts.lines = counts.lines + 1;
            }
            if byte == 32 || (9 <= byte && byte <= 13) {
                inside = false;
            } else if !inside {
                counts.words = counts.words + 1;
                inside = true;
            }
            proof {
                all = next;
            }
            i = i + 1;
        }
        proof {
            assert(chunk@.take(i as int) =~= chunk@);
        }
        *self = Counter { counts, in_word: inside, seen: Ghost(all) };
    }

    /// What has been counted.
    pub fn counts(&self) -> (r: Counts)
        ensures
            r == counts_of(self.seen()),
            r.bytes == self.seen().len(),
    {
        proof {
            use_type_invariant(self);
        }
        self.counts
    }
}

/// Which counts are printed.
#[derive(Debug, Clone, Copy, PartialEq, Eq, Structural)]
pub struct WcShow {
    pub lines: bool,
    pub words: bool,
    pub bytes: bool,
}

/// What `wc` is asked to do.
pub struct WcPlan {
    pub show: WcShow,
    pub files: Vec<String>,
}

/// The counts asked for, or all of them.
pub open spec fn wc_show(letters: Seq<char>) -> WcShow {
    if letters.len() == 0 {
        WcShow { lines: true, words: true, bytes: true }
    } else {
        WcShow {
            lines: letters.contains('l'),
            words: letters.contains('w'),
            bytes: letters.contains('c'),
        }
    }
}

proof fn lemma_some_letter(args: Seq<Seq<char>>, n: int, allowed: Seq<char>)
    requires
        0 <= n <= args.len(),
    ensures
        flags::scan(args, n, allowed) matches Ok(read) ==> forall|i: int|
            0 <= i < read.letters.len() ==> allowed.contains(#[trigger] read.letters[i]),
    decreases n,
{
    if n > 0 {
        lemma_some_letter(args, n - 1, allowed);
        let arg = args[n - 1];
        lemma_no_outside(arg, 1, allowed);
        match flags::scan(args, n - 1, allowed) {
            Err(_) => {},
            Ok(read) => {
                if builtins::is_option(arg) && flags::first_outside(arg, 1, allowed) is None {
                    let all = read.letters + arg.skip(1);
                    assert forall|i: int| 0 <= i < all.len() implies allowed.contains(
                        #[trigger] all[i],
                    ) by {
                        if i >= read.letters.len() {
                            assert(all[i] == arg[i - read.letters.len() + 1]);
                        } else {
                            assert(all[i] == read.letters[i]);
                        }
                    }
                }
            },
        }
    }
}

proof fn lemma_no_outside(s: Seq<char>, i: int, allowed: Seq<char>)
    requires
        0 <= i,
    ensures
        flags::first_outside(s, i, allowed) is None ==> forall|k: int|
            i <= k < s.len() ==> allowed.contains(#[trigger] s[k]),
    decreases s.len() - i,
{
    if i < s.len() && allowed.contains(s[i]) {
        lemma_no_outside(s, i + 1, allowed);
    }
}

/// Reads the arguments of `wc`.
pub fn parse_wc_args(args: &Vec<String>) -> (r: Result<WcPlan, Failure>)
    ensures
        match flags::scanned(text::texts(args@), "lwc"@) {
            Ok(read) => r matches Ok(plan) && plan.show == wc_show(read.letters) && text::texts(
                plan.files@,
            ) == read.operands,
            Err(letter) => r matches Err(failure) && failure@ == (FailureView {
                message: builtins::unsupported_text("wc"@, builtins::letter_option(letter)),
                code: 1,
            }),
        },
{
    match flags::split_letters(args, "lwc") {
        Err(letter) => Err(builtins::unsupported_letter("wc", letter, 1)),
        Ok(read) => {
            let lines = flags::holds(&read.letters, 'l');
            let words = flags::holds(&read.letters, 'w');
            let bytes = flags::holds(&read.letters, 'c');
            proof {
                reveal_strlit("lwc");
                let all = text::texts(args@);
                lemma_some_letter(all, all.len() as int, "lwc"@);
                if read.letters@.len() > 0 {
                    let first = read@.letters[0];
                    assert("lwc"@.contains(first));
                    assert(first == 'l' || first == 'w' || first == 'c');
                    assert(read.letters@.contains(first));
                }
            }
            let show = if !lines && !words && !bytes {
                WcShow { lines: true, words: true, bytes: true }
            } else {
                WcShow { lines, words, bytes }
            };
            Ok(WcPlan { show, files: read.operands })
        },
    }
}

/// The counts that are printed, in their order.
pub open spec fn selected(counts: Counts, show: WcShow) -> Seq<usize> {
    (if show.lines {
        seq![counts.lines]
    } else {
        seq![]
    }) + (if show.words {
        seq![counts.words]
    } else {
        seq![]
    }) + (if show.bytes {
        seq![counts.bytes]
    } else {
        seq![]
    })
}

pub fn selected_counts(counts: Counts, show: WcShow) -> (r: Vec<usize>)
    ensures
        r@ == selected(counts, show),
{
    let mut values: Vec<usize> = Vec::new();
    if show.lines {
        values.push(counts.lines);
    }
    if show.words {
        values.push(counts.words);
    }
    if show.bytes {
        values.push(counts.bytes);
    }
    proof {
        assert(values@ =~= selected(counts, show));
    }
    values
}

/// The number of digits of a number.
pub fn decimal_width(value: usize) -> (r: usize)
    ensures
        r == text::decimal_text(value as nat).len(),
{
    let digits = text::decimal(value as u64);
    let chars = text::to_chars(digits.as_str());
    chars.len()
}

/// The first `n` numbers, each padded to the width, with a space between them.
pub open spec fn padded_numbers(values: Seq<usize>, n: int, width: nat) -> Seq<char>
    decreases n,
{
    if n <= 0 {
        seq![]
    } else {
        let number = text::pad_left(text::decimal_text(values[n - 1] as nat), width);
        if n == 1 {
            number
        } else {
            padded_numbers(values, n - 1, width) + seq![' '] + number
        }
    }
}

/// A line of counts, with the name of what was counted where it has one.
pub open spec fn counts_text(counts: Counts, name: Option<Seq<char>>, show: WcShow, width: nat) -> Seq<
    char,
> {
    let values = selected(counts, show);
    let numbers = padded_numbers(values, values.len() as int, width);
    (match name {
        Some(name) => numbers + seq![' '] + name,
        None => numbers,
    }).push('\n')
}

/// Formats a line of counts.
pub fn format_counts(counts: Counts, name: Option<&String>, show: WcShow, width: usize) -> (r:
    String)
    ensures
        r@ == counts_text(
            counts,
            match name {
                Some(name) => Some(name@),
                None => None,
            },
            show,
            width as nat,
        ),
{
    let values = selected_counts(counts, show);
    let mut out = String::new();
    let mut i: usize = 0;
    proof {
        assert(out@ =~= seq![]);
    }
    while i < values.len()
        invariant
            i <= values@.len(),
            out@ == padded_numbers(values@, i as int, width as nat),
        decreases values@.len() - i,
    {
        let ghost before = out@;
        if i > 0 {
            out.push(' ');
        }
        let number = text::decimal(values[i] as u64);
        let padded = text::padded(number.as_str(), width);
        out.append(padded.as_str());
        proof {
            if i > 0 {
                assert(out@ =~= before + seq![' '] + padded@);
            } else {
                assert(out@ =~= padded@);
            }
        }
        i = i + 1;
    }
    match name {
        Some(name) => {
            let ghost before = out@;
            out.push(' ');
            out.append(name.as_str());
            proof {
                assert(out@ =~= before + seq![' '] + name@);
            }
        },
        None => {},
    }
    out.push('\n');
    out
}

/// The width for the counts of the standard input alone.
pub const STDIN_WIDTH: usize = 7;

pub open spec fn wider(a: nat, b: nat) -> nat {
    if a < b {
        b
    } else {
        a
    }
}

/// The width of the widest of the first `n` numbers, at least `least`.
pub open spec fn widest(values: Seq<usize>, n: int, least: nat) -> nat
    decreases n,
{
    if n <= 0 {
        least
    } else {
        wider(widest(values, n - 1, least), text::decimal_text(values[n - 1] as nat).len())
    }
}

/// The width of the widest count that is printed for the first `n` rows.
pub open spec fn rows_width(rows: Seq<Counts>, n: int, show: WcShow) -> nat
    decreases n,
{
    if n <= 0 {
        1
    } else {
        let values = selected(rows[n - 1], show);
        widest(values, values.len() as int, rows_width(rows, n - 1, show))
    }
}

/// The sum of the first `n` rows.
pub open spec fn total_of(rows: Seq<Counts>, n: int) -> (int, int, int)
    decreases n,
{
    if n <= 0 {
        (0, 0, 0)
    } else {
        let (lines, words, bytes) = total_of(rows, n - 1);
        (lines + rows[n - 1].lines, words + rows[n - 1].words, bytes + rows[n - 1].bytes)
    }
}

pub open spec fn fits(total: (int, int, int)) -> bool {
    total.0 <= usize::MAX && total.1 <= usize::MAX && total.2 <= usize::MAX
}

pub open spec fn total_counts(rows: Seq<Counts>) -> Counts {
    let total = total_of(rows, rows.len() as int);
    Counts { lines: total.0 as usize, words: total.1 as usize, bytes: total.2 as usize }
}

/// The rows that are printed: those of the files, and their total where several were asked for.
pub open spec fn printed_rows(rows: Seq<Counts>, several: bool) -> Seq<Counts> {
    if several {
        rows.push(total_counts(rows))
    } else {
        rows
    }
}

pub open spec fn printed_names(names: Seq<Seq<char>>, several: bool) -> Seq<Seq<char>> {
    if several {
        names.push("total"@)
    } else {
        names
    }
}

/// The first `n` rows, printed with a width.
pub open spec fn rows_text(
    rows: Seq<Counts>,
    names: Seq<Seq<char>>,
    n: int,
    show: WcShow,
    width: nat,
) -> Seq<char>
    decreases n,
{
    if n <= 0 {
        seq![]
    } else {
        rows_text(rows, names, n - 1, show, width) + counts_text(
            rows[n - 1],
            Some(names[n - 1]),
            show,
            width,
        )
    }
}

/// What `wc` prints for the files that it has read.
pub open spec fn report_text(
    rows: Seq<Counts>,
    names: Seq<Seq<char>>,
    several: bool,
    show: WcShow,
) -> Seq<char> {
    let all = printed_rows(rows, several);
    rows_text(
        all,
        printed_names(names, several),
        all.len() as int,
        show,
        rows_width(all, all.len() as int, show),
    )
}

proof fn lemma_total_grows(rows: Seq<Counts>, n: int, m: int)
    requires
        0 <= n <= m,
    ensures
        0 <= total_of(rows, n).0 <= total_of(rows, m).0,
        0 <= total_of(rows, n).1 <= total_of(rows, m).1,
        0 <= total_of(rows, n).2 <= total_of(rows, m).2,
    decreases m,
{
    if n < m {
        lemma_total_grows(rows, n, m - 1);
    } else if n > 0 {
        lemma_total_grows(rows, n - 1, m - 1);
    }
}

/// Prints the counts of files, and their total where several were asked for.
pub fn wc_report(rows: &Vec<Counts>, names: &Vec<String>, several: bool, show: WcShow) -> (r: String)
    requires
        rows@.len() == names@.len(),
        fits(total_of(rows@, rows@.len() as int)),
    ensures
        r@ == report_text(rows@, text::texts(names@), several, show),
{
    let mut all: Vec<Counts> = Vec::new();
    let mut all_names: Vec<String> = Vec::new();
    let mut total = Counts { lines: 0, words: 0, bytes: 0 };
    let mut i: usize = 0;
    proof {
        assert(all@ =~= rows@.take(0));
        assert(text::texts(all_names@) =~= text::texts(names@).take(0));
    }
    while i < rows.len()
        invariant
            i <= rows@.len(),
            rows@.len() == names@.len(),
            fits(total_of(rows@, rows@.len() as int)),
            all@ == rows@.take(i as int),
            text::texts(all_names@) == text::texts(names@).take(i as int),
            (total.lines as int, total.words as int, total.bytes as int) == total_of(
                rows@,
                i as int,
            ),
        decreases rows@.len() - i,
    {
        let row: Counts = rows[i];
        proof {
            lemma_total_grows(rows@, i + 1, rows@.len() as int);
        }
        total.lines = total.lines + row.lines;
        total.words = total.words + row.words;
        total.bytes = total.bytes + row.bytes;
        let ghost before = all_names@;
        all.push(row);
        all_names.push(names[i].clone());
        proof {
            assert(all@ =~= rows@.take(i + 1));
            assert(text::texts(all_names@) =~= text::texts(before).push(names@[i as int]@));
            assert(text::texts(all_names@) =~= text::texts(names@).take(i + 1));
        }
        i = i + 1;
    }
    proof {
        assert(rows@.take(i as int) =~= rows@);
        assert(text::texts(names@).take(i as int) =~= text::texts(names@));
    }
    if several {
        let ghost before = all_names@;
        all.push(total);
        let label = text::copy("total");
        all_names.push(label);
        proof {
            assert(text::texts(all_names@) =~= text::texts(before).push("total"@));
        }
    }
    let ghost view = printed_rows(rows@, several);
    let ghost view_names = printed_names(text::texts(names@), several);
    let mut width: usize = 1;
    let mut i: usize = 0;
    while i < all.len()
        invariant
            i <= all@.len(),
            all@ == view,
            width == rows_width(view, i as int, show),
        decreases all@.len() - i,
    {
        let values = selected_counts(all[i], show);
        let ghost least = width as nat;
        let mut k: usize = 0;
        while k < values.len()
            invariant
                k <= values@.len(),
                width == widest(values@, k as int, least),
            decreases values@.len() - k,
        {
            let digits = decimal_width(values[k]);
            if width < digits {
                width = digits;
            }
            k = k + 1;
        }
        i = i + 1;
    }
    let mut out = String::new();
    let mut i: usize = 0;
    proof {
        assert(out@ =~= seq![]);
        assert(all_names@.len() == text::texts(all_names@).len());
    }
    while i < all.len()
        invariant
            i <= all@.len(),
            all@ == view,
            all_names@.len() == all@.len(),
            text::texts(all_names@) == view_names,
            out@ == rows_text(view, view_names, i as int, show, width as nat),
        decreases all@.len() - i,
    {
        let line = format_counts(all[i], Some(&all_names[i]), show, width);
        proof {
            assert(view_names[i as int] == all_names@[i as int]@);
        }
        out.append(line.as_str());
        i = i + 1;
    }
    out
}

impl WcPlan {
    /// What is read, in order.
    pub fn operands(&self) -> (r: Vec<String>)
        ensures
            text::texts(r@) == operands::or_stdin(text::texts(self.files@)),
    {
        operands::operands_or_stdin(&self.files)
    }

    /// What `wc` prints, from the counts of the operands that it could read, in order. The counts
    /// of the standard input alone have no name.
    pub fn report(&self, rows: &Vec<Counts>, names: &Vec<String>) -> (r: String)
        requires
            rows@.len() == names@.len(),
            self.files@.len() == 0 ==> rows@.len() <= 1,
            fits(total_of(rows@, rows@.len() as int)),
        ensures
            r@ == (if self.files@.len() > 0 {
                report_text(rows@, text::texts(names@), self.files@.len() > 1, self.show)
            } else if rows@.len() == 1 {
                counts_text(rows@[0], None, self.show, STDIN_WIDTH as nat)
            } else {
                seq![]
            }),
    {
        if self.files.len() > 0 {
            return wc_report(rows, names, self.files.len() > 1, self.show);
        }
        if rows.len() == 1 {
            format_counts(rows[0], None, self.show, STDIN_WIDTH)
        } else {
            let empty = String::new();
            proof {
                assert(empty@ =~= seq![]);
            }
            empty
        }
    }
}

/// Counting goes on across pieces: the newlines of two pieces add up, and so do the words, but
/// for one that goes on from the first piece into the second.
pub proof fn law_counts_add_up(a: Seq<u8>, b: Seq<u8>)
    ensures
        line_count(a + b) == line_count(a) + line_count(b),
        word_count(a + b) == word_count(a) + word_count(b) - (if a.len() > 0 && b.len() > 0
            && !white(a.last()) && !white(b[0]) {
            1int
        } else {
            0int
        }),
{
    lemma_counts(a, b, b.len() as int);
    assert(b.take(b.len() as int) =~= b);
}

/// What stands between words: a space, a tab, a newline, and what `isspace` takes besides.
pub open spec fn white(b: u8) -> bool {
    b == 0x20 || b == 0x09 || b == 0x0a || b == 0x0b || b == 0x0c || b == 0x0d
}

proof fn lemma_counts(a: Seq<u8>, b: Seq<u8>, n: int)
    requires
        0 <= n <= b.len(),
    ensures
        line_count(a + b.take(n)) == line_count(a) + line_count(b.take(n)),
        word_count(a + b.take(n)) == word_count(a) + word_count(b.take(n)) - (if a.len() > 0 && n
            > 0 && !white(a.last()) && !white(b[0]) {
            1int
        } else {
            0int
        }),
    decreases n,
{
    if n == 0 {
        assert(a + b.take(0) =~= a);
        assert(b.take(0) =~= Seq::<u8>::empty());
    } else {
        lemma_counts(a, b, n - 1);
        let all = a + b.take(n);
        assert(all.drop_last() =~= a + b.take(n - 1));
        assert(b.take(n).drop_last() =~= b.take(n - 1));
        assert(all.last() == b[n - 1]);
        if n > 1 {
            assert((a + b.take(n - 1)).last() == b.take(n - 1).last());
        } else {
            assert(a + b.take(0) =~= a);
        }
    }
}

/// White space holds no word; bytes without any are one word.
pub proof fn law_words_are_unbroken(b: Seq<u8>)
    ensures
        (forall|i: int| 0 <= i < b.len() ==> white(#[trigger] b[i])) ==> word_count(b) == 0,
        b.len() > 0 && (forall|i: int| 0 <= i < b.len() ==> !white(#[trigger] b[i])) ==> word_count(
            b,
        ) == 1,
        (forall|i: int| 0 <= i < b.len() ==> #[trigger] b[i] != 0x0a) ==> line_count(b) == 0,
        line_count(seq![0x0au8]) == 1,
    decreases b.len(),
{
    reveal_with_fuel(line_count, 2);
    if b.len() > 0 {
        law_words_are_unbroken(b.drop_last());
    }
}

/// Each letter asks for its count, and no letter asks for all of them; the newlines come first,
/// then the words, then the bytes.
pub proof fn law_counts_are_shown_in_order(counts: Counts, letters: Seq<char>)
    ensures
        letters.len() == 0 ==> selected(counts, wc_show(letters)) == seq![
            counts.lines,
            counts.words,
            counts.bytes,
        ],
        letters.len() > 0 ==> selected(counts, wc_show(letters)) == seq![
            counts.lines,
            counts.words,
            counts.bytes,
        ].take(
            if letters.contains('l') {
                1
            } else {
                0
            },
        ) + seq![counts.words].take(
            if letters.contains('w') {
                1
            } else {
                0
            },
        ) + seq![counts.bytes].take(
            if letters.contains('c') {
                1
            } else {
                0
            },
        ),
{
    let show = wc_show(letters);
    if letters.len() == 0 {
        assert(selected(counts, show) =~= seq![counts.lines, counts.words, counts.bytes]);
    } else {
        let l = seq![counts.lines, counts.words, counts.bytes];
        assert(l.take(1) =~= seq![counts.lines]);
        assert(l.take(0) =~= Seq::<usize>::empty());
        assert(seq![counts.words].take(1) =~= seq![counts.words]);
        assert(seq![counts.words].take(0) =~= Seq::<usize>::empty());
        assert(seq![counts.bytes].take(1) =~= seq![counts.bytes]);
        assert(seq![counts.bytes].take(0) =~= Seq::<usize>::empty());
    }
}

/// The total of two rows of files is the sum of their totals, and that of one file is its counts.
pub proof fn law_totals_are_sums(a: Seq<Counts>, b: Seq<Counts>)
    ensures
        ({
            let x = total_of(a, a.len() as int);
            let y = total_of(b, b.len() as int);
            total_of(a + b, (a + b).len() as int) == (x.0 + y.0, x.1 + y.1, x.2 + y.2)
        }),
        a.len() == 0 ==> total_of(a, a.len() as int) == (0int, 0int, 0int),
        a.len() == 1 ==> total_of(a, a.len() as int) == (
            a[0].lines as int,
            a[0].words as int,
            a[0].bytes as int,
        ),
{
    lemma_totals(a, b, b.len() as int);
    reveal_with_fuel(total_of, 2);
}

proof fn lemma_totals_front(a: Seq<Counts>, b: Seq<Counts>, n: int)
    requires
        0 <= n <= a.len(),
    ensures
        total_of(a + b, n) == total_of(a, n),
    decreases n,
{
    if n > 0 {
        lemma_totals_front(a, b, n - 1);
        assert((a + b)[n - 1] == a[n - 1]);
    }
}

proof fn lemma_totals(a: Seq<Counts>, b: Seq<Counts>, n: int)
    requires
        0 <= n <= b.len(),
    ensures
        ({
            let x = total_of(a, a.len() as int);
            let y = total_of(b, n);
            total_of(a + b, a.len() + n) == (x.0 + y.0, x.1 + y.1, x.2 + y.2)
        }),
    decreases n,
{
    if n == 0 {
        lemma_totals_front(a, b, a.len() as int);
    } else {
        lemma_totals(a, b, n - 1);
        assert((a + b)[a.len() + n - 1] == b[n - 1]);
    }
}

/// The columns are as wide as the widest number in them: no printed number is wider, and one is as
/// wide, or the width is one.
pub proof fn law_columns_are_as_wide_as_needed(rows: Seq<Counts>, show: WcShow)
    ensures
        forall|i: int, k: int|
            0 <= i < rows.len() && 0 <= k < selected(rows[i], show).len() ==> text::decimal_text(
                (#[trigger] selected(rows[i], show)[k]) as nat,
            ).len() <= rows_width(rows, rows.len() as int, show),
        rows_width(rows, rows.len() as int, show) == 1 || exists|i: int, k: int|
            0 <= i < rows.len() && 0 <= k < selected(rows[i], show).len() && text::decimal_text(
                (#[trigger] selected(rows[i], show)[k]) as nat,
            ).len() == rows_width(rows, rows.len() as int, show),
{
    lemma_rows_width(rows, rows.len() as int, show);
}

proof fn lemma_widest(values: Seq<usize>, n: int, least: nat)
    requires
        0 <= n <= values.len(),
    ensures
        least <= widest(values, n, least),
        forall|k: int|
            0 <= k < n ==> text::decimal_text(#[trigger] values[k] as nat).len() <= widest(
                values,
                n,
                least,
            ),
        widest(values, n, least) == least || exists|k: int|
            0 <= k < n && text::decimal_text(#[trigger] values[k] as nat).len() == widest(
                values,
                n,
                least,
            ),
    decreases n,
{
    if n > 0 {
        lemma_widest(values, n - 1, least);
        let own = text::decimal_text(values[n - 1] as nat).len();
        let before = widest(values, n - 1, least);
        if before >= own && before != least {
            let k = choose|k: int|
                0 <= k < n - 1 && text::decimal_text(#[trigger] values[k] as nat).len() == before;
            assert(text::decimal_text(values[k] as nat).len() == widest(values, n, least));
        }
    }
}

proof fn lemma_rows_width(rows: Seq<Counts>, n: int, show: WcShow)
    requires
        0 <= n <= rows.len(),
    ensures
        forall|i: int, k: int|
            0 <= i < n && 0 <= k < selected(rows[i], show).len() ==> text::decimal_text(
                (#[trigger] selected(rows[i], show)[k]) as nat,
            ).len() <= rows_width(rows, n, show),
        rows_width(rows, n, show) == 1 || exists|i: int, k: int|
            0 <= i < n && 0 <= k < selected(rows[i], show).len() && text::decimal_text(
                (#[trigger] selected(rows[i], show)[k]) as nat,
            ).len() == rows_width(rows, n, show),
    decreases n,
{
    if n > 0 {
        lemma_rows_width(rows, n - 1, show);
        let values = selected(rows[n - 1], show);
        let before = rows_width(rows, n - 1, show);
        let width = rows_width(rows, n, show);
        lemma_widest(values, values.len() as int, before);
        assert forall|i: int, k: int|
            0 <= i < n && 0 <= k < selected(rows[i], show).len() implies text::decimal_text(
            (#[trigger] selected(rows[i], show)[k]) as nat,
        ).len() <= width by {
            if i == n - 1 {
                assert(selected(rows[i], show)[k] == values[k]);
            }
        }
        if width != 1 {
            if width == before {
                let (i, k) = choose|i: int, k: int|
                    0 <= i < n - 1 && 0 <= k < selected(rows[i], show).len() && text::decimal_text(
                        (#[trigger] selected(rows[i], show)[k]) as nat,
                    ).len() == before;
                assert(text::decimal_text(selected(rows[i], show)[k] as nat).len() == width);
            } else {
                let k = choose|k: int|
                    0 <= k < values.len() && text::decimal_text(#[trigger] values[k] as nat).len()
                        == width;
                assert(selected(rows[n - 1], show)[k] == values[k]);
            }
        }
    }
}

/// Numbers are printed one behind the other with a space between, each set to the right of its
/// column.
pub proof fn law_numbers_are_set_in_columns(a: Seq<usize>, b: Seq<usize>, width: nat)
    ensures
        a.len() > 0 && b.len() > 0 ==> padded_numbers(a + b, (a + b).len() as int, width)
            == padded_numbers(a, a.len() as int, width) + seq![' '] + padded_numbers(
            b,
            b.len() as int,
            width,
        ),
        a.len() == 1 ==> padded_numbers(a, 1, width) == text::pad_left(
            text::decimal_text(a[0] as nat),
            width,
        ),
{
    if a.len() > 0 && b.len() > 0 {
        lemma_padded(a, b, b.len() as int, width);
    }
}

proof fn lemma_padded_front(a: Seq<usize>, b: Seq<usize>, n: int, width: nat)
    requires
        0 <= n <= a.len(),
    ensures
        padded_numbers(a + b, n, width) == padded_numbers(a, n, width),
    decreases n,
{
    if n > 0 {
        lemma_padded_front(a, b, n - 1, width);
        assert((a + b)[n - 1] == a[n - 1]);
    }
}

proof fn lemma_padded(a: Seq<usize>, b: Seq<usize>, n: int, width: nat)
    requires
        a.len() > 0,
        1 <= n <= b.len(),
    ensures
        padded_numbers(a + b, a.len() + n, width) == padded_numbers(a, a.len() as int, width) + seq![
            ' ',
        ] + padded_numbers(b, n, width),
    decreases n,
{
    let front = padded_numbers(a, a.len() as int, width) + seq![' '];
    assert((a + b)[a.len() + n - 1] == b[n - 1]);
    let number = text::pad_left(text::decimal_text(b[n - 1] as nat), width);
    if n == 1 {
        lemma_padded_front(a, b, a.len() as int, width);
    } else {
        lemma_padded(a, b, n - 1, width);
        let before = padded_numbers(b, n - 1, width);
        assert((front + before) + seq![' '] + number =~= front + (before + seq![' '] + number));
    }
}

/// The rows of a report come in the order of the files, each with its name behind its numbers, and
/// with several files one row more, of their sums, which is called `total`.
pub proof fn law_reports_list_files_and_their_total(
    rows: Seq<Counts>,
    names: Seq<Seq<char>>,
    more: Seq<Counts>,
    others: Seq<Seq<char>>,
    show: WcShow,
    width: nat,
)
    requires
        rows.len() == names.len(),
        more.len() == others.len(),
    ensures
        rows_text(rows + more, names + others, (rows + more).len() as int, show, width) == rows_text(
            rows,
            names,
            rows.len() as int,
            show,
            width,
        ) + rows_text(more, others, more.len() as int, show, width),
        rows.len() == 1 ==> rows_text(rows, names, 1, show, width) == counts_text(
            rows[0],
            None,
            show,
            width,
        ).drop_last() + seq![' '] + names[0] + seq!['\n'],
        printed_rows(rows, false) == rows,
        printed_names(names, false) == names,
        printed_names(names, true) == names + seq!["total"@],
        printed_rows(rows, true).drop_last() == rows,
        fits(total_of(rows, rows.len() as int)) ==> ({
            let last = printed_rows(rows, true).last();
            total_of(rows, rows.len() as int) == (
                last.lines as int,
                last.words as int,
                last.bytes as int,
            )
        }),
{
    lemma_rows_text(rows, names, more, others, more.len() as int, show, width);
    lemma_totals_not_negative(rows, rows.len() as int);
    assert(printed_names(names, true) =~= names + seq!["total"@]);
    assert(printed_rows(rows, true).drop_last() =~= rows);
    if rows.len() == 1 {
        reveal_with_fuel(rows_text, 2);
        let numbers = counts_text(rows[0], None, show, width).drop_last();
        let values = selected(rows[0], show);
        assert(numbers =~= padded_numbers(values, values.len() as int, width));
        assert(rows_text(rows, names, 1, show, width) =~= numbers + seq![' '] + names[0] + seq![
            '\n',
        ]);
    }
}

proof fn lemma_totals_not_negative(rows: Seq<Counts>, n: int)
    requires
        0 <= n <= rows.len(),
    ensures
        total_of(rows, n).0 >= 0,
        total_of(rows, n).1 >= 0,
        total_of(rows, n).2 >= 0,
    decreases n,
{
    if n > 0 {
        lemma_totals_not_negative(rows, n - 1);
    }
}

proof fn lemma_rows_text(
    a: Seq<Counts>,
    names: Seq<Seq<char>>,
    b: Seq<Counts>,
    others: Seq<Seq<char>>,
    n: int,
    show: WcShow,
    width: nat,
)
    requires
        a.len() == names.len(),
        b.len() == others.len(),
        -a.len() <= n <= b.len(),
    ensures
        n <= 0 ==> rows_text(a + b, names + others, a.len() + n, show, width) == rows_text(
            a,
            names,
            a.len() + n,
            show,
            width,
        ),
        n >= 0 ==> rows_text(a + b, names + others, a.len() + n, show, width) == rows_text(
            a,
            names,
            a.len() as int,
            show,
            width,
        ) + rows_text(b, others, n, show, width),
    decreases a.len() + n,
{
    let front = rows_text(a, names, a.len() as int, show, width);
    if a.len() + n > 0 {
        lemma_rows_text(a, names, b, others, n - 1, show, width);
        let k = a.len() + n - 1;
        if n > 0 {
            assert((a + b)[k] == b[n - 1]);
            assert((names + others)[k] == others[n - 1]);
            let own = counts_text(b[n - 1], Some(others[n - 1]), show, width);
            assert((front + rows_text(b, others, n - 1, show, width)) + own =~= front + (rows_text(
                b,
                others,
                n - 1,
                show,
                width,
            ) + own));
        } else {
            assert((a + b)[k] == a[k]);
            assert((names + others)[k] == names[k]);
        }
    }
    if n == 0 {
        assert(front + rows_text(b, others, 0, show, width) =~= front);
    }
}

} // verus!
