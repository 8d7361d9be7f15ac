//! `echo`: its options, its escapes and what it prints.

use vstd::prelude::*;
use vstd::utf8::*;

use crate::builtins;
use crate::text;

verus! {

pub open spec fn echo_letter(c: char) -> bool {
    c == 'n' || c == 'e' || c == 'E'
}

/// Whether an argument is read as options: a dash and nothing but known letters.
pub open spec fn echo_options(arg: Seq<char>) -> bool {
    builtins::is_option(arg) && forall|i: int| 1 <= i < arg.len() ==> echo_letter(#[trigger] arg[i])
}

/// Whether a newline is printed, and whether escapes are read.
#[derive(Debug, Clone, Copy, PartialEq, Eq, Structural)]
pub struct EchoModes {
    pub newline: bool,
    pub escapes: bool,
}

pub open spec fn letter_modes(c: char, modes: EchoModes) -> EchoModes {
    if c == 'n' {
        EchoModes { newline: false, ..modes }
    } else if c == 'e' {
        EchoModes { escapes: true, ..modes }
    } else if c == 'E' {
        EchoModes { escapes: false, ..modes }
    } else {
        modes
    }
}

/// The modes after the letters before index `n`.
pub open spec fn arg_modes(arg: Seq<char>, n: int, modes: EchoModes) -> EchoModes
    decreases n,
{
    if n <= 1 {
        modes
    } else {
        letter_modes(arg[n - 1], arg_modes(arg, n - 1, modes))
    }
}

/// The modes, and the index of the first argument that is printed.
pub open spec fn echo_scan(args: Seq<Seq<char>>, i: int, modes: EchoModes) -> (EchoModes, int)
    decreases args.len() - i,
{
    if 0 <= i < args.len() && echo_options(args[i]) {
        echo_scan(args, i + 1, arg_modes(args[i], args[i].len() as int, modes))
    } else {
        (modes, i)
    }
}

/// The arguments from `from` to `to`, with a space between them.
pub open spec fn spaced(args: Seq<Seq<char>>, from: int, to: int) -> Seq<char>
    decreases to - from,
{
    if to <= from {
        seq![]
    } else if to == from + 1 {
        args[from]
    } else {
        spaced(args, from, to - 1) + seq![' '] + args[to - 1]
    }
}

/// The value of a digit in a base up to sixteen.
pub open spec fn digit_value(c: char, base: int) -> Option<int> {
    let value = if '0' <= c <= '9' {
        c as int - 48
    } else if 'a' <= c <= 'f' {
        c as int - 87
    } else if 'A' <= c <= 'F' {
        c as int - 55
    } else {
        16
    };
    if value < base {
        Some(value)
    } else {
        None
    }
}

/// Reads up to `left` digits from `i` on: the number, and the index after it.
pub open spec fn read_digits(s: Seq<char>, i: int, base: int, left: int, value: int) -> (int, int)
    decreases left,
{
    if left <= 0 || i < 0 || i >= s.len() {
        (value, i)
    } else {
        match digit_value(s[i], base) {
            None => (value, i),
            Some(d) => read_digits(s, i + 1, base, left - 1, value * base + d),
        }
    }
}

/// The character with a code, or the null character where there is none.
pub open spec fn char_or_null(code: int) -> char {
    if is_scalar(code as u32) {
        code as char
    } else {
        '\0'
    }
}

/// What an escape at `i` stands for, and the index after it; nothing where it ends the output.
pub open spec fn escape_at(s: Seq<char>, i: int) -> Option<(Seq<char>, int)> {
    if i + 1 >= s.len() {
        Some((seq!['\\'], i + 1))
    } else {
        let c = s[i + 1];
        if c == '0' {
            let (code, next) = read_digits(s, i + 2, 8, 3, 0);
            Some((seq![char_or_null(code)], next))
        } else if c == 'a' {
            Some((seq!['\u{7}'], i + 2))
        } else if c == 'n' {
            Some((seq!['\n'], i + 2))
        } else if c == 't' {
            Some((seq!['\t'], i + 2))
        } else if c == 'r' {
            Some((seq!['\r'], i + 2))
        } else if c == 'b' {
            Some((seq!['\u{8}'], i + 2))
        } else if c == 'e' || c == 'E' {
            Some((seq!['\u{1b}'], i + 2))
        } else if c == 'f' {
            Some((seq!['\u{c}'], i + 2))
        } else if c == 'v' {
            Some((seq!['\u{b}'], i + 2))
        } else if c == 'x' {
            let (code, next) = read_digits(s, i + 2, 16, 2, 0);
            if next == i + 2 {
                Some((seq!['\\', 'x'], next))
            } else {
                Some((seq![char_or_null(code)], next))
            }
        } else if c == 'u' || c == 'U' {
            let (code, next) = read_digits(
                s,
                i + 2,
                16,
                if c == 'u' {
                    4
                } else {
                    8
                },
                0,
            );
            if next == i + 2 {
                Some((seq!['\\', c], next))
            } else if is_scalar(code as u32) {
                Some((seq![code as char], next))
            } else {
                Some((seq![], next))
            }
        } else if c == '\\' {
            Some((seq!['\\'], i + 2))
        } else if c == 'c' {
            None
        } else {
            Some((seq!['\\', c], i + 2))
        }
    }
}

pub proof fn lemma_read_digits(s: Seq<char>, i: int, base: int, left: int, value: int)
    requires
        0 <= i <= s.len(),
    ensures
        i <= read_digits(s, i, base, left, value).1 <= s.len(),
    decreases left,
{
    if left > 0 && i < s.len() {
        match digit_value(s[i], base) {
            None => {},
            Some(d) => lemma_read_digits(s, i + 1, base, left - 1, value * base + d),
        }
    }
}

pub proof fn lemma_escape_advances(s: Seq<char>, i: int)
    requires
        0 <= i < s.len(),
    ensures
        escape_at(s, i) matches Some((_, next)) ==> i < next <= s.len(),
{
    if i + 2 <= s.len() {
        lemma_read_digits(s, i + 2, 8, 3, 0);
        lemma_read_digits(s, i + 2, 16, 2, 0);
        lemma_read_digits(s, i + 2, 16, 4, 0);
        lemma_read_digits(s, i + 2, 16, 8, 0);
    }
}

/// The text with its escapes read from `i` on, behind what stands before, and whether an escape
/// ended it.
pub open spec fn unescaped(s: Seq<char>, i: int, before: Seq<char>) -> (Seq<char>, bool)
    decreases s.len() - i,
{
    if i < 0 || i >= s.len() {
        (before, false)
    } else if s[i] != '\\' {
        unescaped(s, i + 1, before.push(s[i]))
    } else {
        proof {
            lemma_escape_advances(s, i);
        }
        match escape_at(s, i) {
            None => (before, true),
            Some((more, next)) => unescaped(s, next, before + more),
        }
    }
}

/// What `echo` prints.
pub open spec fn echo_text(args: Seq<Seq<char>>) -> Seq<char> {
    let (modes, first) = echo_scan(args, 0, EchoModes { newline: true, escapes: false });
    let plain = spaced(args, first, args.len() as int);
    let (out, stop) = if modes.escapes {
        unescaped(plain, 0, seq![])
    } else {
        (plain, false)
    };
    if modes.newline && !stop {
        out.push('\n')
    } else {
        out
    }
}

fn digit_in(c: char, base: u32) -> (r: Option<u32>)
    requires
        2 <= base <= 16,
    ensures
        match digit_value(c, base as int) {
            Some(d) => r == Some(d as u32) && 0 <= d < base,
            None => r is None,
        },
{
    let value: u32 = if '0' <= c && c <= '9' {
        c as u32 - 48
    } else if 'a' <= c && c <= 'f' {
        c as u32 - 87
    } else if 'A' <= c && c <= 'F' {
        c as u32 - 55
    } else {
        16
    };
    if value < base {
        Some(value)
    } else {
        None
    }
}

/// Reads up to `width` digits: the number, and the index after it.
fn digits_at(chars: &Vec<char>, from: usize, base: u32, width: u32) -> (r: (u32, usize))
    requires
        from <= chars@.len(),
        base == 8 && width <= 3 || base == 16 && width <= 8,
    ensures
        (r.0 as int, r.1 as int) == read_digits(chars@, from as int, base as int, width as int, 0),
        from <= r.1 <= chars@.len(),
{
    let mut value: u64 = 0;
    let mut i: usize = from;
    let mut consumed: u32 = 0;
    while consumed < width && i < chars.len()
        invariant
            from <= i <= chars@.len(),
            consumed <= width <= 8,
            base == 8 || base == 16,
            read_digits(
                chars@,
                i as int,
                base as int,
                width - consumed,
                value as int,
            ) == read_digits(chars@, from as int, base as int, width as int, 0),
            value < sixteen_to(consumed as int),
        decreases width - consumed,
    {
        match digit_in(chars[i], base) {
            None => {
                return (value as u32, i);
            },
            Some(d) => {
                value = value * (base as u64) + d as u64;
                i = i + 1;
                consumed = consumed + 1;
            },
        }
    }
    (value as u32, i)
}

/// The powers of sixteen up to the eighth.
spec fn sixteen_to(n: int) -> int {
    if n <= 0 {
        1
    } else if n == 1 {
        0x10
    } else if n == 2 {
        0x100
    } else if n == 3 {
        0x1000
    } else if n == 4 {
        0x1_0000
    } else if n == 5 {
        0x10_0000
    } else if n == 6 {
        0x100_0000
    } else if n == 7 {
        0x1000_0000
    } else {
        0x1_0000_0000
    }
}

fn push_char_or_null(out: &mut String, code: u32)
    ensures
        final(out)@ == old(out)@ + seq![char_or_null(code as int)],
{
    let ghost before = out@;
    match char::from_u32(code) {
        Some(c) => out.push(c),
        None => out.push('\0'),
    }
    proof {
        assert(out@ =~= before + seq![char_or_null(code as int)]);
    }
}

fn push_one(out: &mut String, c: char)
    ensures
        final(out)@ == old(out)@ + seq![c],
{
    let ghost before = out@;
    out.push(c);
    proof {
        assert(out@ =~= before + seq![c]);
    }
}

fn push_two(out: &mut String, a: char, b: char)
    ensures
        final(out)@ == old(out)@ + seq![a, b],
{
    let ghost before = out@;
    out.push(a);
    out.push(b);
    proof {
        assert(out@ =~= before + seq![a, b]);
    }
}

/// Reads the hexadecimal escape whose marker stands behind the backslash at `position`.
fn push_hex_escape(out: &mut String, chars: &Vec<char>, position: usize, width: u32, marker: char) -> (next:
    usize)
    requires
        position + 2 <= chars@.len(),
        marker == chars@[position + 1],
        marker == 'u' && width == 4 || marker == 'U' && width == 8,
    ensures
        escape_at(chars@, position as int) == Some(
            (final(out)@.skip(old(out)@.len() as int), next as int),
        ),
        old(out)@.is_prefix_of(final(out)@),
        final(out)@ == old(out)@ + final(out)@.skip(old(out)@.len() as int),
        position < next <= chars@.len(),
{
    let ghost before = out@;
    proof {
        assert(chars.len() == chars@.len());
    }
    let (code, next) = digits_at(chars, position + 2, 16, width);
    if next == position + 2 {
        push_two(out, '\\', marker);
        proof {
            assert(out@.skip(before.len() as int) =~= seq!['\\', marker]);
        }
    } else {
        match char::from_u32(code) {
            Some(c) => {
                push_one(out, c);
                proof {
                    assert(out@.skip(before.len() as int) =~= seq![c]);
                }
            },
            None => {
                proof {
                    assert(out@.skip(before.len() as int) =~= seq![]);
                }
            },
        }
    }
    proof {
        assert(out@ =~= before + out@.skip(before.len() as int));
        assert(before =~= out@.subrange(0, before.len() as int));
    }
    next
}

/// Reads the escapes of a text. The result says too whether an escape ended the output.
pub fn expand_echo_escapes(input: &str) -> (r: (String, bool))
    ensures
        (r.0@, r.1) == unescaped(input@, 0, seq![]),
{
    let chars = text::to_chars(input);
    let mut out = String::new();
    let mut i: usize = 0;
    proof {
        assert(out@ =~= seq![]);
    }
    while i < chars.len()
        invariant
            chars@ == input@,
            i <= chars@.len(),
            unescaped(input@, i as int, out@) == unescaped(input@, 0, seq![]),
        decreases chars@.len() - i,
    {
        let ch = chars[i];
        if ch != '\\' {
            out.push(ch);
            i = i + 1;
            continue;
        }
        proof {
            lemma_escape_advances(input@, i as int);
        }
        if i + 1 >= chars.len() {
            push_one(&mut out, '\\');
            i = i + 1;
            continue;
        }
        let c = chars[i + 1];
        if c == 'c' {
            return (out, true);
        }
        if c == '0' {
            let (code, next) = digits_at(&chars, i + 2, 8, 3);
            push_char_or_null(&mut out, code);
            i = next;
        } else if c == 'x' {
            let (code, next) = digits_at(&chars, i + 2, 16, 2);
            if next == i + 2 {
                push_two(&mut out, '\\', 'x');
            } else {
                push_char_or_null(&mut out, code);
            }
            i = next;
        } else if c == 'u' {
            i = push_hex_escape(&mut out, &chars, i, 4, 'u');
        } else if c == 'U' {
            i = push_hex_escape(&mut out, &chars, i, 8, 'U');
        } else {
            match c {
                'a' => push_one(&mut out, '\u{7}'),
                'n' => push_one(&mut out, '\n'),
                't' => push_one(&mut out, '\t'),
                'r' => push_one(&mut out, '\r'),
                'b' => push_one(&mut out, '\u{8}'),
                'e' => push_one(&mut out, '\u{1b}'),
                'E' => push_one(&mut out, '\u{1b}'),
                'f' => push_one(&mut out, '\u{c}'),
                'v' => push_one(&mut out, '\u{b}'),
                '\\' => push_one(&mut out, '\\'),
                other => push_two(&mut out, '\\', other),
            }
            i = i + 2;
        }
    }
    (out, false)
}

/// Whether an argument is read as options.
fn all_letters(chars: &Vec<char>) -> (r: bool)
    requires
        builtins::is_option(chars@),
    ensures
        r == echo_options(chars@),
{
    let mut i: usize = 1;
    while i < chars.len()
        invariant
            1 <= i <= chars@.len(),
            builtins::is_option(chars@),
            forall|k: int| 1 <= k < i ==> echo_letter(#[trigger] chars@[k]),
        decreases chars@.len() - i,
    {
        let c = chars[i];
        if c != 'n' && c != 'e' && c != 'E' {
            proof {
                assert(!echo_letter(chars@[i as int]));
            }
            return false;
        }
        i = i + 1;
    }
    true
}

/// What `echo` prints for its arguments.
pub fn echo_output(args: &Vec<String>) -> (r: String)
    ensures
        r@ == echo_text(text::texts(args@)),
{
    let ghost all = text::texts(args@);
    let mut newline = true;
    let mut escapes = false;
    let mut first: usize = 0;
    while first < args.len()
        invariant_except_break
            echo_scan(all, first as int, EchoModes { newline, escapes }) == echo_scan(
                all,
                0,
                EchoModes { newline: true, escapes: false },
            ),
        invariant
            first <= args@.len(),
            all == text::texts(args@),
        ensures
            echo_scan(all, 0, EchoModes { newline: true, escapes: false }) == (
                EchoModes { newline, escapes },
                first as int,
            ),
        decreases args@.len() - first,
    {
        let chars = text::to_chars(args[first].as_str());
        proof {
            assert(all[first as int] == chars@);
        }
        if chars.len() <= 1 || chars[0] != '-' || !all_letters(&chars) {
            break;
        }
        let ghost start = EchoModes { newline, escapes };
        let mut k: usize = 1;
        while k < chars.len()
            invariant
                1 <= k <= chars@.len(),
                arg_modes(chars@, k as int, start) == (EchoModes { newline, escapes }),
            decreases chars@.len() - k,
        {
            match chars[k] {
                'n' => {
                    newline = false;
                },
                'e' => {
                    escapes = true;
                },
                'E' => {
                    escapes = false;
                },
                _ => {},
            }
            k = k + 1;
        }
        first = first + 1;
    }
    let mut out = String::new();
    let mut i: usize = first;
    proof {
        assert(out@ =~= seq![]);
    }
    while i < args.len()
        invariant
            first <= i <= args@.len(),
            all == text::texts(args@),
            out@ == spaced(all, first as int, i as int),
        decreases args@.len() - i,
    {
        let ghost before = out@;
        if i > first {
            out.push(' ');
        }
        out.append(args[i].as_str());
        proof {
            assert(all[i as int] == args@[i as int]@);
            if i > first {
                assert(out@ =~= before + seq![' '] + args@[i as int]@);
            } else {
                assert(out@ =~= args@[i as int]@);
            }
        }
        i = i + 1;
    }
    let mut stop = false;
    if escapes {
        let (expanded, ended) = expand_echo_escapes(out.as_str());
        out = expanded;
        stop = ended;
    }
    if newline && !stop {
        out.push('\n');
    }
    out
}

proof fn lemma_plain_is_unescaped(s: Seq<char>, i: int, before: Seq<char>)
    requires
        0 <= i <= s.len(),
        forall|k: int| i <= k < s.len() ==> #[trigger] s[k] != '\\',
    ensures
        unescaped(s, i, before) == (before + s.skip(i), false),
    decreases s.len() - i,
{
    if i < s.len() {
        lemma_plain_is_unescaped(s, i + 1, before.push(s[i]));
        assert(before.push(s[i]) + s.skip(i + 1) =~= before + s.skip(i));
    } else {
        assert(before + s.skip(i) =~= before);
    }
}

/// A text without a backslash is printed as it is, whether escapes are read or not.
pub proof fn law_text_without_backslashes_stays(s: Seq<char>)
    requires
        !s.contains('\\'),
    ensures
        unescaped(s, 0, seq![]) == (s, false),
{
    assert forall|k: int| 0 <= k < s.len() implies #[trigger] s[k] != '\\' by {
        if s[k] == '\\' {
            assert(s.contains(s[k]));
        }
    }
    lemma_plain_is_unescaped(s, 0, seq![]);
    assert(Seq::<char>::empty() + s.skip(0) =~= s);
}

/// Arguments are printed with one space between them.
pub proof fn law_arguments_are_spaced(a: Seq<Seq<char>>, b: Seq<Seq<char>>)
    ensures
        a.len() > 0 && b.len() > 0 ==> spaced(a + b, 0, (a + b).len() as int) == spaced(
            a,
            0,
            a.len() as int,
        ) + seq![' '] + spaced(b, 0, b.len() as int),
        a.len() == 1 ==> spaced(a, 0, 1) == a[0],
        a.len() == 0 ==> spaced(a, 0, 0).len() == 0,
{
    if a.len() > 0 && b.len() > 0 {
        lemma_spaced(a, b, b.len() as int);
    }
}

proof fn lemma_spaced_front(a: Seq<Seq<char>>, b: Seq<Seq<char>>, n: int)
    requires
        0 <= n <= a.len(),
    ensures
        spaced(a + b, 0, n) == spaced(a, 0, n),
    decreases n,
{
    if n > 0 {
        lemma_spaced_front(a, b, n - 1);
        assert((a + b)[n - 1] == a[n - 1]);
    }
}

proof fn lemma_spaced(a: Seq<Seq<char>>, b: Seq<Seq<char>>, n: int)
    requires
        a.len() > 0,
        1 <= n <= b.len(),
    ensures
        spaced(a + b, 0, a.len() + n) == spaced(a, 0, a.len() as int) + seq![' '] + spaced(b, 0, n),
    decreases n,
{
    let front = spaced(a, 0, a.len() as int) + seq![' '];
    assert((a + b)[a.len() + n - 1] == b[n - 1]);
    if n == 1 {
        lemma_spaced_front(a, b, a.len() as int);
    } else {
        lemma_spaced(a, b, n - 1);
        assert((front + spaced(b, 0, n - 1)) + seq![' '] + b[n - 1] =~= front + (spaced(b, 0, n - 1)
            + seq![' '] + b[n - 1]));
    }
}

proof fn lemma_spaced_behind(a: Seq<Seq<char>>, b: Seq<Seq<char>>, n: int)
    requires
        0 <= n <= b.len(),
    ensures
        spaced(a + b, a.len() as int, a.len() + n) == spaced(b, 0, n),
    decreases n,
{
    if n > 0 {
        lemma_spaced_behind(a, b, n - 1);
        assert((a + b)[a.len() + n - 1] == b[n - 1]);
    }
}

/// Without an option in front the arguments are printed as they are, and a newline behind them.
pub proof fn law_plain_arguments_are_printed(args: Seq<Seq<char>>)
    requires
        args.len() > 0 ==> args[0].len() < 2 || args[0][0] != '-' || exists|i: int|
            1 <= i < args[0].len() && (#[trigger] args[0][i]) != 'n' && args[0][i] != 'e'
                && args[0][i] != 'E',
    ensures
        echo_text(args) == spaced(args, 0, args.len() as int).push('\n'),
{
    if args.len() > 0 {
        if args[0].len() >= 2 && args[0][0] == '-' {
            let i = choose|i: int|
                1 <= i < args[0].len() && (#[trigger] args[0][i]) != 'n' && args[0][i] != 'e'
                    && args[0][i] != 'E';
            assert(!echo_letter(args[0][i]));
        }
        assert(!echo_options(args[0]));
    }
}

/// The three options, alone and in front of arguments that hold none: `-n` leaves out the newline,
/// `-e` reads escapes, and `-E` reads none. Of `-e` and `-E` in one argument the last counts.
pub proof fn law_options_of_echo(args: Seq<Seq<char>>)
    requires
        args.len() > 0 ==> args[0].len() < 2 || args[0][0] != '-',
    ensures
        ({
            let plain = spaced(args, 0, args.len() as int);
            let (out, stopped) = unescaped(plain, 0, seq![]);
            let read = if stopped {
                out
            } else {
                out.push('\n')
            };
            &&& echo_text(seq![seq!['-', 'n']] + args) == plain
            &&& echo_text(seq![seq!['-', 'e']] + args) == read
            &&& echo_text(seq![seq!['-', 'E']] + args) == plain.push('\n')
            &&& echo_text(seq![seq!['-', 'n', 'e']] + args) == out
            &&& echo_text(seq![seq!['-', 'E', 'e']] + args) == read
            &&& echo_text(seq![seq!['-', 'e', 'E']] + args) == plain.push('\n')
            &&& echo_text(seq![seq!['-', 'e'], seq!['-', 'n']] + args) == out
        }),
{
    assert(args.len() > 0 ==> !echo_options(args[0]));
    lemma_option_row(seq![seq!['-', 'n']], args);
    lemma_option_row(seq![seq!['-', 'e']], args);
    lemma_option_row(seq![seq!['-', 'E']], args);
    lemma_option_row(seq![seq!['-', 'n', 'e']], args);
    lemma_option_row(seq![seq!['-', 'E', 'e']], args);
    lemma_option_row(seq![seq!['-', 'e', 'E']], args);
    lemma_option_row(seq![seq!['-', 'e'], seq!['-', 'n']], args);
    let start = EchoModes { newline: true, escapes: false };
    reveal_with_fuel(arg_modes, 4);
    reveal_with_fuel(row_modes, 3);
    assert(row_modes(seq![seq!['-', 'n']], 1, start) == (EchoModes {
        newline: false,
        escapes: false,
    }));
    assert(row_modes(seq![seq!['-', 'e']], 1, start) == (EchoModes { newline: true, escapes: true }));
    assert(row_modes(seq![seq!['-', 'E']], 1, start) == start);
    assert(row_modes(seq![seq!['-', 'n', 'e']], 1, start) == (EchoModes {
        newline: false,
        escapes: true,
    }));
    assert(row_modes(seq![seq!['-', 'E', 'e']], 1, start) == (EchoModes {
        newline: true,
        escapes: true,
    }));
    assert(row_modes(seq![seq!['-', 'e', 'E']], 1, start) == start);
    assert(row_modes(seq![seq!['-', 'e'], seq!['-', 'n']], 2, start) == (EchoModes {
        newline: false,
        escapes: true,
    }));
}

/// The modes behind the first `n` options.
spec fn row_modes(options: Seq<Seq<char>>, n: int, modes: EchoModes) -> EchoModes
    decreases n,
{
    if n <= 0 {
        modes
    } else {
        let arg = options[n - 1];
        arg_modes(arg, arg.len() as int, row_modes(options, n - 1, modes))
    }
}

proof fn lemma_option_row(options: Seq<Seq<char>>, args: Seq<Seq<char>>)
    requires
        forall|i: int| 0 <= i < options.len() ==> echo_options(#[trigger] options[i]),
        args.len() > 0 ==> !echo_options(args[0]),
    ensures
        ({
            let plain = spaced(args, 0, args.len() as int);
            let modes = row_modes(
                options,
                options.len() as int,
                EchoModes { newline: true, escapes: false },
            );
            let (out, stop) = if modes.escapes {
                unescaped(plain, 0, seq![])
            } else {
                (plain, false)
            };
            echo_text(options + args) == (if modes.newline && !stop {
                out.push('\n')
            } else {
                out
            })
        }),
{
    lemma_options_scanned(options, args, 0, EchoModes { newline: true, escapes: false });
    lemma_spaced_behind(options, args, args.len() as int);
}

proof fn lemma_options_scanned(
    options: Seq<Seq<char>>,
    args: Seq<Seq<char>>,
    i: int,
    modes: EchoModes,
)
    requires
        0 <= i <= options.len(),
        forall|k: int| 0 <= k < options.len() ==> echo_options(#[trigger] options[k]),
        args.len() > 0 ==> !echo_options(args[0]),
    ensures
        echo_scan(options + args, i, row_modes(options, i, modes)) == (
            row_modes(options, options.len() as int, modes),
            options.len() as int,
        ),
    decreases options.len() - i,
{
    let all = options + args;
    if i < options.len() {
        assert(all[i] == options[i]);
        lemma_options_scanned(options, args, i + 1, modes);
    } else if args.len() > 0 {
        assert(all[i] == args[0]);
    }
}

// ---- escapes ----

/// What a text with escapes is written from.
pub enum Echoed {
    /// Text without a backslash.
    Plain(Seq<char>),
    /// A letter that stands for a character.
    Letter(char),
    /// Three octal digits.
    Octal(char, char, char),
    /// Two hexadecimal digits.
    Hex(char, char),
    /// A character that no escape starts with.
    Kept(char),
}

/// The letters that stand for characters.
pub open spec fn letter_meaning(c: char) -> Option<char> {
    match c {
        'a' => Some('\u{7}'),
        'b' => Some('\u{8}'),
        't' => Some('\u{9}'),
        'n' => Some('\u{a}'),
        'v' => Some('\u{b}'),
        'f' => Some('\u{c}'),
        'r' => Some('\u{d}'),
        'e' => Some('\u{1b}'),
        'E' => Some('\u{1b}'),
        '\\' => Some('\\'),
        _ => None,
    }
}

/// The value of a hexadecimal digit.
pub open spec fn hex_digit(c: char) -> int {
    if '0' <= c <= '9' {
        c as int - '0' as int
    } else if 'a' <= c <= 'f' {
        c as int - 'a' as int + 10
    } else {
        c as int - 'A' as int + 10
    }
}

pub open spec fn is_hex_digit(c: char) -> bool {
    ('0' <= c <= '9') || ('a' <= c <= 'f') || ('A' <= c <= 'F')
}

pub open spec fn echoed_fits(piece: Echoed) -> bool {
    match piece {
        Echoed::Plain(t) => !t.contains('\\'),
        Echoed::Letter(c) => letter_meaning(c) is Some,
        Echoed::Octal(x, y, z) => ('0' <= x <= '7') && ('0' <= y <= '7') && ('0' <= z <= '7'),
        Echoed::Hex(x, y) => is_hex_digit(x) && is_hex_digit(y),
        Echoed::Kept(c) => letter_meaning(c) is None && c != '0' && c != 'x' && c != 'u' && c != 'U'
            && c != 'c',
    }
}

pub open spec fn echoed_spelled(piece: Echoed) -> Seq<char> {
    match piece {
        Echoed::Plain(t) => t,
        Echoed::Letter(c) => seq!['\\', c],
        Echoed::Octal(x, y, z) => seq!['\\', '0', x, y, z],
        Echoed::Hex(x, y) => seq!['\\', 'x', x, y],
        Echoed::Kept(c) => seq!['\\', c],
    }
}

/// What a piece is printed as.
pub open spec fn echoed_meaning(piece: Echoed) -> Seq<char> {
    match piece {
        Echoed::Plain(t) => t,
        Echoed::Letter(c) => seq![letter_meaning(c)->Some_0],
        Echoed::Octal(x, y, z) => seq![
            (64 * (x as int - '0' as int) + 8 * (y as int - '0' as int) + (z as int
                - '0' as int)) as char,
        ],
        Echoed::Hex(x, y) => seq![(16 * hex_digit(x) + hex_digit(y)) as char],
        Echoed::Kept(c) => seq!['\\', c],
    }
}

pub open spec fn pieces_spelled(pieces: Seq<Echoed>) -> Seq<char>
    decreases pieces.len(),
{
    if pieces.len() == 0 {
        seq![]
    } else {
        echoed_spelled(pieces[0]) + pieces_spelled(pieces.skip(1))
    }
}

pub open spec fn pieces_meaning(pieces: Seq<Echoed>) -> Seq<char>
    decreases pieces.len(),
{
    if pieces.len() == 0 {
        seq![]
    } else {
        echoed_meaning(pieces[0]) + pieces_meaning(pieces.skip(1))
    }
}

proof fn lemma_plain_piece(s: Seq<char>, i: int, t: Seq<char>, before: Seq<char>)
    requires
        0 <= i,
        i + t.len() <= s.len(),
        s.subrange(i, i + t.len()) == t,
        !t.contains('\\'),
    ensures
        unescaped(s, i, before) == unescaped(s, i + t.len(), before + t),
    decreases t.len(),
{
    if t.len() == 0 {
        assert(before + t =~= before);
    } else {
        let rest = t.skip(1);
        assert(s[i] == s.subrange(i, i + t.len())[0]);
        assert(t.contains(t[0]));
        assert(s.subrange(i + 1, i + 1 + rest.len()) =~= s.subrange(i, i + t.len()).skip(1));
        assert(!rest.contains('\\')) by {
            if rest.contains('\\') {
                let k = rest.index_of('\\');
                assert(t[k + 1] == '\\');
            }
        }
        lemma_plain_piece(s, i + 1, rest, before.push(s[i]));
        assert(before.push(t[0]) + rest =~= before + t);
    }
}

proof fn lemma_piece(s: Seq<char>, i: int, piece: Echoed, before: Seq<char>)
    requires
        0 <= i,
        i + echoed_spelled(piece).len() <= s.len(),
        s.subrange(i, i + echoed_spelled(piece).len()) == echoed_spelled(piece),
        echoed_fits(piece),
    ensures
        unescaped(s, i, before) == unescaped(
            s,
            i + echoed_spelled(piece).len(),
            before + echoed_meaning(piece),
        ),
{
    let t = echoed_spelled(piece);
    let n = t.len() as int;
    if let Echoed::Plain(own) = piece {
        lemma_plain_piece(s, i, own, before);
    } else {
        assert(s[i] == s.subrange(i, i + n)[0]);
        assert(s[i + 1] == s.subrange(i, i + n)[1]);
        if n > 2 {
            assert(s[i + 2] == s.subrange(i, i + n)[2]);
            assert(s[i + 3] == s.subrange(i, i + n)[3]);
        }
        if n > 4 {
            assert(s[i + 4] == s.subrange(i, i + n)[4]);
        }
        reveal_with_fuel(read_digits, 4);
        match piece {
            Echoed::Octal(x, y, z) => {
                let code = 64 * (x as int - '0' as int) + 8 * (y as int - '0' as int) + (z as int
                    - '0' as int);
                assert(read_digits(s, i + 2, 8, 3, 0) == (code, i + 5));
                assert(is_scalar(code as u32));
            },
            Echoed::Hex(x, y) => {
                let code = 16 * hex_digit(x) + hex_digit(y);
                assert(digit_value(x, 16) == Some(hex_digit(x)));
                assert(digit_value(y, 16) == Some(hex_digit(y)));
                assert(read_digits(s, i + 2, 16, 2, 0) == (code, i + 4));
                assert(is_scalar(code as u32));
            },
            _ => {},
        }
        assert(escape_at(s, i) == Some((echoed_meaning(piece), i + n)));
    }
}

proof fn lemma_pieces(s: Seq<char>, i: int, pieces: Seq<Echoed>, before: Seq<char>)
    requires
        0 <= i,
        i + pieces_spelled(pieces).len() <= s.len(),
        s.subrange(i, i + pieces_spelled(pieces).len()) == pieces_spelled(pieces),
        forall|k: int| 0 <= k < pieces.len() ==> echoed_fits(#[trigger] pieces[k]),
    ensures
        unescaped(s, i, before) == unescaped(
            s,
            i + pieces_spelled(pieces).len(),
            before + pieces_meaning(pieces),
        ),
    decreases pieces.len(),
{
    if pieces.len() == 0 {
        assert(before + pieces_meaning(pieces) =~= before);
    } else {
        let own = echoed_spelled(pieces[0]);
        let rest = pieces.skip(1);
        let all = pieces_spelled(pieces);
        assert(s.subrange(i, i + own.len()) =~= all.take(own.len() as int)) by {
            assert forall|k: int| 0 <= k < own.len() implies s.subrange(i, i + own.len())[k]
                == #[trigger] all.take(own.len() as int)[k] by {
                assert(s.subrange(i, i + all.len())[k] == all[k]);
            }
        }
        assert(all.take(own.len() as int) =~= own);
        let j = i + own.len();
        let more = pieces_spelled(rest);
        assert(s.subrange(j, j + more.len()) =~= more) by {
            assert forall|k: int| 0 <= k < more.len() implies s.subrange(j, j + more.len())[k]
                == #[trigger] more[k] by {
                assert(s.subrange(i, i + all.len())[own.len() + k] == all[own.len() + k]);
            }
        }
        assert(echoed_fits(pieces[0]));
        lemma_piece(s, i, pieces[0], before);
        assert forall|k: int| 0 <= k < rest.len() implies echoed_fits(#[trigger] rest[k]) by {
            assert(rest[k] == pieces[k + 1]);
        }
        lemma_pieces(s, j, rest, before + echoed_meaning(pieces[0]));
        assert((before + echoed_meaning(pieces[0])) + pieces_meaning(rest) =~= before
            + pieces_meaning(pieces));
    }
}

/// Escapes are read one behind the other: plain text is kept, a letter, octal digits and
/// hexadecimal digits stand for their character, and a backslash in front of anything else is
/// kept. Behind `\c` nothing is printed any more.
pub proof fn law_escapes_stand_for_characters(pieces: Seq<Echoed>, behind: Seq<char>)
    requires
        forall|k: int| 0 <= k < pieces.len() ==> echoed_fits(#[trigger] pieces[k]),
    ensures
        unescaped(pieces_spelled(pieces), 0, seq![]) == (pieces_meaning(pieces), false),
        unescaped(pieces_spelled(pieces) + seq!['\\', 'c'] + behind, 0, seq![]) == (
            pieces_meaning(pieces),
            true,
        ),
{
    let s = pieces_spelled(pieces);
    let none: Seq<char> = seq![];
    assert(s.subrange(0, s.len() as int) =~= s);
    lemma_pieces(s, 0, pieces, none);
    assert(none + pieces_meaning(pieces) =~= pieces_meaning(pieces));
    let z = s + seq!['\\', 'c'] + behind;
    assert(z.subrange(0, s.len() as int) =~= s);
    lemma_pieces(z, 0, pieces, none);
    assert(z[s.len() as int] == '\\');
    assert(z[s.len() as int + 1] == 'c');
    assert(escape_at(z, s.len() as int) is None);
}

} // verus!
