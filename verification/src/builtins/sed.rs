//! `sed`: substitution in every line.

use vstd::prelude::*;
use vstd::utf8::*;

use crate::builtins;
use crate::builtins::lines;
use crate::builtins::{Failure, FailureView};
use crate::bytes;
use crate::pattern;
use crate::pattern::LinePattern;
use crate::text;

verus! {

/// A substitution: `s` with a pattern, a replacement and flags.
#[derive(Debug, PartialEq, Eq)]
pub struct SedSubstitution {
    pub pattern: String,
    pub replacement: String,
    pub global: bool,
    pub ignore_case: bool,
}

#[verifier::ext_equal]
pub struct SubstitutionView {
    pub pattern: Seq<char>,
    pub replacement: Seq<char>,
    pub global: bool,
    pub ignore_case: bool,
}

impl View for SedSubstitution {
    type V = SubstitutionView;

    open spec fn view(&self) -> SubstitutionView {
        SubstitutionView {
            pattern: self.pattern@,
            replacement: self.replacement@,
            global: self.global,
            ignore_case: self.ignore_case,
        }
    }
}

/// The parts of a script between delimiters, while it is read: those that have ended, and the
/// current one. A backslash before a delimiter makes it an ordinary character.
pub open spec fn parts_from(
    s: Seq<char>,
    i: int,
    delimiter: char,
    parts: Seq<Seq<char>>,
    current: Seq<char>,
) -> (Seq<Seq<char>>, Seq<char>)
    decreases s.len() - i,
{
    if i < 0 || i >= s.len() {
        (parts, current)
    } else if s[i] == '\\' {
        if i + 1 < s.len() && s[i + 1] == delimiter {
            parts_from(s, i + 2, delimiter, parts, current.push(delimiter))
        } else {
            parts_from(s, i + 1, delimiter, parts, current.push('\\'))
        }
    } else if s[i] == delimiter && parts.len() < 2 {
        parts_from(s, i + 1, delimiter, parts.push(current), seq![])
    } else {
        parts_from(s, i + 1, delimiter, parts, current.push(s[i]))
    }
}

/// The pattern, the replacement and the flags; none where the script has fewer delimiters.
pub open spec fn script_parts(s: Seq<char>, delimiter: char) -> Option<
    (Seq<char>, Seq<char>, Seq<char>),
> {
    let (parts, rest) = parts_from(s, 0, delimiter, seq![], seq![]);
    if parts.len() != 2 {
        None
    } else {
        Some((parts[0], parts[1], rest))
    }
}

pub open spec fn known_flags(flags: Seq<char>) -> bool {
    forall|i: int| 0 <= i < flags.len() ==> (#[trigger] flags[i] == 'g' || flags[i] == 'i')
}

/// The substitution that a script writes, if it writes one.
pub open spec fn substitution_of(script: Seq<char>) -> Option<SubstitutionView> {
    if script.len() < 2 || script[0] != 's' {
        None
    } else {
        match script_parts(script.skip(2), script[1]) {
            None => None,
            Some((pattern, replacement, flags)) => if !known_flags(flags) {
                None
            } else {
                Some(
                    SubstitutionView {
                        pattern,
                        replacement,
                        global: flags.contains('g'),
                        ignore_case: flags.contains('i'),
                    },
                )
            },
        }
    }
}

/// Splits a script at its delimiters.
pub fn split_sed_parts(input: &str, delimiter: char) -> (r: Option<(String, String, String)>)
    ensures
        match script_parts(input@, delimiter) {
            Some((a, b, c)) => r matches Some((x, y, z)) && x@ == a && y@ == b && z@ == c,
            None => r is None,
        },
{
    let chars = text::to_chars(input);
    let mut parts: Vec<String> = Vec::new();
    let mut current = String::new();
    let mut i: usize = 0;
    proof {
        assert(text::texts(parts@) =~= seq![]);
        assert(current@ =~= seq![]);
        assert(chars.len() == chars@.len());
    }
    while i < chars.len()
        invariant
            chars@ == input@,
            chars@.len() <= usize::MAX,
            i <= chars@.len(),
            parts@.len() <= 2,
            parts_from(input@, i as int, delimiter, text::texts(parts@), current@) == parts_from(
                input@,
                0,
                delimiter,
                seq![],
                seq![],
            ),
        decreases chars@.len() - i,
    {
        let ch = chars[i];
        proof {
            assert(text::texts(parts@).len() == parts@.len());
        }
        if ch == '\\' {
            if i + 1 < chars.len() && chars[i + 1] == delimiter {
                current.push(delimiter);
                i = i + 2;
            } else {
                current.push('\\');
                i = i + 1;
            }
        } else if ch == delimiter && parts.len() < 2 {
            let ghost before = parts@;
            let ghost part = current@;
            parts.push(current);
            current = String::new();
            proof {
                assert(text::texts(parts@) =~= text::texts(before).push(part));
                assert(current@ =~= seq![]);
            }
            i = i + 1;
        } else {
            current.push(ch);
            i = i + 1;
        }
    }
    if parts.len() != 2 {
        return None;
    }
    proof {
        assert(text::texts(parts@)[0] == parts@[0]@);
        assert(text::texts(parts@)[1] == parts@[1]@);
    }
    let replacement = parts.remove(1);
    let pattern = parts.remove(0);
    Some((pattern, replacement, current))
}

/// Reads a substitution.
pub fn parse_sed_substitution(script: &str) -> (r: Option<SedSubstitution>)
    ensures
        match substitution_of(script@) {
            Some(expected) => r matches Some(sub) && sub@ == expected,
            None => r is None,
        },
{
    let chars = text::to_chars(script);
    if chars.len() < 2 || chars[0] != 's' {
        return None;
    }
    let rest = text::from_range(&chars, 2, chars.len());
    proof {
        assert(rest@ =~= script@.skip(2));
    }
    match split_sed_parts(rest.as_str(), chars[1]) {
        None => None,
        Some((pattern, replacement, flags)) => {
            let flag_chars = text::to_chars(flags.as_str());
            let mut i: usize = 0;
            let mut global = false;
            let mut ignore_case = false;
            while i < flag_chars.len()
                invariant
                    i <= flag_chars@.len(),
                    flag_chars@ == flags@,
                    script@.len() >= 2,
                    script@[0] == 's',
                    script_parts(script@.skip(2), script@[1]) == Some(
                        (pattern@, replacement@, flags@),
                    ),
                    forall|k: int|
                        0 <= k < i ==> (#[trigger] flags@[k] == 'g' || flags@[k] == 'i'),
                    global == flags@.take(i as int).contains('g'),
                    ignore_case == flags@.take(i as int).contains('i'),
                decreases flag_chars@.len() - i,
            {
                let flag = flag_chars[i];
                proof {
                    let before = flags@.take(i as int);
                    let after = flags@.take(i + 1);
                    assert(after =~= before.push(flag));
                    assert(after[i as int] == flag);
                    assert forall|c: char| after.contains(c) == (before.contains(c) || c
                        == flag) by {
                        if before.contains(c) {
                            let k = choose|k: int| 0 <= k < before.len() && before[k] == c;
                            assert(after[k] == c);
                        }
                    }
                }
                if flag == 'g' {
                    global = true;
                } else if flag == 'i' {
                    ignore_case = true;
                } else {
                    return None;
                }
                i = i + 1;
            }
            proof {
                assert(flags@.take(i as int) =~= flags@);
            }
            Some(SedSubstitution { pattern, replacement, global, ignore_case })
        },
    }
}

/// The group that a character asks for behind a backslash.
pub open spec fn group_index(c: char) -> Option<int> {
    if '1' <= c <= '9' {
        Some(c as int - 48)
    } else {
        None
    }
}

/// The first reference to a group that does not exist, from `i` on.
pub open spec fn bad_reference(replacement: Seq<char>, i: int, captures_len: nat) -> Option<int>
    decreases replacement.len() - i,
{
    if i < 0 || i >= replacement.len() {
        None
    } else if replacement[i] != '\\' {
        bad_reference(replacement, i + 1, captures_len)
    } else if i + 1 >= replacement.len() {
        None
    } else {
        match group_index(replacement[i + 1]) {
            Some(index) if index >= captures_len => Some(index),
            _ => bad_reference(replacement, i + 2, captures_len),
        }
    }
}

/// Checks that a replacement refers to no group that does not exist.
pub fn validate_sed_replacement(replacement: &str, captures_len: usize) -> (r: Result<(), usize>)
    ensures
        match bad_reference(replacement@, 0, captures_len as nat) {
            Some(index) => r matches Err(i) && i == index,
            None => r is Ok,
        },
{
    let chars = text::to_chars(replacement);
    let mut i: usize = 0;
    proof {
        assert(chars.len() == chars@.len());
    }
    while i < chars.len()
        invariant
            chars@ == replacement@,
            chars@.len() <= usize::MAX,
            i <= chars@.len(),
            bad_reference(replacement@, i as int, captures_len as nat) == bad_reference(
                replacement@,
                0,
                captures_len as nat,
            ),
        decreases chars@.len() - i,
    {
        if chars[i] != '\\' {
            i = i + 1;
            continue;
        }
        if i + 1 >= chars.len() {
            return Ok(());
        }
        let digit = chars[i + 1];
        if '1' <= digit && digit <= '9' {
            let index: usize = (digit as u32 - 48) as usize;
            if index >= captures_len {
                return Err(index);
            }
        }
        i = i + 2;
    }
    Ok(())
}

/// What `sed` is asked to do.
pub struct SedPlan {
    pub sub: SedSubstitution,
    pub pattern: LinePattern,
    pub files: Vec<String>,
}

/// What `sed` reports of its arguments before it reads any input.
pub open spec fn sed_failure(args: Seq<Seq<char>>) -> Option<FailureView> {
    if args.len() == 0 {
        Some(FailureView { message: "sed: missing command\n"@, code: 1 })
    } else {
        match substitution_of(args[0]) {
            None => Some(
                FailureView {
                    message:
                        "sed: unsupported command; tinysandbox supports s/// with g and i flags\n"@,
                    code: 1,
                },
            ),
            Some(sub) => match pattern::regex_error(sub.pattern, sub.ignore_case) {
                Some(error) => Some(
                    FailureView { message: "sed"@ + ": "@ + error + "\n"@, code: 1 },
                ),
                None => match bad_reference(
                    sub.replacement,
                    0,
                    pattern::regex_captures_len(sub.pattern, sub.ignore_case),
                ) {
                    Some(index) => Some(
                        FailureView {
                            message: "sed: invalid reference \\"@ + text::decimal_text(
                                index as nat,
                            ) + " on `s' command's RHS\n"@,
                            code: 1,
                        },
                    ),
                    None => None,
                },
            },
        }
    }
}

/// Reads the arguments of `sed`: a script and files.
pub fn parse_sed_args(args: &Vec<String>) -> (r: Result<SedPlan, Failure>)
    ensures
        match sed_failure(text::texts(args@)) {
            Some(failure) => r matches Err(f) && f@ == failure,
            None => r matches Ok(plan) && substitution_of(args@[0]@) == Some(plan.sub@)
                && plan.pattern.source() == plan.sub@.pattern && plan.pattern.ignore_case()
                == plan.sub.ignore_case && text::texts(plan.files@) == text::texts(args@).skip(1),
        },
{
    if args.len() == 0 {
        return Err(builtins::failure("sed: missing command\n", 1));
    }
    proof {
        assert(text::texts(args@)[0] == args@[0]@);
    }
    let sub = match parse_sed_substitution(args[0].as_str()) {
        Some(sub) => sub,
        None => {
            return Err(
                builtins::failure(
                    "sed: unsupported command; tinysandbox supports s/// with g and i flags\n",
                    1,
                ),
            );
        },
    };
    let pattern = match builtins::grep::compile_pattern(
        "sed",
        sub.pattern.as_str(),
        sub.ignore_case,
        1,
    ) {
        Ok(pattern) => pattern,
        Err(failure) => {
            return Err(failure);
        },
    };
    match validate_sed_replacement(sub.replacement.as_str(), pattern.captures_len()) {
        Ok(()) => {},
        Err(index) => {
            let number = text::decimal(index as u64);
            return Err(
                Failure::new(
                    text::concat3(
                        "sed: invalid reference \\",
                        number.as_str(),
                        " on `s' command's RHS\n",
                    ),
                    1,
                ),
            );
        },
    }
    let mut files: Vec<String> = Vec::new();
    let mut i: usize = 1;
    let ghost rest = text::texts(args@).skip(1);
    proof {
        assert(text::texts(files@) =~= rest.take(0));
    }
    while i < args.len()
        invariant
            1 <= i <= args@.len(),
            rest == text::texts(args@).skip(1),
            text::texts(files@) == rest.take(i - 1),
        decreases args@.len() - i,
    {
        let ghost before = files@;
        files.push(args[i].clone());
        proof {
            assert(text::texts(files@) =~= text::texts(before).push(args@[i as int]@));
            assert(rest.take(i as int) =~= rest.take(i - 1).push(rest[i - 1]));
        }
        i = i + 1;
    }
    proof {
        assert(rest.take(i - 1) =~= rest);
    }
    Ok(SedPlan { sub, pattern, files })
}

/// The bytes of a group of a match; nothing where it took no part.
pub open spec fn group_bytes(body: Seq<u8>, groups: Seq<Option<(usize, usize)>>, g: int) -> Seq<
    u8,
> {
    if 0 <= g < groups.len() {
        match groups[g] {
            Some((start, end)) => body.subrange(start as int, end as int),
            None => seq![],
        }
    } else {
        seq![]
    }
}

/// What a replacement stands for from `i` on, behind what stands before.
pub open spec fn replacement_bytes(
    replacement: Seq<char>,
    i: int,
    body: Seq<u8>,
    groups: Seq<Option<(usize, usize)>>,
    before: Seq<u8>,
) -> Seq<u8>
    decreases replacement.len() - i,
{
    if i < 0 || i >= replacement.len() {
        before
    } else if replacement[i] == '&' {
        replacement_bytes(
            replacement,
            i + 1,
            body,
            groups,
            before + group_bytes(body, groups, 0),
        )
    } else if replacement[i] != '\\' {
        replacement_bytes(
            replacement,
            i + 1,
            body,
            groups,
            before + encode_utf8(seq![replacement[i]]),
        )
    } else if i + 1 >= replacement.len() {
        before + encode_utf8(seq!['\\'])
    } else {
        let c = replacement[i + 1];
        let more = match group_index(c) {
            Some(g) => group_bytes(body, groups, g),
            None => encode_utf8(
                seq![
                    if c == 'n' {
                        '\n'
                    } else if c == 't' {
                        '\t'
                    } else {
                        c
                    },
                ],
            ),
        };
        replacement_bytes(replacement, i + 2, body, groups, before + more)
    }
}

fn push_char_bytes(out: &mut Vec<u8>, c: char)
    ensures
        final(out)@ == old(out)@ + encode_utf8(seq![c]),
{
    let mut one = String::new();
    one.push(c);
    proof {
        assert(one@ =~= seq![c]);
    }
    bytes::extend(out, one.as_str().as_bytes());
}

fn push_group(
    out: &mut Vec<u8>,
    body: &[u8],
    groups: &Vec<Option<(usize, usize)>>,
    g: usize,
)
    requires
        forall|k: int|
            0 <= k < groups@.len() ==> (#[trigger] groups@[k] matches Some((start, end)) ==> start
                <= end <= body@.len()),
    ensures
        final(out)@ == old(out)@ + group_bytes(body@, groups@, g as int),
{
    let ghost before = out@;
    if g < groups.len() {
        match groups[g] {
            Some((start, end)) => {
                proof {
                    assert(groups@[g as int] is Some);
                }
                bytes::extend(out, bytes::slice(body, start, end));
                return;
            },
            None => {},
        }
    }
    proof {
        assert(before + seq![] =~= before);
    }
}

/// Appends what a replacement stands for in a match.
pub fn expand_sed_replacement(
    out: &mut Vec<u8>,
    replacement: &str,
    body: &[u8],
    groups: &Vec<Option<(usize, usize)>>,
)
    requires
        forall|k: int|
            0 <= k < groups@.len() ==> (#[trigger] groups@[k] matches Some((start, end)) ==> start
                <= end <= body@.len()),
    ensures
        final(out)@ == replacement_bytes(replacement@, 0, body@, groups@, old(out)@),
{
    let chars = text::to_chars(replacement);
    let mut i: usize = 0;
    proof {
        assert(chars.len() == chars@.len());
    }
    while i < chars.len()
        invariant
            chars@ == replacement@,
            chars@.len() <= usize::MAX,
            i <= chars@.len(),
            forall|k: int|
                0 <= k < groups@.len() ==> (#[trigger] groups@[k] matches Some((start, end))
                    ==> start <= end <= body@.len()),
            replacement_bytes(replacement@, i as int, body@, groups@, out@) == replacement_bytes(
                replacement@,
                0,
                body@,
                groups@,
                old(out)@,
            ),
        decreases chars@.len() - i,
    {
        let ch = chars[i];
        if ch == '&' {
            push_group(out, body, groups, 0);
            i = i + 1;
        } else if ch != '\\' {
            push_char_bytes(out, ch);
            i = i + 1;
        } else if i + 1 >= chars.len() {
            push_char_bytes(out, '\\');
            return;
        } else {
            let c = chars[i + 1];
            if '1' <= c && c <= '9' {
                push_group(out, body, groups, (c as u32 - 48) as usize);
            } else if c == 'n' {
                push_char_bytes(out, '\n');
            } else if c == 't' {
                push_char_bytes(out, '\t');
            } else {
                push_char_bytes(out, c);
            }
            i = i + 2;
        }
    }
}

pub open spec fn match_start(groups: Seq<Option<(usize, usize)>>) -> int {
    groups[0]->Some_0.0 as int
}

pub open spec fn match_end(groups: Seq<Option<(usize, usize)>>) -> int {
    groups[0]->Some_0.1 as int
}

/// Where what comes behind the first `n` matches starts.
pub open spec fn covered(matches: Seq<Seq<Option<(usize, usize)>>>, n: int) -> int {
    if n <= 0 {
        0
    } else {
        match_end(matches[n - 1])
    }
}

/// A text with its first `n` matches replaced, as far as they reach.
pub open spec fn replaced(
    body: Seq<u8>,
    matches: Seq<Seq<Option<(usize, usize)>>>,
    n: int,
    replacement: Seq<char>,
) -> Seq<u8>
    decreases n,
{
    if n <= 0 {
        seq![]
    } else {
        replacement_bytes(
            replacement,
            0,
            body,
            matches[n - 1],
            replaced(body, matches, n - 1, replacement) + body.subrange(
                covered(matches, n - 1),
                match_start(matches[n - 1]),
            ),
        )
    }
}

/// A text with its matches replaced.
pub open spec fn substituted(
    body: Seq<u8>,
    matches: Seq<Seq<Option<(usize, usize)>>>,
    replacement: Seq<char>,
) -> Seq<u8> {
    replaced(body, matches, matches.len() as int, replacement) + body.skip(
        covered(matches, matches.len() as int),
    )
}

/// Replaces matches in a text.
pub fn substitute(body: &[u8], matches: &Vec<Vec<Option<(usize, usize)>>>, replacement: &str) -> (r:
    Vec<u8>)
    requires
        pattern::spans_valid(pattern::spans_view(matches@), body@.len()),
    ensures
        r@ == substituted(body@, pattern::spans_view(matches@), replacement@),
{
    let ghost all = pattern::spans_view(matches@);
    let mut out: Vec<u8> = Vec::new();
    let mut last: usize = 0;
    let mut i: usize = 0;
    proof {
        assert(out@ =~= seq![]);
    }
    while i < matches.len()
        invariant
            i <= matches@.len(),
            all == pattern::spans_view(matches@),
            pattern::spans_valid(all, body@.len()),
            last == covered(all, i as int),
            last <= body@.len(),
            out@ == replaced(body@, all, i as int, replacement@),
        decreases matches@.len() - i,
    {
        let groups = &matches[i];
        proof {
            assert(all[i as int] == groups@);
            assert(all[i as int].len() > 0);
            assert(all[i as int][0] is Some);
            if i > 0 {
                assert(all[i - 1][0]->Some_0.1 <= all[i as int][0]->Some_0.0);
            }
            assert forall|k: int| 0 <= k < groups@.len() implies (#[trigger] groups@[k] matches
                Some((start, end)) ==> start <= end <= body@.len()) by {
                assert(all[i as int][k] == groups@[k]);
            }
        }
        match groups[0] {
            Some((start, end)) => {
                proof {
                    assert(groups@[0] == Some((start, end)));
                }
                bytes::extend(&mut out, bytes::slice(body, last, start));
                expand_sed_replacement(&mut out, replacement, body, groups);
                last = end;
            },
            None => {},
        }
        i = i + 1;
    }
    bytes::extend(&mut out, bytes::slice(body, last, body.len()));
    proof {
        assert(body@.subrange(last as int, body@.len() as int) =~= body@.skip(last as int));
    }
    out
}

/// A line as it is printed: its text with the matches replaced, and its newline.
pub open spec fn sed_line(line: Seq<char>, sub: SubstitutionView) -> Seq<u8> {
    let body = lines::without_suffix(line, '\n');
    substituted(
        encode_utf8(body),
        pattern::first_matches(
            pattern::regex_captures(sub.pattern, sub.ignore_case, body),
            if sub.global {
                usize::MAX as int
            } else {
                1
            },
        ),
        sub.replacement,
    ) + (if body.len() < line.len() {
        seq![10u8]
    } else {
        seq![]
    })
}

/// The first `n` lines of an input as they are printed.
pub open spec fn sed_lines(input: Seq<Seq<u8>>, n: int, sub: SubstitutionView) -> Seq<u8>
    decreases n,
{
    if n <= 0 {
        seq![]
    } else {
        sed_lines(input, n - 1, sub) + sed_line(lines::lossy_text(input[n - 1]), sub)
    }
}

/// Applies a substitution to every line of a piece of input.
pub fn apply_sed_substitution(input: &[u8], compiled: &LinePattern, sub: &SedSubstitution) -> (r: Vec<
    u8,
>)
    requires
        compiled.source() == sub@.pattern,
        compiled.ignore_case() == sub.ignore_case,
    ensures
        r@ == sed_lines(lines::lines_of(input@), lines::lines_of(input@).len() as int, sub@),
{
    let ghost all = lines::lines_of(input@);
    let pieces = lines::lines_with_endings(input);
    let mut out: Vec<u8> = Vec::new();
    let mut i: usize = 0;
    proof {
        assert(out@ =~= seq![]);
        assert(pieces@.len() == all.len());
    }
    while i < pieces.len()
        invariant
            i <= pieces@.len(),
            all == lines::byte_lines(pieces@),
            compiled.source() == sub@.pattern,
            compiled.ignore_case() == sub.ignore_case,
            out@ == sed_lines(all, i as int, sub@),
        decreases pieces@.len() - i,
    {
        let ghost start = out@;
        let decoded = lines::decode_lossy(pieces[i].as_slice());
        proof {
            assert(all[i as int] == pieces@[i as int]@);
        }
        let chars = text::to_chars(decoded.as_str());
        let had_newline = chars.len() > 0 && chars[chars.len() - 1] == '\n';
        let end: usize = if had_newline {
            chars.len() - 1
        } else {
            chars.len()
        };
        let body = text::from_range(&chars, 0, end);
        proof {
            assert(body@ =~= lines::without_suffix(decoded@, '\n'));
        }
        let limit: usize = if sub.global {
            usize::MAX
        } else {
            1
        };
        let matches = compiled.first_captures(body.as_str(), limit);
        let mut line = substitute(body.as_str().as_bytes(), &matches, sub.replacement.as_str());
        let ghost plain = line@;
        if had_newline {
            line.push(10);
        }
        proof {
            assert(line@ =~= sed_line(decoded@, sub@));
        }
        bytes::extend(&mut out, line.as_slice());
        i = i + 1;
    }
    out
}

/// A line in which the pattern matches nowhere stays as it is.
pub proof fn law_lines_without_a_match_stay(line: Seq<char>, sub: SubstitutionView)
    requires
        pattern::regex_captures(
            sub.pattern,
            sub.ignore_case,
            lines::without_suffix(line, '\n'),
        ).len() == 0,
    ensures
        sed_line(line, sub) == encode_utf8(line),
{
    let body = lines::without_suffix(line, '\n');
    let none = pattern::regex_captures(sub.pattern, sub.ignore_case, body);
    assert(replaced(encode_utf8(body), none, 0, sub.replacement) =~= Seq::<u8>::empty());
    assert(covered(none, 0) == 0);
    assert(encode_utf8(body).skip(0) =~= encode_utf8(body));
    assert(substituted(encode_utf8(body), none, sub.replacement) =~= encode_utf8(body));
    if body.len() < line.len() {
        assert(line =~= body + seq!['\n']);
        text::lemma_encode_concat(body, seq!['\n']);
        is_ascii_chars_encode_utf8(seq!['\n']);
        assert(seq!['\n'][0] as u8 == 10);
        assert(encode_utf8(seq!['\n']) =~= seq![10u8]);
    } else {
        assert(line == body);
        assert(encode_utf8(body) + Seq::<u8>::empty() =~= encode_utf8(body));
    }
}

// ---- scripts ----

/// A part of a script as it is written: with a backslash before each delimiter.
pub open spec fn written(part: Seq<char>, delimiter: char) -> Seq<char>
    decreases part.len(),
{
    if part.len() == 0 {
        seq![]
    } else if part[0] == delimiter {
        seq!['\\', delimiter] + written(part.skip(1), delimiter)
    } else {
        seq![part[0]] + written(part.skip(1), delimiter)
    }
}

/// Whether a part can be written: no backslash in it stands before a delimiter, or at the end.
pub open spec fn writable(part: Seq<char>, delimiter: char) -> bool {
    forall|i: int|
        0 <= i < part.len() && #[trigger] part[i] == '\\' ==> i + 1 < part.len() && part[i + 1]
            != delimiter
}

proof fn lemma_writable_rest(part: Seq<char>, delimiter: char)
    requires
        part.len() > 0,
        writable(part, delimiter),
    ensures
        writable(part.skip(1), delimiter),
{
    let rest = part.skip(1);
    assert forall|i: int| 0 <= i < rest.len() && #[trigger] rest[i] == '\\' implies i + 1
        < rest.len() && rest[i + 1] != delimiter by {
        assert(part[i + 1] == '\\');
    }
}

/// A written part is read as what it stands for.
proof fn lemma_written_part(
    s: Seq<char>,
    i: int,
    part: Seq<char>,
    delimiter: char,
    parts: Seq<Seq<char>>,
    current: Seq<char>,
)
    requires
        delimiter != '\\',
        writable(part, delimiter),
        0 <= i,
        i + written(part, delimiter).len() <= s.len(),
        s.subrange(i, i + written(part, delimiter).len()) == written(part, delimiter),
    ensures
        parts_from(s, i, delimiter, parts, current) == parts_from(
            s,
            i + written(part, delimiter).len(),
            delimiter,
            parts,
            current + part,
        ),
    decreases part.len(),
{
    let text = written(part, delimiter);
    let n = text.len() as int;
    if part.len() == 0 {
        assert(current + part =~= current);
    } else {
        let rest = part.skip(1);
        let after = written(rest, delimiter);
        lemma_writable_rest(part, delimiter);
        let width: int = if part[0] == delimiter {
            2
        } else {
            1
        };
        assert(n == width + after.len());
        assert(s.subrange(i, i + n)[0] == text[0]);
        assert(s[i] == text[0]);
        assert(s.subrange(i + width, i + n) =~= after) by {
            assert forall|k: int| 0 <= k < after.len() implies #[trigger] s.subrange(
                i + width,
                i + n,
            )[k] == after[k] by {
                assert(s.subrange(i, i + n)[k + width] == text[k + width]);
            }
        }
        if part[0] == delimiter {
            assert(s.subrange(i, i + n)[1] == text[1]);
            assert(s[i + 1] == delimiter);
        } else if part[0] == '\\' {
            assert(rest[0] == part[1]);
            assert(after[0] == part[1]);
            assert(text[1] == after[0]);
            assert(s.subrange(i, i + n)[1] == text[1]);
            assert(s[i + 1] != delimiter);
        }
        lemma_written_part(s, i + width, rest, delimiter, parts, current.push(part[0]));
        assert(current.push(part[0]) + rest =~= current + part);
    }
}

/// A script is its pattern, its replacement and its flags between delimiters: each is handed on as
/// it is, but that a backslash before a delimiter goes.
pub proof fn law_script_parts_are_handed_on(
    pattern: Seq<char>,
    replacement: Seq<char>,
    flags: Seq<char>,
    delimiter: char,
)
    requires
        delimiter != '\\',
        writable(pattern, delimiter),
        writable(replacement, delimiter),
        writable(flags, delimiter),
    ensures
        script_parts(
            written(pattern, delimiter) + seq![delimiter] + written(replacement, delimiter) + seq![
                delimiter,
            ] + written(flags, delimiter),
            delimiter,
        ) == Some((pattern, replacement, flags)),
{
    let a = written(pattern, delimiter);
    let b = written(replacement, delimiter);
    let c = written(flags, delimiter);
    let s = a + seq![delimiter] + b + seq![delimiter] + c;
    let none: Seq<Seq<char>> = seq![];
    let empty: Seq<char> = seq![];
    let i = a.len() as int;
    let j = i + 1 + b.len();
    assert(s.subrange(0, i) =~= a);
    lemma_written_part(s, 0, pattern, delimiter, none, empty);
    assert(empty + pattern =~= pattern);
    assert(s[i] == delimiter);
    let one = none.push(pattern);
    assert(parts_from(s, i, delimiter, none, pattern) == parts_from(
        s,
        i + 1,
        delimiter,
        one,
        empty,
    ));
    assert(s.subrange(i + 1, j) =~= b);
    lemma_written_part(s, i + 1, replacement, delimiter, one, empty);
    assert(empty + replacement =~= replacement);
    assert(s[j] == delimiter);
    let two = one.push(replacement);
    assert(parts_from(s, j, delimiter, one, replacement) == parts_from(
        s,
        j + 1,
        delimiter,
        two,
        empty,
    ));
    assert(s.subrange(j + 1, s.len() as int) =~= c);
    lemma_written_part(s, j + 1, flags, delimiter, two, empty);
    assert(empty + flags =~= flags);
    assert(parts_from(s, s.len() as int, delimiter, two, flags) == (two, flags));
}

proof fn lemma_written_without_delimiters(part: Seq<char>, delimiter: char)
    requires
        !part.contains(delimiter),
    ensures
        written(part, delimiter) == part,
    decreases part.len(),
{
    if part.len() > 0 {
        assert(part.contains(part[0]));
        assert(!part.skip(1).contains(delimiter)) by {
            if part.skip(1).contains(delimiter) {
                let k = choose|k: int| 0 <= k < part.skip(1).len() && part.skip(1)[k] == delimiter;
                assert(part[k + 1] == delimiter);
            }
        }
        lemma_written_without_delimiters(part.skip(1), delimiter);
        assert(seq![part[0]] + part.skip(1) =~= part);
    }
}

/// Parts in which the delimiter does not occur are handed on unchanged, backslashes and all.
pub proof fn law_parts_without_delimiters_are_unchanged(
    pattern: Seq<char>,
    replacement: Seq<char>,
    flags: Seq<char>,
    delimiter: char,
)
    requires
        delimiter != '\\',
        !pattern.contains(delimiter),
        !replacement.contains(delimiter),
        !flags.contains(delimiter),
        pattern.len() > 0 ==> pattern.last() != '\\',
        replacement.len() > 0 ==> replacement.last() != '\\',
        flags.len() > 0 ==> flags.last() != '\\',
    ensures
        script_parts(
            pattern + seq![delimiter] + replacement + seq![delimiter] + flags,
            delimiter,
        ) == Some((pattern, replacement, flags)),
{
    lemma_written_without_delimiters(pattern, delimiter);
    lemma_written_without_delimiters(replacement, delimiter);
    lemma_written_without_delimiters(flags, delimiter);
    lemma_writable_without_delimiters(pattern, delimiter);
    lemma_writable_without_delimiters(replacement, delimiter);
    lemma_writable_without_delimiters(flags, delimiter);
    law_script_parts_are_handed_on(pattern, replacement, flags, delimiter);
}

proof fn lemma_writable_without_delimiters(part: Seq<char>, delimiter: char)
    requires
        !part.contains(delimiter),
        part.len() > 0 ==> part.last() != '\\',
    ensures
        writable(part, delimiter),
{
    assert forall|i: int| 0 <= i < part.len() && #[trigger] part[i] == '\\' implies i + 1
        < part.len() && part[i + 1] != delimiter by {
        if i + 1 < part.len() {
            assert(part.contains(part[i + 1]));
        }
    }
}

/// A script with one delimiter, or none, has no parts.
pub proof fn law_scripts_need_two_delimiters(
    pattern: Seq<char>,
    rest: Seq<char>,
    delimiter: char,
)
    requires
        delimiter != '\\',
        writable(pattern, delimiter),
        writable(rest, delimiter),
    ensures
        script_parts(written(pattern, delimiter), delimiter) is None,
        script_parts(
            written(pattern, delimiter) + seq![delimiter] + written(rest, delimiter),
            delimiter,
        ) is None,
{
    let a = written(pattern, delimiter);
    let b = written(rest, delimiter);
    let none: Seq<Seq<char>> = seq![];
    let empty: Seq<char> = seq![];
    let i = a.len() as int;
    assert(a.subrange(0, i) =~= a);
    lemma_written_part(a, 0, pattern, delimiter, none, empty);
    let s = a + seq![delimiter] + b;
    assert(s.subrange(0, i) =~= a);
    lemma_written_part(s, 0, pattern, delimiter, none, empty);
    assert(empty + pattern =~= pattern);
    assert(s[i] == delimiter);
    let one = none.push(pattern);
    assert(parts_from(s, i, delimiter, none, pattern) == parts_from(
        s,
        i + 1,
        delimiter,
        one,
        empty,
    ));
    assert(s.subrange(i + 1, s.len() as int) =~= b);
    lemma_written_part(s, i + 1, rest, delimiter, one, empty);
}

/// `s`, a delimiter and the parts of a script are that substitution, where the flags are among `g`
/// and `i`: the first asks for all matches, the second for either case.
pub proof fn law_scripts_write_substitutions(
    pattern: Seq<char>,
    replacement: Seq<char>,
    flags: Seq<char>,
    delimiter: char,
)
    requires
        delimiter != '\\',
        writable(pattern, delimiter),
        writable(replacement, delimiter),
        writable(flags, delimiter),
    ensures
        ({
            let script = seq!['s', delimiter] + (written(pattern, delimiter) + seq![delimiter]
                + written(replacement, delimiter) + seq![delimiter] + written(flags, delimiter));
            let known = forall|i: int|
                0 <= i < flags.len() ==> #[trigger] flags[i] == 'g' || flags[i] == 'i';
            &&& substitution_of(script) is Some <==> known
            &&& known ==> substitution_of(script) == Some(
                SubstitutionView {
                    pattern,
                    replacement,
                    global: flags.contains('g'),
                    ignore_case: flags.contains('i'),
                },
            )
        }),
{
    let rest = written(pattern, delimiter) + seq![delimiter] + written(replacement, delimiter)
        + seq![delimiter] + written(flags, delimiter);
    let script = seq!['s', delimiter] + rest;
    assert(script.skip(2) =~= rest);
    law_script_parts_are_handed_on(pattern, replacement, flags, delimiter);
}

// ---- replacements ----

/// What a replacement gives comes behind what was there, and does not depend on it.
pub proof fn law_replacements_are_appended(
    replacement: Seq<char>,
    i: int,
    body: Seq<u8>,
    groups: Seq<Option<(usize, usize)>>,
    before: Seq<u8>,
)
    requires
        0 <= i <= replacement.len(),
    ensures
        replacement_bytes(replacement, i, body, groups, before) == before + replacement_bytes(
            replacement,
            i,
            body,
            groups,
            seq![],
        ),
    decreases replacement.len() - i,
{
    let none: Seq<u8> = seq![];
    if i >= replacement.len() {
        assert(before + none =~= before);
    } else if replacement[i] == '&' {
        let more = group_bytes(body, groups, 0);
        law_replacements_are_appended(replacement, i + 1, body, groups, before + more);
        law_replacements_are_appended(replacement, i + 1, body, groups, none + more);
        assert(none + more =~= more);
        let rest = replacement_bytes(replacement, i + 1, body, groups, none);
        assert((before + more) + rest =~= before + (more + rest));
    } else if replacement[i] != '\\' {
        let more = encode_utf8(seq![replacement[i]]);
        law_replacements_are_appended(replacement, i + 1, body, groups, before + more);
        law_replacements_are_appended(replacement, i + 1, body, groups, none + more);
        assert(none + more =~= more);
        let rest = replacement_bytes(replacement, i + 1, body, groups, none);
        assert((before + more) + rest =~= before + (more + rest));
    } else if i + 1 >= replacement.len() {
        assert(none + encode_utf8(seq!['\\']) =~= encode_utf8(seq!['\\']));
    } else {
        let c = replacement[i + 1];
        let more = match group_index(c) {
            Some(g) => group_bytes(body, groups, g),
            None => encode_utf8(
                seq![
                    if c == 'n' {
                        '\n'
                    } else if c == 't' {
                        '\t'
                    } else {
                        c
                    },
                ],
            ),
        };
        law_replacements_are_appended(replacement, i + 2, body, groups, before + more);
        law_replacements_are_appended(replacement, i + 2, body, groups, none + more);
        assert(none + more =~= more);
        let rest = replacement_bytes(replacement, i + 2, body, groups, none);
        assert((before + more) + rest =~= before + (more + rest));
    }
}

/// A replacement without `&` and backslashes stands for itself.
pub proof fn law_plain_replacements_stand_for_themselves(
    replacement: Seq<char>,
    body: Seq<u8>,
    groups: Seq<Option<(usize, usize)>>,
)
    requires
        !replacement.contains('&'),
        !replacement.contains('\\'),
    ensures
        replacement_bytes(replacement, 0, body, groups, seq![]) == encode_utf8(replacement),
{
    lemma_plain_replacement(replacement, 0, body, groups);
    assert(replacement.skip(0) =~= replacement);
}

proof fn lemma_plain_replacement(
    replacement: Seq<char>,
    i: int,
    body: Seq<u8>,
    groups: Seq<Option<(usize, usize)>>,
)
    requires
        0 <= i <= replacement.len(),
        !replacement.contains('&'),
        !replacement.contains('\\'),
    ensures
        replacement_bytes(replacement, i, body, groups, seq![]) == encode_utf8(replacement.skip(i)),
    decreases replacement.len() - i,
{
    if i < replacement.len() {
        assert(replacement.contains(replacement[i]));
        lemma_plain_replacement(replacement, i + 1, body, groups);
        let more = encode_utf8(seq![replacement[i]]);
        law_replacements_are_appended(replacement, i + 1, body, groups, Seq::<u8>::empty() + more);
        assert(Seq::<u8>::empty() + more =~= more);
        assert(replacement.skip(i) =~= seq![replacement[i]] + replacement.skip(i + 1));
        text::lemma_encode_concat(seq![replacement[i]], replacement.skip(i + 1));
    } else {
        assert(replacement.skip(i) =~= seq![]);
        text::lemma_encode_concat(seq![], seq![]);
        assert(encode_utf8(Seq::<char>::empty()).len() == 0) by {
            assert(Seq::<char>::empty() + Seq::<char>::empty() =~= Seq::<char>::empty());
        }
        assert(encode_utf8(Seq::<char>::empty()) =~= seq![]);
    }
}

/// `&` stands for the whole match, a backslash and a digit for that group, `\n` and `\t` for a
/// newline and a tab, and any other character behind a backslash for itself.
pub proof fn law_references_stand_for_groups(
    c: char,
    body: Seq<u8>,
    groups: Seq<Option<(usize, usize)>>,
)
    ensures
        replacement_bytes(seq!['&'], 0, body, groups, seq![]) == group_bytes(body, groups, 0),
        '1' <= c <= '9' ==> replacement_bytes(seq!['\\', c], 0, body, groups, seq![])
            == group_bytes(body, groups, c as int - '0' as int),
        c == 'n' ==> replacement_bytes(seq!['\\', c], 0, body, groups, seq![]) == encode_utf8(
            seq!['\n'],
        ),
        c == 't' ==> replacement_bytes(seq!['\\', c], 0, body, groups, seq![]) == encode_utf8(
            seq!['\t'],
        ),
        !('1' <= c <= '9') && c != 'n' && c != 't' ==> replacement_bytes(
            seq!['\\', c],
            0,
            body,
            groups,
            seq![],
        ) == encode_utf8(seq![c]),
{
    reveal_with_fuel(replacement_bytes, 3);
    let none: Seq<u8> = seq![];
    let s = seq!['\\', c];
    assert(s[0] == '\\' && s[1] == c);
    assert(none + group_bytes(body, groups, 0) =~= group_bytes(body, groups, 0));
    assert(none + group_bytes(body, groups, c as int - 48) =~= group_bytes(
        body,
        groups,
        c as int - 48,
    ));
    assert(none + encode_utf8(seq!['\n']) =~= encode_utf8(seq!['\n']));
    assert(none + encode_utf8(seq!['\t']) =~= encode_utf8(seq!['\t']));
    assert(none + encode_utf8(seq![c]) =~= encode_utf8(seq![c]));
}

// ---- matches ----

/// Replacing every match with itself changes nothing.
pub proof fn law_replacing_matches_with_themselves_changes_nothing(
    body: Seq<u8>,
    matches: Seq<Seq<Option<(usize, usize)>>>,
)
    requires
        pattern::spans_valid(matches, body.len()),
    ensures
        substituted(body, matches, seq!['&']) == body,
{
    lemma_replaced_with_itself(body, matches, matches.len() as int);
    let n = covered(matches, matches.len() as int);
    assert(body.take(n) + body.skip(n) =~= body);
}

proof fn lemma_replaced_with_itself(
    body: Seq<u8>,
    matches: Seq<Seq<Option<(usize, usize)>>>,
    n: int,
)
    requires
        pattern::spans_valid(matches, body.len()),
        0 <= n <= matches.len(),
    ensures
        0 <= covered(matches, n) <= body.len(),
        replaced(body, matches, n, seq!['&']) == body.take(covered(matches, n)),
    decreases n,
{
    if n > 0 {
        lemma_replaced_with_itself(body, matches, n - 1);
        let groups = matches[n - 1];
        let before = replaced(body, matches, n - 1, seq!['&']);
        assert(groups.len() > 0 && groups[0] is Some);
        let (from, to) = (match_start(groups), match_end(groups));
        assert(covered(matches, n - 1) <= from <= to <= body.len()) by {
            if n > 1 {
                assert(matches[n - 2][0]->Some_0.1 <= matches[n - 1][0]->Some_0.0);
            }
        }
        let gap = body.subrange(covered(matches, n - 1), from);
        law_references_stand_for_groups('a', body, groups);
        law_replacements_are_appended(seq!['&'], 0, body, groups, before + gap);
        assert(before + gap + body.subrange(from, to) =~= body.take(to));
    } else {
        assert(body.take(0) =~= seq![]);
    }
}

/// One match is taken out, and what the replacement stands for comes in its place; nothing around
/// it changes.
pub proof fn law_a_match_is_replaced_in_its_place(
    body: Seq<u8>,
    groups: Seq<Option<(usize, usize)>>,
    replacement: Seq<char>,
)
    requires
        pattern::spans_valid(seq![groups], body.len()),
    ensures
        substituted(body, seq![groups], replacement) == body.take(match_start(groups))
            + replacement_bytes(replacement, 0, body, groups, seq![]) + body.skip(
            match_end(groups),
        ),
{
    let one = seq![groups];
    assert(one[0] == groups);
    assert(groups.len() > 0 && groups[0] is Some);
    reveal_with_fuel(replaced, 2);
    let front = body.take(match_start(groups));
    assert(Seq::<u8>::empty() + body.subrange(0, match_start(groups)) =~= front);
    law_replacements_are_appended(replacement, 0, body, groups, front);
}

// ---- replacements as they are written ----

/// What a replacement is made of.
pub enum Insert {
    /// Text without `&` and without a backslash.
    Plain(Seq<char>),
    /// The whole match.
    Match,
    /// A group, by its digit.
    Group(char),
    /// Another character behind a backslash.
    Escaped(char),
}

pub open spec fn insert_fits(insert: Insert) -> bool {
    match insert {
        Insert::Plain(t) => !t.contains('&') && !t.contains('\\'),
        Insert::Match => true,
        Insert::Group(c) => '1' <= c <= '9',
        Insert::Escaped(c) => !('1' <= c <= '9'),
    }
}

pub open spec fn insert_spelled(insert: Insert) -> Seq<char> {
    match insert {
        Insert::Plain(t) => t,
        Insert::Match => seq!['&'],
        Insert::Group(c) => seq!['\\', c],
        Insert::Escaped(c) => seq!['\\', c],
    }
}

/// What is put in: a newline and a tab have a letter of their own.
pub open spec fn insert_bytes(
    insert: Insert,
    body: Seq<u8>,
    groups: Seq<Option<(usize, usize)>>,
) -> Seq<u8> {
    match insert {
        Insert::Plain(t) => encode_utf8(t),
        Insert::Match => group_bytes(body, groups, 0),
        Insert::Group(c) => group_bytes(body, groups, c as int - '0' as int),
        Insert::Escaped('n') => encode_utf8(seq!['\n']),
        Insert::Escaped('t') => encode_utf8(seq!['\t']),
        Insert::Escaped(c) => encode_utf8(seq![c]),
    }
}

pub open spec fn inserts_spelled(inserts: Seq<Insert>) -> Seq<char>
    decreases inserts.len(),
{
    if inserts.len() == 0 {
        seq![]
    } else {
        insert_spelled(inserts[0]) + inserts_spelled(inserts.skip(1))
    }
}

pub open spec fn inserts_bytes(
    inserts: Seq<Insert>,
    body: Seq<u8>,
    groups: Seq<Option<(usize, usize)>>,
) -> Seq<u8>
    decreases inserts.len(),
{
    if inserts.len() == 0 {
        seq![]
    } else {
        insert_bytes(inserts[0], body, groups) + inserts_bytes(inserts.skip(1), body, groups)
    }
}

/// The first group that is asked for and that there is not.
pub open spec fn missing_group(inserts: Seq<Insert>, captures_len: nat) -> Option<int>
    decreases inserts.len(),
{
    if inserts.len() == 0 {
        None
    } else {
        match inserts[0] {
            Insert::Group(c) if c as int - '0' as int >= captures_len => Some(
                c as int - '0' as int,
            ),
            _ => missing_group(inserts.skip(1), captures_len),
        }
    }
}

proof fn lemma_plain_insert(
    replacement: Seq<char>,
    i: int,
    t: Seq<char>,
    body: Seq<u8>,
    groups: Seq<Option<(usize, usize)>>,
    before: Seq<u8>,
    captures_len: nat,
)
    requires
        0 <= i,
        i + t.len() <= replacement.len(),
        replacement.subrange(i, i + t.len()) == t,
        !t.contains('&'),
        !t.contains('\\'),
    ensures
        replacement_bytes(replacement, i, body, groups, before) == replacement_bytes(
            replacement,
            i + t.len(),
            body,
            groups,
            before + encode_utf8(t),
        ),
        bad_reference(replacement, i, captures_len) == bad_reference(
            replacement,
            i + t.len(),
            captures_len,
        ),
    decreases t.len(),
{
    let none: Seq<char> = seq![];
    if t.len() == 0 {
        text::lemma_encode_concat(none, none);
        assert(none + none =~= none);
        assert(t =~= none);
        assert(encode_utf8(t) =~= Seq::<u8>::empty());
        assert(before + encode_utf8(t) =~= before);
    } else {
        let rest = t.skip(1);
        assert(replacement[i] == replacement.subrange(i, i + t.len())[0]);
        assert(t.contains(t[0]));
        assert(replacement.subrange(i + 1, i + 1 + rest.len()) =~= replacement.subrange(
            i,
            i + t.len(),
        ).skip(1));
        assert(!rest.contains('&') && !rest.contains('\\')) by {
            if rest.contains('&') {
                assert(t[rest.index_of('&') + 1] == '&');
            }
            if rest.contains('\\') {
                assert(t[rest.index_of('\\') + 1] == '\\');
            }
        }
        let own = encode_utf8(seq![t[0]]);
        lemma_plain_insert(replacement, i + 1, rest, body, groups, before + own, captures_len);
        assert(t =~= seq![t[0]] + rest);
        text::lemma_encode_concat(seq![t[0]], rest);
        assert((before + own) + encode_utf8(rest) =~= before + encode_utf8(t));
    }
}

proof fn lemma_inserts(
    replacement: Seq<char>,
    i: int,
    inserts: Seq<Insert>,
    body: Seq<u8>,
    groups: Seq<Option<(usize, usize)>>,
    before: Seq<u8>,
    captures_len: nat,
)
    requires
        0 <= i,
        i + inserts_spelled(inserts).len() == replacement.len(),
        replacement.skip(i) == inserts_spelled(inserts),
        forall|k: int| 0 <= k < inserts.len() ==> insert_fits(#[trigger] inserts[k]),
    ensures
        replacement_bytes(replacement, i, body, groups, before) == before + inserts_bytes(
            inserts,
            body,
            groups,
        ),
        bad_reference(replacement, i, captures_len) == missing_group(inserts, captures_len),
    decreases inserts.len(),
{
    if inserts.len() == 0 {
        assert(before + inserts_bytes(inserts, body, groups) =~= before);
    } else {
        let first = inserts[0];
        let own = insert_spelled(first);
        let rest = inserts.skip(1);
        let all = inserts_spelled(inserts);
        let n = own.len() as int;
        assert(insert_fits(inserts[0]));
        assert forall|k: int| 0 <= k < n implies replacement[i + k] == #[trigger] own[k] by {
            assert(replacement.skip(i)[k] == all[k]);
        }
        assert(replacement.subrange(i, i + n) =~= own);
        assert(replacement.skip(i + n) =~= replacement.skip(i).skip(n));
        assert(replacement.skip(i + n) =~= inserts_spelled(rest));
        assert forall|k: int| 0 <= k < rest.len() implies insert_fits(#[trigger] rest[k]) by {
            assert(rest[k] == inserts[k + 1]);
        }
        let more = insert_bytes(first, body, groups);
        match first {
            Insert::Plain(t) => {
                lemma_plain_insert(replacement, i, t, body, groups, before, captures_len);
            },
            Insert::Match => {
                assert(replacement[i + 0] == own[0]);
            },
            Insert::Group(c) => {
                assert(replacement[i + 0] == own[0]);
                assert(replacement[i + 1] == own[1]);
            },
            Insert::Escaped(c) => {
                assert(replacement[i + 0] == own[0]);
                assert(replacement[i + 1] == own[1]);
            },
        }
        lemma_inserts(replacement, i + n, rest, body, groups, before + more, captures_len);
        assert((before + more) + inserts_bytes(rest, body, groups) =~= before + inserts_bytes(
            inserts,
            body,
            groups,
        ));
    }
}

/// A replacement puts in what it is written from, one behind the other: text as it is, `&` as the
/// match, a backslash and a digit as that group, `\n` and `\t` as a newline and a tab, and any other
/// character behind a backslash as itself. It is refused where it asks for a group that there is
/// not.
pub proof fn law_replacements_put_in_what_they_name(
    inserts: Seq<Insert>,
    body: Seq<u8>,
    groups: Seq<Option<(usize, usize)>>,
    captures_len: nat,
)
    requires
        forall|k: int| 0 <= k < inserts.len() ==> insert_fits(#[trigger] inserts[k]),
    ensures
        replacement_bytes(inserts_spelled(inserts), 0, body, groups, seq![]) == inserts_bytes(
            inserts,
            body,
            groups,
        ),
        bad_reference(inserts_spelled(inserts), 0, captures_len) == missing_group(
            inserts,
            captures_len,
        ),
{
    let s = inserts_spelled(inserts);
    assert(s.skip(0) =~= s);
    lemma_inserts(s, 0, inserts, body, groups, seq![], captures_len);
    assert(Seq::<u8>::empty() + inserts_bytes(inserts, body, groups) =~= inserts_bytes(
        inserts,
        body,
        groups,
    ));
}

/// One match more is replaced behind the others: what stands between them and behind it stays.
pub proof fn law_matches_are_replaced_in_turn(
    body: Seq<u8>,
    matches: Seq<Seq<Option<(usize, usize)>>>,
    last: Seq<Option<(usize, usize)>>,
    replacement: Seq<char>,
)
    requires
        pattern::spans_valid(matches.push(last), body.len()),
    ensures
        ({
            let kept = covered(matches, matches.len() as int);
            &&& 0 <= kept <= match_start(last) <= match_end(last) <= body.len()
            &&& substituted(body, matches, replacement) == replaced(
                body,
                matches,
                matches.len() as int,
                replacement,
            ) + body.skip(kept)
            &&& substituted(body, matches.push(last), replacement) == replaced(
                body,
                matches,
                matches.len() as int,
                replacement,
            ) + body.subrange(kept, match_start(last)) + replacement_bytes(
                replacement,
                0,
                body,
                last,
                seq![],
            ) + body.skip(match_end(last))
        }),
{
    let all = matches.push(last);
    let n = matches.len() as int;
    assert(all[n] == last);
    assert(last.len() > 0 && last[0] is Some);
    if n > 0 {
        assert(all[n - 1] == matches[n - 1]);
        assert(all[n - 1][0]->Some_0.1 <= all[n][0]->Some_0.0);
        assert(all[n - 1].len() > 0 && all[n - 1][0] is Some);
    }
    lemma_replaced_front(body, matches, last, n, replacement);
    let kept = covered(matches, n);
    let front = replaced(body, matches, n, replacement) + body.subrange(kept, match_start(last));
    law_replacements_are_appended(replacement, 0, body, last, front);
    assert(covered(all, n) == kept);
}

proof fn lemma_replaced_front(
    body: Seq<u8>,
    matches: Seq<Seq<Option<(usize, usize)>>>,
    last: Seq<Option<(usize, usize)>>,
    n: int,
    replacement: Seq<char>,
)
    requires
        0 <= n <= matches.len(),
    ensures
        replaced(body, matches.push(last), n, replacement) == replaced(
            body,
            matches,
            n,
            replacement,
        ),
    decreases n,
{
    if n > 0 {
        lemma_replaced_front(body, matches, last, n - 1, replacement);
        if n > 1 {
            assert(matches.push(last)[n - 2] == matches[n - 2]);
        }
    }
}

/// Without `g` only the first match of a line is replaced, and with `g` all of them are; a line with
/// one match is printed alike. The newline of a line stays, and a line that has none gets none.
pub proof fn law_the_first_match_or_all(line: Seq<char>, sub: SubstitutionView)
    requires
        pattern::regex_captures(
            sub.pattern,
            sub.ignore_case,
            lines::without_suffix(line, '\n'),
        ).len() <= usize::MAX,
    ensures
        ({
            let body = lines::without_suffix(line, '\n');
            let found = pattern::regex_captures(sub.pattern, sub.ignore_case, body);
            let ending: Seq<u8> = if line.len() > 0 && line.last() == '\n' {
                seq![0x0au8]
            } else {
                seq![]
            };
            &&& sed_line(line, SubstitutionView { global: true, ..sub }) == substituted(
                encode_utf8(body),
                found,
                sub.replacement,
            ) + ending
            &&& found.len() > 0 ==> sed_line(line, SubstitutionView { global: false, ..sub })
                == substituted(encode_utf8(body), seq![found[0]], sub.replacement) + ending
            &&& found.len() <= 1 ==> sed_line(line, SubstitutionView { global: false, ..sub })
                == sed_line(line, SubstitutionView { global: true, ..sub })
        }),
{
    let body = lines::without_suffix(line, '\n');
    let found = pattern::regex_captures(sub.pattern, sub.ignore_case, body);
    let n = found.len() as int;
    assert(pattern::first_matches(found, usize::MAX as int) =~= found);
    if n > 0 {
        assert(pattern::first_matches(found, 1) =~= seq![found[0]]);
        if n == 1 {
            assert(seq![found[0]] =~= found);
        }
    } else {
        assert(pattern::first_matches(found, 1) =~= found);
    }
}

/// Lines are printed one behind the other, each for itself.
pub proof fn law_lines_are_substituted_in_turn(
    a: Seq<Seq<u8>>,
    b: Seq<Seq<u8>>,
    sub: SubstitutionView,
)
    ensures
        sed_lines(a + b, (a + b).len() as int, sub) == sed_lines(a, a.len() as int, sub)
            + sed_lines(b, b.len() as int, sub),
        a.len() == 1 ==> sed_lines(a, 1, sub) == sed_line(lines::lossy_text(a[0]), sub),
{
    lemma_sed_lines(a, b, b.len() as int, sub);
    if a.len() == 1 {
        reveal_with_fuel(sed_lines, 2);
        assert(Seq::<u8>::empty() + sed_line(lines::lossy_text(a[0]), sub) =~= sed_line(
            lines::lossy_text(a[0]),
            sub,
        ));
    }
}

proof fn lemma_sed_front(a: Seq<Seq<u8>>, b: Seq<Seq<u8>>, n: int, sub: SubstitutionView)
    requires
        0 <= n <= a.len(),
    ensures
        sed_lines(a + b, n, sub) == sed_lines(a, n, sub),
    decreases n,
{
    if n > 0 {
        lemma_sed_front(a, b, n - 1, sub);
        assert((a + b)[n - 1] == a[n - 1]);
    }
}

proof fn lemma_sed_lines(a: Seq<Seq<u8>>, b: Seq<Seq<u8>>, n: int, sub: SubstitutionView)
    requires
        0 <= n <= b.len(),
    ensures
        sed_lines(a + b, a.len() + n, sub) == sed_lines(a, a.len() as int, sub) + sed_lines(
            b,
            n,
            sub,
        ),
    decreases n,
{
    let front = sed_lines(a, a.len() as int, sub);
    if n == 0 {
        lemma_sed_front(a, b, a.len() as int, sub);
        assert(front + sed_lines(b, 0, sub) =~= front);
    } else {
        lemma_sed_lines(a, b, n - 1, sub);
        assert((a + b)[a.len() + n - 1] == b[n - 1]);
        let own = sed_line(lines::lossy_text(b[n - 1]), sub);
        assert((front + sed_lines(b, n - 1, sub)) + own =~= front + (sed_lines(b, n - 1, sub)
            + own));
    }
}

} // verus!
