//! `sort`: lines in order.

use vstd::prelude::*;

use crate::builtins;
use crate::builtins::flags;
use crate::builtins::lines;
use crate::builtins::{Failure, FailureView};
use crate::order;
use crate::sorting;
use crate::sorting::SortKey;
use crate::text;

verus! {

#[derive(Debug, Clone, Copy, PartialEq, Eq, Structural)]
pub struct SortModes {
    pub reverse: bool,
    pub numeric: bool,
    pub unique: bool,
}

/// What `sort` is asked to do.
pub struct SortPlan {
    pub modes: SortModes,
    pub files: Vec<String>,
}

pub open spec fn sort_modes(letters: Seq<char>) -> SortModes {
    SortModes {
        reverse: letters.contains('r'),
        numeric: letters.contains('n'),
        unique: letters.contains('u'),
    }
}

/// Reads the arguments of `sort`.
pub fn parse_sort_args(args: &Vec<String>) -> (r: Result<SortPlan, Failure>)
    ensures
        match flags::scanned(text::texts(args@), "rnu"@) {
            Ok(read) => r matches Ok(plan) && plan.modes == sort_modes(read.letters)
                && text::texts(plan.files@) == read.operands,
            Err(letter) => r matches Err(failure) && failure@ == (FailureView {
                message: builtins::unsupported_text("sort"@, builtins::letter_option(letter)),
                code: 2,
            }),
        },
{
    match flags::split_letters(args, "rnu") {
        Err(letter) => Err(builtins::unsupported_letter("sort", letter, 2)),
        Ok(read) => {
            let modes = SortModes {
                reverse: flags::holds(&read.letters, 'r'),
                numeric: flags::holds(&read.letters, 'n'),
                unique: flags::holds(&read.letters, 'u'),
            };
            Ok(SortPlan { modes, files: read.operands })
        },
    }
}

/// Refuses an input that is larger than what `sort` accepts.
pub fn check_sort_input(bytes: usize, limit: usize) -> (r: Result<(), Failure>)
    ensures
        r is Ok <==> bytes <= limit,
        r matches Err(failure) ==> failure@ == (FailureView {
            message: "sort: input too large for tinysandbox sort\n"@,
            code: 2,
        }),
{
    if bytes > limit {
        Err(builtins::failure("sort: input too large for tinysandbox sort\n", 2))
    } else {
        Ok(())
    }
}

/// Reads what `sort` sorts: the lines of its input, unless that is too large.
pub fn read_sort_input(data: &[u8], limit: usize) -> (r: Result<Vec<String>, Failure>)
    ensures
        if data@.len() <= limit {
            &&& r matches Ok(lines)
            &&& text::texts(lines@) == lines::text_lines_from(lines::lossy_text(data@), 0)
            &&& vstd::utf8::valid_utf8(data@) ==> text::texts(lines@) == lines::text_lines_from(
                vstd::utf8::decode_utf8(data@),
                0,
            )
        } else {
            r matches Err(failure) && failure@ == (FailureView {
                message: "sort: input too large for tinysandbox sort\n"@,
                code: 2,
            })
        },
{
    match check_sort_input(data.len(), limit) {
        Ok(()) => Ok(lines::text_lines_lossy(data)),
        Err(failure) => Err(failure),
    }
}

/// The first `n` lines, each with a newline behind it.
pub open spec fn ended_lines(lines: Seq<Seq<char>>, n: int) -> Seq<char>
    decreases n,
{
    if n <= 0 {
        seq![]
    } else {
        ended_lines(lines, n - 1) + lines[n - 1] + seq!['\n']
    }
}

/// What `sort` prints: each line with a newline behind it.
pub fn format_sorted(lines: &Vec<String>) -> (r: String)
    ensures
        r@ == ended_lines(text::texts(lines@), lines@.len() as int),
{
    let ghost all = text::texts(lines@);
    let mut r = String::new();
    let mut i: usize = 0;
    proof {
        assert(r@ =~= seq![]);
    }
    while i < lines.len()
        invariant
            i <= lines@.len(),
            all == text::texts(lines@),
            r@ == ended_lines(all, i as int),
        decreases lines@.len() - i,
    {
        let ghost before = r@;
        proof {
            assert(all[i as int] == lines@[i as int]@);
        }
        r.append(lines[i].as_str());
        r.push('\n');
        proof {
            assert(r@ =~= before + all[i as int] + seq!['\n']);
        }
        i = i + 1;
    }
    r
}

/// The end of the number that starts at `i`: a minus sign, digits, and a point with more digits.
pub open spec fn number_end(s: Seq<char>, i: int) -> int {
    let digits = number_digits(s, i);
    let end = crate::shell::lex::digits_end(s, digits);
    if crate::shell::lex::at(s, end, '.') {
        crate::shell::lex::digits_end(s, end + 1)
    } else {
        end
    }
}

/// Where the digits of the number that starts at `i` start.
pub open spec fn number_digits(s: Seq<char>, i: int) -> int {
    if crate::shell::lex::at(s, i, '-') {
        i + 1
    } else {
        i
    }
}

/// The first index from `i` on that holds no white space.
pub open spec fn blanks_end(s: Seq<char>, i: int) -> int
    decreases s.len() - i,
{
    if 0 <= i < s.len() && text::is_space(s[i]) {
        blanks_end(s, i + 1)
    } else {
        i
    }
}

/// The number at the start of a line, behind white space; none where there is no digit.
pub open spec fn leading_number(s: Seq<char>) -> Option<Seq<char>> {
    let from = blanks_end(s, 0);
    let digits = number_digits(s, from);
    let end = crate::shell::lex::digits_end(s, digits);
    if end > digits || number_end(s, from) > end + 1 {
        Some(s.subrange(from, number_end(s, from)))
    } else {
        None
    }
}

fn digits_after(chars: &Vec<char>, from: usize) -> (r: usize)
    requires
        from <= chars@.len(),
    ensures
        r == crate::shell::lex::digits_end(chars@, from as int),
        from <= r <= chars@.len(),
{
    let mut i: usize = from;
    while i < chars.len() && text::digit(chars[i])
        invariant
            from <= i <= chars@.len(),
            crate::shell::lex::digits_end(chars@, i as int) == crate::shell::lex::digits_end(
                chars@,
                from as int,
            ),
        decreases chars@.len() - i,
    {
        i = i + 1;
    }
    i
}

/// The text of the number that a line is sorted by numerically, if it starts with one.
pub fn numeric_prefix(line: &str) -> (r: Option<String>)
    ensures
        match leading_number(line@) {
            Some(number) => r matches Some(s) && s@ == number,
            None => r is None,
        },
{
    let chars = text::to_chars(line);
    let mut from: usize = 0;
    while from < chars.len() && text::space(chars[from])
        invariant
            from <= chars@.len(),
            blanks_end(chars@, from as int) == blanks_end(chars@, 0),
        decreases chars@.len() - from,
    {
        from = from + 1;
    }
    let digits: usize = if from < chars.len() && chars[from] == '-' {
        from + 1
    } else {
        from
    };
    let whole = digits_after(&chars, digits);
    let mut end = whole;
    if whole < chars.len() && chars[whole] == '.' {
        end = digits_after(&chars, whole + 1);
        if whole == digits && end == whole + 1 {
            return None;
        }
    } else if whole == digits {
        return None;
    }
    Some(text::from_range(&chars, from, end))
}

/// The lines in the order that `p` lists.
pub open spec fn arranged(lines: Seq<Seq<char>>, p: Seq<int>) -> Seq<Seq<char>> {
    Seq::new(p.len(), |i: int| lines[p[i]])
}

pub open spec fn arranged_numbers(numbers: Seq<i64>, p: Seq<int>) -> Seq<i64> {
    Seq::new(p.len(), |i: int| numbers[p[i]])
}

/// Whether two neighbours in order count as the same line: by their numbers where these are
/// what is sorted by.
pub open spec fn same_line(
    lines: Seq<Seq<char>>,
    numbers: Seq<i64>,
    numeric: bool,
    i: int,
    j: int,
) -> bool {
    if numeric {
        numbers[i] == numbers[j]
    } else {
        lines[i] == lines[j]
    }
}

/// The first `n` lines in order without those that repeat the line before them.
pub open spec fn deduplicated(
    lines: Seq<Seq<char>>,
    numbers: Seq<i64>,
    numeric: bool,
    n: int,
) -> Seq<Seq<char>>
    decreases n,
{
    if n <= 0 {
        seq![]
    } else if n > 1 && same_line(lines, numbers, numeric, n - 2, n - 1) {
        deduplicated(lines, numbers, numeric, n - 1)
    } else {
        deduplicated(lines, numbers, numeric, n - 1).push(lines[n - 1])
    }
}

/// Whether lines are told apart by their numbers alone: those with the same number count as one,
/// which is the first of them.
pub open spec fn by_number_alone(modes: SortModes) -> bool {
    modes.numeric && modes.unique
}

/// The keys that lines are sorted by.
pub open spec fn keyed(
    keys: Seq<SortKey>,
    lines: Seq<Seq<char>>,
    numbers: Seq<i64>,
    modes: SortModes,
) -> bool {
    &&& keys.len() == lines.len()
    &&& forall|i: int|
        0 <= i < keys.len() ==> (#[trigger] keys[i]).number == numbers[i] && keys[i].text@ == (
        if by_number_alone(modes) {
            Seq::<char>::empty()
        } else {
            lines[i]
        })
}

/// The ranks that lines are sorted by: those of their numbers, or equal ones where lines are sorted
/// by their texts alone.
pub open spec fn ranks(numbers: Seq<i64>, numeric: bool) -> Seq<i64> {
    if numeric {
        numbers
    } else {
        Seq::new(numbers.len(), |i: int| 0i64)
    }
}

/// Whether `result` is what sorting the lines gives: they come by their ranks, then by their
/// texts, and those that are the same in the order in which they came; repeated lines are dropped and the order is turned round where the modes say so.
pub open spec fn is_sorted_output(
    lines: Seq<Seq<char>>,
    numbers: Seq<i64>,
    modes: SortModes,
    result: Seq<Seq<char>>,
) -> bool {
    exists|keys: Seq<SortKey>, p: Seq<int>|
        {
            &&& keyed(keys, lines, ranks(numbers, modes.numeric), modes)
            &&& #[trigger] sorting::orders(keys, p)
            &&& result == sort_result(lines, ranks(numbers, modes.numeric), modes, p)
        }
}

/// What is left of the lines in the order that `p` lists.
pub open spec fn sort_result(
    lines: Seq<Seq<char>>,
    numbers: Seq<i64>,
    modes: SortModes,
    p: Seq<int>,
) -> Seq<Seq<char>> {
    let sorted = arranged(lines, p);
    let left = if modes.unique {
        deduplicated(sorted, arranged_numbers(numbers, p), modes.numeric, sorted.len() as int)
    } else {
        sorted
    };
    if modes.reverse {
        left.reverse()
    } else {
        left
    }
}

fn ranks_of(numbers: Vec<i64>, numeric: bool) -> (r: Vec<i64>)
    ensures
        r@ == ranks(numbers@, numeric),
{
    if numeric {
        return numbers;
    }
    let mut r: Vec<i64> = Vec::new();
    while r.len() < numbers.len()
        invariant
            r@.len() <= numbers@.len(),
            forall|i: int| 0 <= i < r@.len() ==> #[trigger] r@[i] == 0,
        decreases numbers@.len() - r@.len(),
    {
        r.push(0);
    }
    proof {
        assert(r@ =~= ranks(numbers@, numeric));
    }
    r
}

/// Sorts lines. `numbers` holds the rank of each line's number, which is looked at only where lines
/// are sorted by their numbers.
pub fn sort_lines(lines: Vec<String>, numbers: Vec<i64>, modes: SortModes) -> (r: Vec<String>)
    requires
        lines@.len() == numbers@.len(),
    ensures
        is_sorted_output(text::texts(lines@), numbers@, modes, text::texts(r@)),
{
    let numbers = ranks_of(numbers, modes.numeric);
    let ghost all = text::texts(lines@);
    let mut keys: Vec<SortKey> = Vec::new();
    let mut i: usize = 0;
    while i < lines.len()
        invariant
            i <= lines@.len(),
            lines@.len() == numbers@.len(),
            all == text::texts(lines@),
            keys@.len() == i,
            forall|k: int|
                0 <= k < i ==> (#[trigger] keys@[k]).number == numbers@[k] && keys@[k].text@ == (
                if by_number_alone(modes) {
                    Seq::<char>::empty()
                } else {
                    all[k]
                }),
        decreases lines@.len() - i,
    {
        proof {
            assert(all[i as int] == lines@[i as int]@);
        }
        let text = if modes.numeric && modes.unique {
            String::new()
        } else {
            lines[i].clone()
        };
        proof {
            if by_number_alone(modes) {
                assert(text@ =~= Seq::<char>::empty());
            }
        }
        keys.push(SortKey { number: numbers[i], text });
        i = i + 1;
    }
    let order = sorting::sort_order(&keys);
    let ghost p = sorting::indices(order@);
    let ghost sorted = arranged(all, p);
    let ghost placed = arranged_numbers(numbers@, p);
    proof {
        assert(keyed(keys@, all, numbers@, modes));
    }
    let mut out: Vec<String> = Vec::new();
    let mut i: usize = 0;
    proof {
        assert(text::texts(out@) =~= seq![]);
        assert(sorted.take(0) =~= seq![]);
    }
    while i < order.len()
        invariant
            i <= order@.len(),
            order@.len() == lines@.len(),
            lines@.len() == numbers@.len(),
            all == text::texts(lines@),
            p == sorting::indices(order@),
            sorted == arranged(all, p),
            placed == arranged_numbers(numbers@, p),
            forall|k: int| 0 <= k < order@.len() ==> #[trigger] order@[k] < lines@.len(),
            text::texts(out@) == if modes.unique {
                deduplicated(sorted, placed, modes.numeric, i as int)
            } else {
                sorted.take(i as int)
            },
        decreases order@.len() - i,
    {
        let k: usize = order[i];
        proof {
            assert(p[i as int] == k);
            assert(sorted[i as int] == lines@[k as int]@);
            assert(placed[i as int] == numbers@[k as int]);
        }
        let mut repeats = false;
        if modes.unique && i > 0 {
            let previous: usize = order[i - 1];
            proof {
                assert(p[i - 1] == previous);
                assert(sorted[i - 1] == lines@[previous as int]@);
                assert(placed[i - 1] == numbers@[previous as int]);
            }
            repeats = if modes.numeric {
                numbers[previous] == numbers[k]
            } else {
                text::str_eq(lines[previous].as_str(), lines[k].as_str())
            };
        }
        if !repeats {
            let ghost before = out@;
            out.push(lines[k].clone());
            proof {
                assert(text::texts(out@) =~= text::texts(before).push(sorted[i as int]));
                assert(sorted.take(i + 1) =~= sorted.take(i as int).push(sorted[i as int]));
            }
        }
        i = i + 1;
    }
    proof {
        assert(sorted.take(i as int) =~= sorted);
    }
    if !modes.reverse {
        proof {
            assert(text::texts(out@) == sort_result(all, numbers@, modes, p));
        }
        return out;
    }
    let ghost forward = text::texts(out@);
    let mut turned: Vec<String> = Vec::new();
    proof {
        assert(text::texts(turned@) =~= forward.reverse().take(0));
    }
    let ghost n = out@.len() as int;
    while out.len() > 0
        invariant
            out@.len() + turned@.len() == n,
            n == forward.len(),
            text::texts(out@) == forward.take(out@.len() as int),
            text::texts(turned@) == forward.reverse().take(turned@.len() as int),
        decreases out@.len(),
    {
        let ghost before = out@;
        let ghost turned_before = turned@;
        match out.pop() {
            Some(line) => {
                turned.push(line);
                proof {
                    let m = before.len() as int;
                    assert(line@ == forward[m - 1]) by {
                        assert(text::texts(before)[m - 1] == before[m - 1]@);
                    }
                    assert(text::texts(out@) =~= forward.take(m - 1)) by {
                        assert(text::texts(out@) =~= text::texts(before).take(m - 1));
                    }
                    assert(text::texts(turned@) =~= text::texts(turned_before).push(line@));
                    assert(forward.reverse()[turned_before.len() as int] == forward[m - 1]);
                    assert(text::texts(turned@) =~= forward.reverse().take(turned@.len() as int));
                }
            },
            None => {},
        }
    }
    proof {
        assert(forward.reverse().take(turned@.len() as int) =~= forward.reverse());
        assert(text::texts(turned@) == sort_result(all, numbers@, modes, p));
    }
    turned
}

// ---- what sorting comes to ----

/// Whether texts come in order, equal ones beside each other.
pub open spec fn in_order(lines: Seq<Seq<char>>) -> bool {
    forall|i: int, j: int|
        0 <= i < j < lines.len() ==> !order::text_lt(#[trigger] lines[j], #[trigger] lines[i])
}

/// Whether texts come in order, and none comes twice.
pub open spec fn in_strict_order(lines: Seq<Seq<char>>) -> bool {
    forall|i: int, j: int|
        0 <= i < j < lines.len() ==> order::text_lt(#[trigger] lines[i], #[trigger] lines[j])
}

proof fn lemma_mapped_multiset(s: Seq<int>, t: Seq<int>, lines: Seq<Seq<char>>)
    requires
        s.to_multiset() == t.to_multiset(),
    ensures
        arranged(lines, s).to_multiset() == arranged(lines, t).to_multiset(),
    decreases s.len(),
{
    broadcast use vstd::seq_lib::group_to_multiset_ensures;

    assert(s.len() == t.len()) by {
        assert(s.to_multiset().len() == s.len());
        assert(t.to_multiset().len() == t.len());
    }
    if s.len() == 0 {
        assert(arranged(lines, s) =~= arranged(lines, t));
    } else {
        let x = s.last();
        assert(s.contains(x)) by {
            assert(s[s.len() - 1] == x);
        }
        assert(s.to_multiset().contains(x));
        assert(t.to_multiset().contains(x));
        assert(t.contains(x));
        let j = choose|j: int| 0 <= j < t.len() && t[j] == x;
        let rest = t.remove(j);
        assert(s.drop_last().to_multiset() =~= s.to_multiset().remove(x)) by {
            assert(s.drop_last() =~= s.remove(s.len() - 1));
        }
        assert(rest.to_multiset() =~= t.to_multiset().remove(x));
        lemma_mapped_multiset(s.drop_last(), rest, lines);
        let a = arranged(lines, s);
        let b = arranged(lines, t);
        assert(arranged(lines, s.drop_last()) =~= a.remove(a.len() - 1));
        assert(arranged(lines, rest) =~= b.remove(j));
        assert(a.remove(a.len() - 1).to_multiset() =~= a.to_multiset().remove(lines[x]));
        assert(b.remove(j).to_multiset() =~= b.to_multiset().remove(lines[x]));
        assert(a.contains(lines[x])) by {
            assert(a[a.len() - 1] == lines[x]);
        }
        assert(b.contains(lines[x])) by {
            assert(b[j] == lines[x]);
        }
        assert(a.to_multiset() =~= a.to_multiset().remove(lines[x]).insert(lines[x]));
        assert(b.to_multiset() =~= b.to_multiset().remove(lines[x]).insert(lines[x]));
    }
}

/// The lines in an order are the lines.
proof fn lemma_arranged_is_permutation(keys: Seq<SortKey>, p: Seq<int>, lines: Seq<Seq<char>>)
    requires
        sorting::orders(keys, p),
        keys.len() == lines.len(),
    ensures
        arranged(lines, p).to_multiset() == lines.to_multiset(),
        forall|x: Seq<char>| arranged(lines, p).contains(x) <==> lines.contains(x),
{
    broadcast use vstd::seq_lib::group_to_multiset_ensures;

    sorting::law_order_covers_every_item(keys, p);
    sorting::lemma_order_repeats_nothing(keys, p);
    let all = Seq::new(lines.len(), |i: int| i);
    assert(all.no_duplicates());
    p.lemma_multiset_has_no_duplicates();
    all.lemma_multiset_has_no_duplicates();
    assert(p.to_multiset() =~= all.to_multiset()) by {
        assert forall|k: int| p.to_multiset().count(k) == all.to_multiset().count(k) by {
            if 0 <= k < lines.len() {
                assert(p.contains(k));
                assert(all[k] == k);
                assert(all.contains(k));
                assert(p.to_multiset().contains(k));
                assert(all.to_multiset().contains(k));
            } else {
                assert(!p.contains(k)) by {
                    if p.contains(k) {
                        let i = choose|i: int| 0 <= i < p.len() && p[i] == k;
                        assert(0 <= p[i] < keys.len());
                    }
                }
                assert(!all.contains(k));
                assert(!p.to_multiset().contains(k));
                assert(!all.to_multiset().contains(k));
            }
        }
    }
    lemma_mapped_multiset(p, all, lines);
    assert(arranged(lines, all) =~= lines);
    let sorted = arranged(lines, p);
    assert forall|x: Seq<char>| sorted.contains(x) <==> lines.contains(x) by {
        assert(sorted.contains(x) <==> sorted.to_multiset().contains(x));
        assert(lines.contains(x) <==> lines.to_multiset().contains(x));
    }
}

proof fn lemma_arranged_in_order(
    keys: Seq<SortKey>,
    p: Seq<int>,
    lines: Seq<Seq<char>>,
    numbers: Seq<i64>,
    modes: SortModes,
)
    requires
        keyed(keys, lines, numbers, modes),
        !modes.numeric,
        sorting::orders(keys, p),
        forall|i: int, j: int|
            0 <= i < lines.len() && 0 <= j < lines.len() ==> numbers[i] == numbers[j],
    ensures
        in_order(arranged(lines, p)),
{
    let sorted = arranged(lines, p);
    assert forall|i: int, j: int| 0 <= i < j < sorted.len() implies !order::text_lt(
        #[trigger] sorted[j],
        #[trigger] sorted[i],
    ) by {
        assert(sorting::before(keys, p[i], p[j]));
        let a = keys[p[i]];
        let b = keys[p[j]];
        assert(a.number == b.number);
        order::law_text_order_is_irreflexive(sorted[i]);
        if order::text_lt(sorted[j], sorted[i]) && order::text_lt(sorted[i], sorted[j]) {
            order::law_text_order_is_transitive(sorted[i], sorted[j], sorted[i]);
        }
    }
}

proof fn lemma_deduplicated(sorted: Seq<Seq<char>>, numbers: Seq<i64>, n: int)
    requires
        in_order(sorted),
        0 <= n <= sorted.len(),
    ensures
        ({
            let left = deduplicated(sorted, numbers, false, n);
            &&& in_strict_order(left)
            &&& n > 0 ==> left.len() > 0 && left.last() == sorted[n - 1]
            &&& forall|x: Seq<char>| left.contains(x) <==> sorted.take(n).contains(x)
        }),
    decreases n,
{
    let left = deduplicated(sorted, numbers, false, n);
    let shorter = sorted.take(n - 1);
    let longer = sorted.take(n);
    if n > 0 {
        lemma_deduplicated(sorted, numbers, n - 1);
        let before = deduplicated(sorted, numbers, false, n - 1);
        assert(longer =~= shorter.push(sorted[n - 1]));
        if n > 1 && sorted[n - 2] == sorted[n - 1] {
            assert forall|x: Seq<char>| left.contains(x) <==> longer.contains(x) by {
                if longer.contains(x) {
                    let i = choose|i: int| 0 <= i < longer.len() && longer[i] == x;
                    if i == n - 1 {
                        assert(shorter[n - 2] == x);
                    } else {
                        assert(shorter[i] == x);
                    }
                }
                if shorter.contains(x) {
                    let i = choose|i: int| 0 <= i < shorter.len() && shorter[i] == x;
                    assert(longer[i] == x);
                }
            }
        } else {
            assert(left == before.push(sorted[n - 1]));
            assert forall|i: int, j: int| 0 <= i < j < left.len() implies order::text_lt(
                #[trigger] left[i],
                #[trigger] left[j],
            ) by {
                if j == left.len() - 1 {
                    assert(before.contains(left[i])) by {
                        assert(before[i] == left[i]);
                    }
                    assert(n > 1);
                    assert(!order::text_lt(sorted[n - 1], sorted[n - 2]));
                    order::law_text_order_is_total(sorted[n - 2], sorted[n - 1]);
                    if i < before.len() - 1 {
                        assert(order::text_lt(before[i], before[before.len() - 1]));
                        order::law_text_order_is_transitive(
                            left[i],
                            sorted[n - 2],
                            sorted[n - 1],
                        );
                    }
                } else {
                    assert(left[i] == before[i] && left[j] == before[j]);
                }
            }
            assert forall|x: Seq<char>| left.contains(x) <==> longer.contains(x) by {
                if left.contains(x) {
                    let i = choose|i: int| 0 <= i < left.len() && left[i] == x;
                    if i < before.len() {
                        assert(before[i] == x);
                        assert(before.contains(x));
                        assert(shorter.contains(x));
                        let k = choose|k: int| 0 <= k < shorter.len() && shorter[k] == x;
                        assert(longer[k] == x);
                    } else {
                        assert(longer[n - 1] == x);
                    }
                }
                if longer.contains(x) {
                    let k = choose|k: int| 0 <= k < longer.len() && longer[k] == x;
                    if k < n - 1 {
                        assert(shorter[k] == x);
                        assert(shorter.contains(x));
                        assert(before.contains(x));
                        let i = choose|i: int| 0 <= i < before.len() && before[i] == x;
                        assert(left[i] == x);
                    } else {
                        assert(left[left.len() - 1] == x);
                    }
                }
            }
        }
    } else {
        assert(sorted.take(0) =~= seq![]);
    }
}

/// Without `-n`, `sort` prints the lines of its input, all of them, in order. With `-u` it prints
/// each of them once, and with `-r` what it prints without it, the other way round.
pub proof fn law_sort_puts_lines_in_order(
    lines: Seq<Seq<char>>,
    numbers: Seq<i64>,
    modes: SortModes,
    result: Seq<Seq<char>>,
)
    requires
        !modes.numeric,
        numbers.len() == lines.len(),
        is_sorted_output(lines, numbers, modes, result),
    ensures
        !modes.reverse && !modes.unique ==> in_order(result) && result.to_multiset()
            == lines.to_multiset(),
        !modes.reverse && modes.unique ==> in_strict_order(result) && forall|x: Seq<char>|
            result.contains(x) <==> lines.contains(x),
        modes.reverse ==> is_sorted_output(
            lines,
            numbers,
            SortModes { reverse: false, ..modes },
            result.reverse(),
        ),
{
    let same = ranks(numbers, modes.numeric);
    let (keys, p) = choose|keys: Seq<SortKey>, p: Seq<int>|
        {
            &&& keyed(keys, lines, ranks(numbers, modes.numeric), modes)
            &&& #[trigger] sorting::orders(keys, p)
            &&& result == sort_result(lines, ranks(numbers, modes.numeric), modes, p)
        };
    let sorted = arranged(lines, p);
    lemma_arranged_is_permutation(keys, p, lines);
    lemma_arranged_in_order(keys, p, lines, same, modes);
    lemma_deduplicated(sorted, arranged_numbers(same, p), sorted.len() as int);
    assert(sorted.take(sorted.len() as int) =~= sorted);
    if modes.reverse {
        let forward = SortModes { reverse: false, ..modes };
        let left = sort_result(lines, same, forward, p);
        assert(result.reverse() =~= left);
    }
}

/// Whether the places in `p` list lines by their numbers, those of one number by their texts.
pub open spec fn lists_by_number(
    lines: Seq<Seq<char>>,
    numbers: Seq<i64>,
    p: Seq<int>,
    result: Seq<Seq<char>>,
) -> bool {
    &&& p.len() == lines.len() == result.len()
    &&& forall|i: int| 0 <= i < p.len() ==> 0 <= #[trigger] p[i] < lines.len()
    &&& forall|i: int| 0 <= i < p.len() ==> #[trigger] result[i] == lines[p[i]]
    &&& forall|i: int, j: int|
        0 <= i < j < p.len() ==> numbers[#[trigger] p[i]] < numbers[#[trigger] p[j]] || (
        numbers[p[i]] == numbers[p[j]] && !order::text_lt(lines[p[j]], lines[p[i]]))
}

/// Whether the places in `q` list the first line of each number, by their numbers.
pub open spec fn lists_first_of_each(
    lines: Seq<Seq<char>>,
    numbers: Seq<i64>,
    q: Seq<int>,
    result: Seq<Seq<char>>,
) -> bool {
    &&& q.len() == result.len()
    &&& forall|k: int| 0 <= k < q.len() ==> 0 <= #[trigger] q[k] < lines.len()
    &&& forall|k: int| 0 <= k < q.len() ==> #[trigger] result[k] == lines[q[k]]
    &&& forall|k: int, m: int|
        0 <= k < m < q.len() ==> numbers[#[trigger] q[k]] < numbers[#[trigger] q[m]]
    &&& forall|i: int|
        0 <= i < lines.len() ==> exists|k: int|
            0 <= k < q.len() && numbers[#[trigger] q[k]] == #[trigger] numbers[i] && q[k] <= i
}

/// With `-n`, `sort` prints all the lines by their numbers, those of one number by their texts.
pub proof fn law_numeric_sort_goes_by_numbers(
    lines: Seq<Seq<char>>,
    numbers: Seq<i64>,
    modes: SortModes,
    result: Seq<Seq<char>>,
)
    requires
        modes.numeric,
        !modes.unique,
        !modes.reverse,
        numbers.len() == lines.len(),
        is_sorted_output(lines, numbers, modes, result),
    ensures
        result.to_multiset() == lines.to_multiset(),
        exists|p: Seq<int>| #[trigger] lists_by_number(lines, numbers, p, result),
{
    let (keys, p) = choose|keys: Seq<SortKey>, p: Seq<int>|
        {
            &&& keyed(keys, lines, ranks(numbers, modes.numeric), modes)
            &&& #[trigger] sorting::orders(keys, p)
            &&& result == sort_result(lines, ranks(numbers, modes.numeric), modes, p)
        };
    lemma_arranged_is_permutation(keys, p, lines);
    assert forall|i: int, j: int| 0 <= i < j < p.len() implies numbers[#[trigger] p[i]]
        < numbers[#[trigger] p[j]] || (numbers[p[i]] == numbers[p[j]] && !order::text_lt(
        lines[p[j]],
        lines[p[i]],
    )) by {
        assert(sorting::before(keys, p[i], p[j]));
        assert(keys[p[i]].number == numbers[p[i]]);
        assert(keys[p[j]].number == numbers[p[j]]);
        order::law_text_order_is_irreflexive(lines[p[i]]);
        if order::text_lt(lines[p[j]], lines[p[i]]) && order::text_lt(lines[p[i]], lines[p[j]]) {
            order::law_text_order_is_transitive(lines[p[i]], lines[p[j]], lines[p[i]]);
        }
    }
    assert(lists_by_number(lines, numbers, p, result));
}

/// With `-n` and `-u`, `sort` prints one line for each number, the first that has it, by their
/// numbers.
pub proof fn law_unique_numeric_sort_keeps_the_first(
    lines: Seq<Seq<char>>,
    numbers: Seq<i64>,
    modes: SortModes,
    result: Seq<Seq<char>>,
)
    requires
        modes.numeric,
        modes.unique,
        !modes.reverse,
        numbers.len() == lines.len(),
        is_sorted_output(lines, numbers, modes, result),
    ensures
        exists|q: Seq<int>| #[trigger] lists_first_of_each(lines, numbers, q, result),
{
    let (keys, p) = choose|keys: Seq<SortKey>, p: Seq<int>|
        {
            &&& keyed(keys, lines, ranks(numbers, modes.numeric), modes)
            &&& #[trigger] sorting::orders(keys, p)
            &&& result == sort_result(lines, ranks(numbers, modes.numeric), modes, p)
        };
    let n = p.len() as int;
    assert forall|i: int, j: int| 0 <= i < j < n implies numbers[#[trigger] p[i]]
        < numbers[#[trigger] p[j]] || (numbers[p[i]] == numbers[p[j]] && p[i] < p[j]) by {
        assert(sorting::before(keys, p[i], p[j]));
        assert(keys[p[i]].number == numbers[p[i]]);
        assert(keys[p[j]].number == numbers[p[j]]);
        order::law_text_order_is_irreflexive(Seq::<char>::empty());
    }
    let q = lemma_first_of_each(lines, numbers, p, n);
    sorting::law_order_covers_every_item(keys, p);
    assert forall|i: int| 0 <= i < lines.len() implies exists|k: int|
        0 <= k < q.len() && numbers[#[trigger] q[k]] == #[trigger] numbers[i] && q[k] <= i by {
        assert(p.contains(i));
        let x = choose|x: int| 0 <= x < p.len() && p[x] == i;
        let k = choose|k: int|
            0 <= k < q.len() && numbers[#[trigger] q[k]] == numbers[p[x]] && q[k] <= p[x];
        assert(numbers[q[k]] == numbers[i] && q[k] <= i);
    }
    assert(lists_first_of_each(lines, numbers, q, result));
}

/// What deduplicating the first `n` lines by their numbers keeps.
proof fn lemma_first_of_each(lines: Seq<Seq<char>>, numbers: Seq<i64>, p: Seq<int>, n: int) -> (q:
    Seq<int>)
    requires
        0 <= n <= p.len(),
        numbers.len() == lines.len(),
        forall|i: int| 0 <= i < p.len() ==> 0 <= #[trigger] p[i] < lines.len(),
        forall|i: int, j: int|
            0 <= i < j < p.len() ==> numbers[#[trigger] p[i]] < numbers[#[trigger] p[j]] || (
            numbers[p[i]] == numbers[p[j]] && p[i] < p[j]),
    ensures
        deduplicated(arranged(lines, p), arranged_numbers(numbers, p), true, n).len() == q.len(),
        forall|k: int| 0 <= k < q.len() ==> 0 <= #[trigger] q[k] < lines.len(),
        forall|k: int|
            0 <= k < q.len() ==> #[trigger] deduplicated(
                arranged(lines, p),
                arranged_numbers(numbers, p),
                true,
                n,
            )[k] == lines[q[k]],
        forall|k: int, m: int|
            0 <= k < m < q.len() ==> numbers[#[trigger] q[k]] < numbers[#[trigger] q[m]],
        forall|x: int|
            0 <= x < n ==> exists|k: int|
                0 <= k < q.len() && numbers[#[trigger] q[k]] == numbers[#[trigger] p[x]] && q[k]
                    <= p[x],
        n > 0 ==> q.len() > 0 && numbers[q.last()] == numbers[p[n - 1]],
    decreases n,
{
    if n == 0 {
        seq![]
    } else {
        let before = lemma_first_of_each(lines, numbers, p, n - 1);
        let sorted = arranged(lines, p);
        let ranked = arranged_numbers(numbers, p);
        let kept = deduplicated(sorted, ranked, true, n - 1);
        if n > 1 && numbers[p[n - 2]] == numbers[p[n - 1]] {
            assert(same_line(sorted, ranked, true, n - 2, n - 1));
            assert forall|x: int| 0 <= x < n implies exists|k: int|
                0 <= k < before.len() && numbers[#[trigger] before[k]] == numbers[#[trigger] p[x]]
                    && before[k] <= p[x] by {
                let y = if x == n - 1 {
                    n - 2
                } else {
                    x
                };
                let k = choose|k: int|
                    0 <= k < before.len() && numbers[#[trigger] before[k]] == numbers[p[y]]
                        && before[k] <= p[y];
                assert(numbers[before[k]] == numbers[p[x]] && before[k] <= p[x]);
            }
            before
        } else {
            let q = before.push(p[n - 1]);
            if n > 1 {
                assert(numbers[p[n - 2]] < numbers[p[n - 1]]);
            }
            assert(!(n > 1 && same_line(sorted, ranked, true, n - 2, n - 1)));
            assert forall|k: int| 0 <= k < q.len() implies #[trigger] deduplicated(
                sorted,
                ranked,
                true,
                n,
            )[k] == lines[q[k]] by {
                if k < before.len() {
                    assert(kept[k] == lines[before[k]]);
                }
            }
            assert forall|k: int, m: int| 0 <= k < m < q.len() implies numbers[#[trigger] q[k]]
                < numbers[#[trigger] q[m]] by {
                if m == before.len() {
                    assert(numbers[before.last()] == numbers[p[n - 2]]);
                    if k < before.len() - 1 {
                        assert(numbers[before[k]] < numbers[before[before.len() - 1]]);
                    }
                } else {
                    assert(numbers[before[k]] < numbers[before[m]]);
                }
            }
            assert forall|x: int| 0 <= x < n implies exists|k: int|
                0 <= k < q.len() && numbers[#[trigger] q[k]] == numbers[#[trigger] p[x]] && q[k]
                    <= p[x] by {
                if x == n - 1 {
                    assert(numbers[q[q.len() - 1]] == numbers[p[x]]);
                } else {
                    let k = choose|k: int|
                        0 <= k < before.len() && numbers[#[trigger] before[k]] == numbers[p[x]]
                            && before[k] <= p[x];
                    assert(q[k] == before[k]);
                }
            }
            q
        }
    }
}

/// The number that a line is sorted by is the one that it starts with: behind white space, a minus
/// sign or none, digits, and a point with more digits or none. What follows is no part of it.
pub proof fn law_lines_start_with_their_numbers(
    blanks: Seq<char>,
    minus: bool,
    digits: Seq<char>,
    fraction: Option<Seq<char>>,
    behind: Seq<char>,
)
    requires
        forall|i: int|
            0 <= i < blanks.len() ==> #[trigger] blanks[i] == ' ' || blanks[i] == '\t',
        digits.len() > 0,
        forall|i: int| 0 <= i < digits.len() ==> '0' <= #[trigger] digits[i] <= '9',
        fraction matches Some(more) ==> forall|i: int|
            0 <= i < more.len() ==> '0' <= #[trigger] more[i] <= '9',
        behind.len() > 0 ==> !('0' <= behind[0] <= '9'),
        behind.len() > 0 && fraction is None ==> behind[0] != '.',
    ensures
        ({
            let number = (if minus {
                seq!['-']
            } else {
                seq![]
            }) + digits + (match fraction {
                Some(more) => seq!['.'] + more,
                None => seq![],
            });
            leading_number(blanks + number + behind) == Some(number)
        }),
{
    let sign = if minus {
        seq!['-']
    } else {
        seq![]
    };
    let tail = match fraction {
        Some(more) => seq!['.'] + more,
        None => seq![],
    };
    let number = sign + digits + tail;
    let s = blanks + number + behind;
    let from = blanks.len() as int;
    let start = from + sign.len();
    let whole = start + digits.len();
    let end = from + number.len();
    assert(digits[0] == s[start]);
    assert(!text::is_space(s[from])) by {
        assert(s[from] == number[0]);
        if minus {
            assert(number[0] == '-');
        } else {
            assert(number[0] == digits[0]);
        }
    }
    lemma_blanks_until(s, 0, from);
    assert(number_digits(s, from) == start) by {
        assert(s[from] == number[0]);
    }
    assert forall|i: int| start <= i < whole implies text::is_digit(#[trigger] s[i]) by {
        assert(s[i] == digits[i - start]);
    }
    match fraction {
        Some(more) => {
            assert(s[whole] == tail[0]);
            assert forall|i: int| whole + 1 <= i < end implies text::is_digit(#[trigger] s[i]) by {
                assert(s[i] == tail[i - whole]);
                assert(s[i] == more[i - whole - 1]);
            }
            if end < s.len() {
                assert(s[end] == behind[0]);
            }
            lemma_digits_until(s, whole + 1, end);
        },
        None => {
            if whole < s.len() {
                assert(s[whole] == behind[0]);
            }
        },
    }
    lemma_digits_until(s, start, whole);
    assert(number_end(s, from) == end);
    assert(s.subrange(from, end) =~= number);
}

/// A line that starts with no digit, behind white space and a minus sign or a point, has none.
pub proof fn law_other_lines_have_no_number(blanks: Seq<char>, minus: bool, behind: Seq<char>)
    requires
        forall|i: int|
            0 <= i < blanks.len() ==> #[trigger] blanks[i] == ' ' || blanks[i] == '\t',
        behind.len() > 0 ==> !('0' <= behind[0] <= '9') && behind[0] != '.' && behind[0] != '-'
            && !text::is_space(behind[0]),
    ensures
        leading_number(
            blanks + (if minus {
                seq!['-']
            } else {
                seq![]
            }) + behind,
        ) is None,
{
    let sign = if minus {
        seq!['-']
    } else {
        seq![]
    };
    let s = blanks + sign + behind;
    let from = blanks.len() as int;
    let start = from + sign.len();
    if from < s.len() {
        if minus {
            assert(s[from] == sign[0]);
        } else {
            assert(s[from] == behind[0]);
        }
    }
    lemma_blanks_until(s, 0, from);
    if start < s.len() {
        assert(s[start] == behind[0]);
    }
    lemma_digits_until(s, start, start);
}

proof fn lemma_blanks_until(s: Seq<char>, i: int, end: int)
    requires
        0 <= i <= end <= s.len(),
        forall|k: int| i <= k < end ==> #[trigger] s[k] == ' ' || s[k] == '\t',
        end < s.len() ==> !text::is_space(s[end]),
    ensures
        blanks_end(s, i) == end,
    decreases end - i,
{
    if i < end {
        assert(s[i] == ' ' || s[i] == '\t');
        lemma_blanks_until(s, i + 1, end);
    }
}

proof fn lemma_digits_until(s: Seq<char>, i: int, end: int)
    requires
        0 <= i <= end <= s.len(),
        forall|k: int| i <= k < end ==> text::is_digit(#[trigger] s[k]),
        end < s.len() ==> !text::is_digit(s[end]),
    ensures
        crate::shell::lex::digits_end(s, i) == end,
    decreases end - i,
{
    if i < end {
        assert(text::is_digit(s[i]));
        lemma_digits_until(s, i + 1, end);
    }
}

/// Printed lines are the lines, one behind the other, each with a newline behind it.
pub proof fn law_lines_are_printed_in_turn(a: Seq<Seq<char>>, b: Seq<Seq<char>>)
    ensures
        ended_lines(a + b, (a + b).len() as int) == ended_lines(a, a.len() as int) + ended_lines(
            b,
            b.len() as int,
        ),
        a.len() == 1 ==> ended_lines(a, 1) == a[0].push('\n'),
        a.len() == 0 ==> ended_lines(a, 0).len() == 0,
{
    lemma_ended_lines(a, b, b.len() as int);
    if a.len() == 1 {
        reveal_with_fuel(ended_lines, 2);
        assert(ended_lines(a, 1) =~= a[0].push('\n'));
    }
}

proof fn lemma_ended_front(a: Seq<Seq<char>>, b: Seq<Seq<char>>, n: int)
    requires
        0 <= n <= a.len(),
    ensures
        ended_lines(a + b, n) == ended_lines(a, n),
    decreases n,
{
    if n > 0 {
        lemma_ended_front(a, b, n - 1);
        assert((a + b)[n - 1] == a[n - 1]);
    }
}

proof fn lemma_ended_lines(a: Seq<Seq<char>>, b: Seq<Seq<char>>, n: int)
    requires
        0 <= n <= b.len(),
    ensures
        ended_lines(a + b, a.len() + n) == ended_lines(a, a.len() as int) + ended_lines(b, n),
    decreases n,
{
    let front = ended_lines(a, a.len() as int);
    if n == 0 {
        lemma_ended_front(a, b, a.len() as int);
        assert(front + ended_lines(b, 0) =~= front);
    } else {
        lemma_ended_lines(a, b, n - 1);
        assert((a + b)[a.len() + n - 1] == b[n - 1]);
        assert((front + ended_lines(b, n - 1)) + b[n - 1] + seq!['\n'] =~= front + (ended_lines(
            b,
            n - 1,
        ) + b[n - 1] + seq!['\n']));
    }
}

/// Each letter of `sort` switches on what it stands for and nothing else, wherever it stands.
pub proof fn law_sort_letters_add_up(a: Seq<char>, b: Seq<char>)
    ensures
        ({
            let x = sort_modes(a);
            let y = sort_modes(b);
            sort_modes(a + b) == (SortModes {
                reverse: x.reverse || y.reverse,
                numeric: x.numeric || y.numeric,
                unique: x.unique || y.unique,
            })
        }),
        forall|c: char|
            #[trigger] sort_modes(seq![c]) == (SortModes {
                reverse: c == 'r',
                numeric: c == 'n',
                unique: c == 'u',
            }),
{
    flags::lemma_contains_concat(a, b, 'r');
    flags::lemma_contains_concat(a, b, 'n');
    flags::lemma_contains_concat(a, b, 'u');
    assert forall|c: char|
        #[trigger] sort_modes(seq![c]) == (SortModes {
            reverse: c == 'r',
            numeric: c == 'n',
            unique: c == 'u',
        }) by {
        flags::lemma_contains_one(c);
    }
}

} // verus!
