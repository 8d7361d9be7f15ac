//! Expansion: from words to fields, with the variables of an environment.

use vstd::prelude::*;

use crate::env::Env;
use crate::shell::{Assignment, Segment, Word};
use crate::shell::{AssignmentView, SegmentView};
use crate::text;

verus! {

/// The value of a parameter: the last status for `?`, and nothing for a name that is not set.
pub open spec fn parameter(name: Seq<char>, env: Map<Seq<char>, Seq<char>>, status: int) -> Seq<
    char,
> {
    if name == seq!['?'] {
        text::integer_text(status)
    } else if env.dom().contains(name) {
        env[name]
    } else {
        seq![]
    }
}

/// What a segment stands for.
pub open spec fn segment_text(
    segment: SegmentView,
    env: Map<Seq<char>, Seq<char>>,
    status: int,
) -> Seq<char> {
    match segment {
        SegmentView::Literal { value, .. } => value,
        SegmentView::Expansion { name, .. } => parameter(name, env, status),
    }
}

/// What the first `n` segments of a word stand for, without splitting.
pub open spec fn joined_text(
    word: Seq<SegmentView>,
    n: int,
    env: Map<Seq<char>, Seq<char>>,
    status: int,
) -> Seq<char>
    decreases n,
{
    if n <= 0 {
        seq![]
    } else {
        joined_text(word, n - 1, env, status) + segment_text(word[n - 1], env, status)
    }
}

/// What a word stands for as the value of an assignment.
pub open spec fn assignment_text(
    word: Seq<SegmentView>,
    env: Map<Seq<char>, Seq<char>>,
    status: int,
) -> Seq<char> {
    joined_text(word, word.len() as int, env, status)
}

/// The characters that split the values of unquoted expansions.
pub open spec fn separator(c: char) -> bool {
    c == ' ' || c == '\t' || c == '\n'
}

pub fn is_separator(c: char) -> (r: bool)
    ensures
        r == separator(c),
{
    c == ' ' || c == '\t' || c == '\n'
}

/// The first index from `i` on that holds no separator.
pub open spec fn spaces_end(s: Seq<char>, i: int) -> int
    decreases s.len() - i,
{
    if 0 <= i < s.len() && separator(s[i]) {
        spaces_end(s, i + 1)
    } else {
        i
    }
}

/// The first index from `i` on that holds a separator.
pub open spec fn part_end(s: Seq<char>, i: int) -> int
    decreases s.len() - i,
{
    if 0 <= i < s.len() && !separator(s[i]) {
        part_end(s, i + 1)
    } else {
        i
    }
}

pub proof fn lemma_ends(s: Seq<char>, i: int)
    requires
        0 <= i <= s.len(),
    ensures
        i <= spaces_end(s, i) <= s.len(),
        i <= part_end(s, i) <= s.len(),
        spaces_end(s, i) < s.len() ==> !separator(s[spaces_end(s, i)]),
        i < s.len() && !separator(s[i]) ==> i < part_end(s, i),
    decreases s.len() - i,
{
    if i < s.len() {
        lemma_ends(s, i + 1);
    }
}

/// The parts between separators from `i` on.
pub open spec fn parts_from(s: Seq<char>, i: int) -> Seq<Seq<char>>
    decreases s.len() - i,
{
    if i < 0 || spaces_end(s, i) >= s.len() {
        seq![]
    } else {
        let from = spaces_end(s, i);
        let to = part_end(s, from);
        proof {
            lemma_ends(s, i);
            lemma_ends(s, from);
        }
        seq![s.subrange(from, to)] + parts_from(s, to)
    }
}

/// The parts of a text between separators.
pub open spec fn parts(s: Seq<char>) -> Seq<Seq<char>> {
    parts_from(s, 0)
}

/// The fields of a word while its segments are read; the last is the one that is being filled.
#[verifier::ext_equal]
pub struct Fields {
    pub fields: Seq<Seq<char>>,
    /// Whether the last field counts even if it is empty.
    pub keep: bool,
}

pub open spec fn append_last(fields: Seq<Seq<char>>, value: Seq<char>) -> Seq<Seq<char>> {
    fields.drop_last().push(fields.last() + value)
}

/// The fields after an unquoted expansion: separators in its value end them.
pub open spec fn split_into(state: Fields, value: Seq<char>) -> Fields {
    let p = parts(value);
    if p.len() == 0 {
        if value.len() > 0 && state.keep {
            Fields { fields: state.fields.push(seq![]), keep: false }
        } else {
            state
        }
    } else {
        let opened = if separator(value[0]) && state.keep {
            state.fields.push(seq![])
        } else {
            state.fields
        };
        let filled = append_last(opened, p[0]) + p.skip(1);
        if separator(value.last()) {
            Fields { fields: filled.push(seq![]), keep: false }
        } else {
            Fields { fields: filled, keep: true }
        }
    }
}

pub open spec fn fields_step(
    state: Fields,
    segment: SegmentView,
    env: Map<Seq<char>, Seq<char>>,
    status: int,
) -> Fields {
    let value = segment_text(segment, env, status);
    match segment {
        SegmentView::Expansion { quoted: false, .. } => split_into(state, value),
        _ => Fields { fields: append_last(state.fields, value), keep: true },
    }
}

/// The fields after the first `n` segments of a word.
pub open spec fn fields_after(
    word: Seq<SegmentView>,
    n: int,
    env: Map<Seq<char>, Seq<char>>,
    status: int,
) -> Fields
    decreases n,
{
    if n <= 0 {
        Fields { fields: seq![seq![]], keep: false }
    } else {
        fields_step(fields_after(word, n - 1, env, status), word[n - 1], env, status)
    }
}

/// The fields that a word expands to.
pub open spec fn word_fields(
    word: Seq<SegmentView>,
    env: Map<Seq<char>, Seq<char>>,
    status: int,
) -> Seq<Seq<char>> {
    let state = fields_after(word, word.len() as int, env, status);
    if state.keep {
        state.fields
    } else {
        state.fields.drop_last()
    }
}

/// The fields that the first `n` words expand to.
pub open spec fn words_fields(
    words: Seq<Seq<SegmentView>>,
    n: int,
    env: Map<Seq<char>, Seq<char>>,
    status: int,
) -> Seq<Seq<char>>
    decreases n,
{
    if n <= 0 {
        seq![]
    } else {
        words_fields(words, n - 1, env, status) + word_fields(words[n - 1], env, status)
    }
}

/// The variables after the first `n` assignments: each value sees the assignments before it.
pub open spec fn env_after(
    assignments: Seq<AssignmentView>,
    n: int,
    base: Map<Seq<char>, Seq<char>>,
    status: int,
) -> Map<Seq<char>, Seq<char>>
    decreases n,
{
    if n <= 0 {
        base
    } else {
        let before = env_after(assignments, n - 1, base, status);
        before.insert(
            assignments[n - 1].name,
            assignment_text(assignments[n - 1].value, before, status),
        )
    }
}

/// The names and values that assignments set, each read with those before it.
pub open spec fn assigned_pairs(
    assignments: Seq<AssignmentView>,
    env: Map<Seq<char>, Seq<char>>,
    status: int,
) -> Seq<(Seq<char>, Seq<char>)> {
    Seq::new(
        assignments.len(),
        |i: int|
            (
                assignments[i].name,
                assignment_text(
                    assignments[i].value,
                    env_after(assignments, i, env, status),
                    status,
                ),
            ),
    )
}

pub open spec fn string_pairs_view(v: Seq<(String, String)>) -> Seq<(Seq<char>, Seq<char>)> {
    v.map_values(|p: (String, String)| (p.0@, p.1@))
}

/// The value of a parameter.
pub fn expansion_value(name: &str, env: &Env, last_status: i32) -> (r: String)
    ensures
        r@ == parameter(name@, env@, last_status as int),
{
    proof {
        reveal_strlit("?");
        assert("?"@ =~= seq!['?']);
    }
    if text::str_eq(name, "?") {
        text::integer(last_status as i64)
    } else {
        match env.get(name) {
            Some(value) => value.clone(),
            None => {
                let r = String::new();
                proof {
                    assert(r@ =~= seq![]);
                }
                r
            },
        }
    }
}

/// What a segment stands for.
pub fn segment_value(segment: &Segment, env: &Env, last_status: i32) -> (r: String)
    ensures
        r@ == segment_text(segment@, env@, last_status as int),
{
    match segment {
        Segment::Literal { value, .. } => value.clone(),
        Segment::Expansion { name, .. } => expansion_value(name.as_str(), env, last_status),
    }
}

/// What a word stands for as the value of an assignment.
pub fn expand_assignment_value(word: &Word, env: &Env, last_status: i32) -> (r: String)
    ensures
        r@ == assignment_text(word@, env@, last_status as int),
{
    let mut out = String::new();
    let mut i: usize = 0;
    proof {
        assert(out@ =~= seq![]);
    }
    while i < word.segments.len()
        invariant
            i <= word.segments@.len(),
            out@ == joined_text(word@, i as int, env@, last_status as int),
        decreases word.segments@.len() - i,
    {
        let value = segment_value(&word.segments[i], env, last_status);
        proof {
            assert(word@[i as int] == word.segments@[i as int]@);
        }
        out.append(value.as_str());
        i = i + 1;
    }
    out
}

/// The parts of a text between separators.
pub fn split_fields(value: &str) -> (r: Vec<String>)
    ensures
        text::texts(r@) == parts(value@),
{
    let chars = text::to_chars(value);
    let mut r: Vec<String> = Vec::new();
    let mut i: usize = 0;
    proof {
        assert(text::texts(r@) =~= seq![]);
        assert(text::texts(r@) + parts_from(chars@, 0) =~= parts_from(chars@, 0));
    }
    loop
        invariant
            i <= chars@.len(),
            chars@ == value@,
            text::texts(r@) + parts_from(chars@, i as int) == parts(value@),
        decreases chars@.len() - i,
    {
        let mut from: usize = i;
        while from < chars.len() && is_separator(chars[from])
            invariant
                i <= from <= chars@.len(),
                spaces_end(chars@, from as int) == spaces_end(chars@, i as int),
            decreases chars@.len() - from,
        {
            from = from + 1;
        }
        if from >= chars.len() {
            proof {
                assert(text::texts(r@) + seq![] =~= text::texts(r@));
            }
            return r;
        }
        let mut to: usize = from;
        while to < chars.len() && !is_separator(chars[to])
            invariant
                from <= to <= chars@.len(),
                part_end(chars@, to as int) == part_end(chars@, from as int),
            decreases chars@.len() - to,
        {
            to = to + 1;
        }
        proof {
            lemma_ends(chars@, from as int);
        }
        let ghost before = r@;
        let part = text::from_range(&chars, from, to);
        r.push(part);
        proof {
            assert(text::texts(r@) =~= text::texts(before).push(part@));
            assert(text::texts(before) + (seq![part@] + parts_from(chars@, to as int))
                =~= text::texts(r@) + parts_from(chars@, to as int));
        }
        i = to;
    }
}

fn append_to_last(fields: &mut Vec<String>, value: &str)
    requires
        old(fields)@.len() > 0,
    ensures
        text::texts(final(fields)@) == append_last(text::texts(old(fields)@), value@),
        final(fields)@.len() == old(fields)@.len(),
{
    let ghost before = fields@;
    match fields.pop() {
        Some(last) => {
            let mut last = last;
            last.append(value);
            fields.push(last);
            proof {
                assert(text::texts(fields@) =~= append_last(text::texts(before), value@));
            }
        },
        None => {},
    }
}

fn push_empty(fields: &mut Vec<String>)
    ensures
        text::texts(final(fields)@) == text::texts(old(fields)@).push(seq![]),
        final(fields)@.len() == old(fields)@.len() + 1,
{
    let ghost before = fields@;
    let empty = String::new();
    fields.push(empty);
    proof {
        assert(empty@ =~= seq![]);
        assert(text::texts(fields@) =~= text::texts(before).push(empty@));
    }
}

/// Adds the value of an unquoted expansion to the fields; the result says whether the last one
/// counts even if it is empty.
fn split_value(fields: &mut Vec<String>, keep: bool, value: &str) -> (r: bool)
    requires
        old(fields)@.len() > 0,
    ensures
        split_into(Fields { fields: text::texts(old(fields)@), keep }, value@) == (Fields {
            fields: text::texts(final(fields)@),
            keep: r,
        }),
        final(fields)@.len() > 0,
{
    let chars = text::to_chars(value);
    let pieces = split_fields(value);
    proof {
        assert(pieces@.len() == parts(value@).len());
    }
    if pieces.len() == 0 {
        if chars.len() > 0 && keep {
            push_empty(fields);
            return false;
        }
        return keep;
    }
    proof {
        lemma_parts_of_nothing(value@);
    }
    if is_separator(chars[0]) && keep {
        push_empty(fields);
    }
    let ghost opened = text::texts(fields@);
    proof {
        assert(parts(value@)[0] == pieces@[0]@);
    }
    append_to_last(fields, pieces[0].as_str());
    let ghost first = text::texts(fields@);
    let mut i: usize = 1;
    proof {
        assert(first + parts(value@).subrange(1, 1) =~= first);
    }
    while i < pieces.len()
        invariant
            1 <= i <= pieces@.len(),
            text::texts(pieces@) == parts(value@),
            fields@.len() > 0,
            text::texts(fields@) == first + parts(value@).subrange(1, i as int),
        decreases pieces@.len() - i,
    {
        let ghost before = fields@;
        let piece = pieces[i].clone();
        fields.push(piece);
        proof {
            assert(text::texts(fields@) =~= text::texts(before).push(piece@));
            assert(parts(value@)[i as int] == pieces@[i as int]@);
            assert(text::texts(fields@) =~= first + parts(value@).subrange(1, i + 1));
        }
        i = i + 1;
    }
    proof {
        assert(parts(value@).subrange(1, i as int) =~= parts(value@).skip(1));
    }
    if is_separator(chars[chars.len() - 1]) {
        push_empty(fields);
        return false;
    }
    true
}

proof fn lemma_parts_of_nothing(s: Seq<char>)
    ensures
        s.len() == 0 ==> parts(s).len() == 0,
{
}

/// The fields that a word expands to: separators split the values of unquoted expansions.
pub fn expand_word(word: &Word, env: &Env, last_status: i32) -> (r: Vec<String>)
    ensures
        text::texts(r@) == word_fields(word@, env@, last_status as int),
{
    let mut fields: Vec<String> = Vec::new();
    proof {
        assert(text::texts(fields@) =~= seq![]);
    }
    push_empty(&mut fields);
    let mut keep = false;
    let mut i: usize = 0;
    proof {
        assert(text::texts(fields@) =~= seq![seq![]]);
    }
    while i < word.segments.len()
        invariant
            i <= word.segments@.len(),
            fields@.len() > 0,
            fields_after(word@, i as int, env@, last_status as int) == (Fields {
                fields: text::texts(fields@),
                keep,
            }),
        decreases word.segments@.len() - i,
    {
        let segment = &word.segments[i];
        let value = segment_value(segment, env, last_status);
        proof {
            assert(word@[i as int] == segment@);
        }
        match segment {
            Segment::Expansion { quoted: false, .. } => {
                keep = split_value(&mut fields, keep, value.as_str());
            },
            _ => {
                append_to_last(&mut fields, value.as_str());
                keep = true;
            },
        }
        i = i + 1;
    }
    if !keep {
        let ghost before = fields@;
        let _ = fields.pop();
        proof {
            assert(text::texts(fields@) =~= text::texts(before).drop_last());
        }
    }
    fields
}

/// The fields that words expand to.
pub fn expand_words(words: &Vec<Word>, env: &Env, last_status: i32) -> (r: Vec<String>)
    ensures
        text::texts(r@) == words_fields(
            crate::shell::words_view(words@),
            words@.len() as int,
            env@,
            last_status as int,
        ),
{
    let mut r: Vec<String> = Vec::new();
    let mut i: usize = 0;
    proof {
        assert(text::texts(r@) =~= seq![]);
    }
    while i < words.len()
        invariant
            i <= words@.len(),
            text::texts(r@) == words_fields(
                crate::shell::words_view(words@),
                i as int,
                env@,
                last_status as int,
            ),
        decreases words@.len() - i,
    {
        let mut fields = expand_word(&words[i], env, last_status);
        let ghost before = r@;
        let ghost added = fields@;
        r.append(&mut fields);
        proof {
            assert(crate::shell::words_view(words@)[i as int] == words@[i as int]@);
            assert(text::texts(r@) =~= text::texts(before) + text::texts(added));
        }
        i = i + 1;
    }
    r
}

/// The names and values that assignments set. Each value sees the assignments before it.
pub fn expand_assignments(assignments: &Vec<Assignment>, env: &Env, last_status: i32) -> (r: Vec<
    (String, String),
>)
    ensures
        string_pairs_view(r@) == assigned_pairs(
            crate::shell::assignments_view(assignments@),
            env@,
            last_status as int,
        ),
{
    let ghost view = crate::shell::assignments_view(assignments@);
    let ghost all = assigned_pairs(view, env@, last_status as int);
    let mut seen = env.clone();
    let mut r: Vec<(String, String)> = Vec::new();
    let mut i: usize = 0;
    proof {
        assert(string_pairs_view(r@) =~= all.take(0));
    }
    while i < assignments.len()
        invariant
            i <= assignments@.len(),
            view == crate::shell::assignments_view(assignments@),
            all == assigned_pairs(view, env@, last_status as int),
            seen@ == env_after(view, i as int, env@, last_status as int),
            string_pairs_view(r@) == all.take(i as int),
        decreases assignments@.len() - i,
    {
        let assignment = &assignments[i];
        let value = expand_assignment_value(&assignment.value, &seen, last_status);
        seen.insert(assignment.name.clone(), value.clone());
        let pair = (assignment.name.clone(), value);
        let ghost before = r@;
        r.push(pair);
        proof {
            assert(view[i as int] == assignment@);
            assert(string_pairs_view(r@) =~= string_pairs_view(before).push((pair.0@, pair.1@)));
            assert(all.take(i + 1) =~= all.take(i as int).push(all[i as int]));
        }
        i = i + 1;
    }
    proof {
        assert(all.take(i as int) =~= all);
    }
    r
}

/// Whether the value of a segment is split into fields.
pub open spec fn is_split(segment: SegmentView) -> bool {
    segment matches SegmentView::Expansion { quoted: false, .. }
}

proof fn lemma_unsplit_fields(
    word: Seq<SegmentView>,
    n: int,
    env: Map<Seq<char>, Seq<char>>,
    status: int,
)
    requires
        0 <= n <= word.len(),
        forall|i: int| 0 <= i < n ==> !is_split(#[trigger] word[i]),
    ensures
        fields_after(word, n, env, status) == (Fields {
            fields: seq![joined_text(word, n, env, status)],
            keep: n > 0,
        }),
    decreases n,
{
    if n > 0 {
        lemma_unsplit_fields(word, n - 1, env, status);
        let before = fields_after(word, n - 1, env, status);
        assert(append_last(before.fields, segment_text(word[n - 1], env, status))
            =~= seq![joined_text(word, n, env, status)]);
    }
}

/// A word that holds quoted parts and literal text only is one field, whatever its variables
/// hold: no separator in them splits it, and nothing in them makes it vanish.
pub proof fn law_quoted_words_stay_whole(
    word: Seq<SegmentView>,
    env: Map<Seq<char>, Seq<char>>,
    status: int,
)
    requires
        word.len() > 0,
        forall|i: int| 0 <= i < word.len() ==> !is_split(#[trigger] word[i]),
    ensures
        word_fields(word, env, status) == seq![assignment_text(word, env, status)],
{
    lemma_unsplit_fields(word, word.len() as int, env, status);
}

/// A word that is one unquoted expansion becomes the parts of its value between separators; where
/// there are none, the word vanishes.
pub proof fn law_unquoted_words_are_split(
    segment: SegmentView,
    env: Map<Seq<char>, Seq<char>>,
    status: int,
)
    requires
        is_split(segment),
    ensures
        word_fields(seq![segment], env, status) == parts(segment_text(segment, env, status)),
{
    let value = segment_text(segment, env, status);
    let p = parts(value);
    let start = Fields { fields: seq![Seq::<char>::empty()], keep: false };
    assert(fields_after(seq![segment], 0, env, status) == start);
    assert(fields_after(seq![segment], 1, env, status) == split_into(start, value));
    if p.len() == 0 {
        assert(start.fields.drop_last() =~= p);
    } else {
        let filled = append_last(start.fields, p[0]) + p.skip(1);
        assert(filled =~= p);
        assert(p.push(seq![]).drop_last() =~= p);
    }
}

/// A quoted part keeps a field even where it is empty: a separator behind it ends that field.
pub proof fn law_quoted_parts_are_kept(
    quoted: SegmentView,
    segment: SegmentView,
    env: Map<Seq<char>, Seq<char>>,
    status: int,
)
    requires
        !is_split(quoted),
        is_split(segment),
        segment_text(segment, env, status).len() > 0,
        separator(segment_text(segment, env, status)[0]),
    ensures
        word_fields(seq![quoted, segment], env, status) == seq![
            segment_text(quoted, env, status),
        ] + parts(segment_text(segment, env, status)),
{
    let word = seq![quoted, segment];
    let value = segment_text(segment, env, status);
    let front = segment_text(quoted, env, status);
    let p = parts(value);
    lemma_unsplit_fields(seq![quoted], 1, env, status);
    assert(joined_text(seq![quoted], 0, env, status) + front =~= front);
    assert(joined_text(seq![quoted], 1, env, status) == front);
    assert(word[0] == quoted && word[1] == segment);
    reveal_with_fuel(fields_after, 3);
    let first = Fields { fields: seq![front], keep: true };
    assert(fields_after(word, 1, env, status).fields =~= first.fields) by {
        assert(append_last(seq![seq![]], front) =~= seq![front]);
    }
    assert(fields_after(word, 2, env, status) == split_into(first, value));
    let opened = first.fields.push(seq![]);
    if p.len() == 0 {
        assert(opened.drop_last() =~= seq![front] + p);
    } else {
        let filled = append_last(opened, p[0]) + p.skip(1);
        assert(filled =~= seq![front] + p);
        assert(filled.push(seq![]).drop_last() =~= filled);
    }
}

// ---- what splitting comes to ----

proof fn lemma_spaces_shift(a: Seq<char>, b: Seq<char>, i: int)
    requires
        0 <= i <= b.len(),
    ensures
        spaces_end(a + b, a.len() + i) == a.len() + spaces_end(b, i),
    decreases b.len() - i,
{
    if i < b.len() {
        assert((a + b)[a.len() + i] == b[i]);
        lemma_spaces_shift(a, b, i + 1);
    }
}

proof fn lemma_part_shift(a: Seq<char>, b: Seq<char>, i: int)
    requires
        0 <= i <= b.len(),
    ensures
        part_end(a + b, a.len() + i) == a.len() + part_end(b, i),
    decreases b.len() - i,
{
    if i < b.len() {
        assert((a + b)[a.len() + i] == b[i]);
        lemma_part_shift(a, b, i + 1);
    }
}

proof fn lemma_parts_shift(a: Seq<char>, b: Seq<char>, i: int)
    requires
        0 <= i <= b.len(),
    ensures
        parts_from(a + b, a.len() + i) == parts_from(b, i),
    decreases b.len() - i,
{
    lemma_spaces_shift(a, b, i);
    lemma_ends(b, i);
    let from = spaces_end(b, i);
    if from < b.len() {
        lemma_part_shift(a, b, from);
        lemma_ends(b, from);
        let to = part_end(b, from);
        lemma_parts_shift(a, b, to);
        assert((a + b).subrange(a.len() + from, a.len() + to) =~= b.subrange(from, to));
    }
}

/// What comes in front of a separator is split by itself.
proof fn lemma_spaces_before(a: Seq<char>, c: char, b: Seq<char>, i: int)
    requires
        0 <= i <= a.len(),
        separator(c),
    ensures
        spaces_end(a, i) < a.len() ==> spaces_end(a + seq![c] + b, i) == spaces_end(a, i),
        spaces_end(a, i) >= a.len() ==> spaces_end(a + seq![c] + b, i) == a.len() + 1 + spaces_end(
            b,
            0,
        ),
    decreases a.len() - i,
{
    let s = a + seq![c] + b;
    if i < a.len() {
        assert(s[i] == a[i]);
        lemma_spaces_before(a, c, b, i + 1);
    } else {
        assert(s[i] == c);
        lemma_spaces_shift(a + seq![c], b, 0);
    }
}

proof fn lemma_part_before(a: Seq<char>, c: char, b: Seq<char>, i: int)
    requires
        0 <= i <= a.len(),
        separator(c),
    ensures
        part_end(a + seq![c] + b, i) == part_end(a, i),
    decreases a.len() - i,
{
    let s = a + seq![c] + b;
    if i < a.len() {
        assert(s[i] == a[i]);
        lemma_part_before(a, c, b, i + 1);
    } else {
        assert(s[i] == c);
    }
}

proof fn lemma_parts_before(a: Seq<char>, c: char, b: Seq<char>, i: int)
    requires
        0 <= i <= a.len(),
        separator(c),
    ensures
        parts_from(a + seq![c] + b, i) == parts_from(a, i) + parts(b),
    decreases a.len() - i,
{
    let s = a + seq![c] + b;
    lemma_spaces_before(a, c, b, i);
    lemma_ends(a, i);
    let from = spaces_end(a, i);
    if from < a.len() {
        lemma_part_before(a, c, b, from);
        lemma_ends(a, from);
        let to = part_end(a, from);
        lemma_parts_before(a, c, b, to);
        assert(s.subrange(from, to) =~= a.subrange(from, to));
        assert(parts_from(s, i) =~= parts_from(a, i) + parts(b));
    } else {
        lemma_ends(b, 0);
        let next = a.len() + 1 + spaces_end(b, 0);
        if next < s.len() {
            lemma_part_shift(a + seq![c], b, spaces_end(b, 0));
            lemma_ends(b, spaces_end(b, 0));
            let to = part_end(b, spaces_end(b, 0));
            lemma_parts_shift(a + seq![c], b, to);
            assert(s.subrange(next, a.len() + 1 + to) =~= b.subrange(spaces_end(b, 0), to));
        }
        assert(parts_from(s, i) =~= parts(b));
        assert(parts_from(a, i) + parts(b) =~= parts(b));
    }
}

/// A separator parts a text: what stands before it and what stands behind it are split apart.
pub proof fn law_separators_part_texts(a: Seq<char>, c: char, b: Seq<char>)
    requires
        separator(c),
    ensures
        parts(a + seq![c] + b) == parts(a) + parts(b),
{
    lemma_parts_before(a, c, b, 0);
}

proof fn lemma_whole_part(s: Seq<char>, i: int)
    requires
        0 <= i <= s.len(),
        forall|k: int| i <= k < s.len() ==> !separator(#[trigger] s[k]),
    ensures
        part_end(s, i) == s.len(),
    decreases s.len() - i,
{
    if i < s.len() {
        lemma_whole_part(s, i + 1);
    }
}

/// A text without separators is one part, or none where it is empty.
pub proof fn law_texts_without_separators_are_one_part(s: Seq<char>)
    requires
        forall|k: int| 0 <= k < s.len() ==> !separator(#[trigger] s[k]),
    ensures
        s.len() > 0 ==> parts(s) == seq![s],
        s.len() == 0 ==> parts(s) == Seq::<Seq<char>>::empty(),
{
    if s.len() > 0 {
        lemma_whole_part(s, 0);
        assert(spaces_end(s, 0) == 0);
        assert(s.subrange(0, s.len() as int) =~= s);
        assert(parts_from(s, s.len() as int) =~= Seq::<Seq<char>>::empty());
        assert(parts(s) =~= seq![s]);
    }
}

/// The characters that split, and no others: a space, a tab and a newline.
pub proof fn law_three_characters_separate(c: char)
    ensures
        parts(seq!['a', c, 'b']).len() == 2 <==> c == ' ' || c == '\t' || c == '\n',
{
    let s = seq!['a', c, 'b'];
    if separator(c) {
        assert(s =~= seq!['a'] + seq![c] + seq!['b']);
        law_separators_part_texts(seq!['a'], c, seq!['b']);
        law_texts_without_separators_are_one_part(seq!['a']);
        law_texts_without_separators_are_one_part(seq!['b']);
    } else {
        law_texts_without_separators_are_one_part(s);
    }
}

/// Whether the last field is empty where it counts only if it is not.
spec fn sound(state: Fields) -> bool {
    state.fields.len() > 0 && (!state.keep ==> state.fields.last().len() == 0)
}

/// The fields that count.
spec fn counted(state: Fields) -> Seq<Seq<char>> {
    if state.keep {
        state.fields
    } else {
        state.fields.drop_last()
    }
}

spec fn nothing_yet() -> Fields {
    Fields { fields: seq![seq![]], keep: false }
}

proof fn lemma_split_is_sound(state: Fields, value: Seq<char>)
    requires
        sound(state),
    ensures
        sound(split_into(state, value)),
{
    let p = parts(value);
    if p.len() > 0 {
        lemma_parts_of_nothing(value);
    }
}

proof fn lemma_step_is_sound(
    state: Fields,
    segment: SegmentView,
    env: Map<Seq<char>, Seq<char>>,
    status: int,
)
    requires
        sound(state),
    ensures
        sound(fields_step(state, segment, env, status)),
{
    lemma_split_is_sound(state, segment_text(segment, env, status));
}

proof fn lemma_fields_are_sound(
    word: Seq<SegmentView>,
    n: int,
    env: Map<Seq<char>, Seq<char>>,
    status: int,
)
    ensures
        sound(fields_after(word, n, env, status)),
    decreases n,
{
    if n > 0 {
        lemma_fields_are_sound(word, n - 1, env, status);
        let before = fields_after(word, n - 1, env, status);
        lemma_step_is_sound(before, word[n - 1], env, status);
    }
}

/// Fields that have ended stay as they are.
proof fn lemma_ended_fields_stay(front: Seq<Seq<char>>, state: Fields, value: Seq<char>)
    requires
        state.fields.len() > 0,
    ensures
        ({
            let longer = Fields { fields: front + state.fields, keep: state.keep };
            let after = split_into(state, value);
            &&& split_into(longer, value) == (Fields {
                fields: front + after.fields,
                keep: after.keep,
            })
            &&& append_last(longer.fields, value) == front + append_last(state.fields, value)
        }),
{
    let longer = Fields { fields: front + state.fields, keep: state.keep };
    let p = parts(value);
    let none: Seq<char> = seq![];
    assert(append_last(longer.fields, value) =~= front + append_last(state.fields, value));
    assert(longer.fields.push(none) =~= front + state.fields.push(none));
    if p.len() > 0 {
        let opened = if separator(value[0]) && state.keep {
            state.fields.push(none)
        } else {
            state.fields
        };
        assert(append_last(front + opened, p[0]) =~= front + append_last(opened, p[0]));
        let filled = append_last(opened, p[0]) + p.skip(1);
        assert(append_last(front + opened, p[0]) + p.skip(1) =~= front + filled);
        assert((front + filled).push(none) =~= front + filled.push(none));
    }
}

/// A separator in a value ends the field that is being filled.
#[verifier::spinoff_prover]
proof fn lemma_split_at_separator(state: Fields, a: Seq<char>, c: char, b: Seq<char>)
    requires
        sound(state),
        separator(c),
    ensures
        ({
            let rest = split_into(nothing_yet(), b);
            split_into(state, a + seq![c] + b) == (Fields {
                fields: counted(split_into(state, a)) + rest.fields,
                keep: rest.keep,
            })
        }),
{
    let s = a + seq![c] + b;
    let none: Seq<char> = seq![];
    law_separators_part_texts(a, c, b);
    let p = parts(a);
    let q = parts(b);
    let front = split_into(state, a);
    let rest = split_into(nothing_yet(), b);
    lemma_split_is_sound(state, a);
    lemma_parts_of_nothing(a);
    lemma_parts_of_nothing(b);
    lemma_no_parts(a);
    assert(s.len() > 0);
    assert(s[0] == (if a.len() > 0 {
        a[0]
    } else {
        c
    }));
    assert(s.last() == (if b.len() > 0 {
        b.last()
    } else {
        c
    }));
    if p.len() == 0 && q.len() == 0 {
        assert(parts(s) =~= Seq::<Seq<char>>::empty());
        assert(rest == nothing_yet());
        if state.keep {
            assert(counted(front) =~= state.fields);
            assert(state.fields + seq![none] =~= state.fields.push(none));
        } else {
            assert(state.fields.last() =~= none);
            assert(state.fields.drop_last() + seq![none] =~= state.fields);
        }
    } else if p.len() == 0 {
        assert(parts(s) =~= q);
        assert(separator(s[0]));
        let opened = if state.keep {
            state.fields.push(none)
        } else {
            state.fields
        };
        assert(counted(front) =~= (if state.keep {
            state.fields
        } else {
            state.fields.drop_last()
        }));
        assert(opened =~= counted(front) + seq![none]) by {
            if !state.keep {
                assert(state.fields.last() =~= none);
            }
        }
        lemma_ended_fields_stay(counted(front), nothing_yet(), b);
        assert(append_last(opened, q[0]) =~= append_last(counted(front) + seq![none], q[0]));
        assert(append_last(counted(front) + seq![none], q[0]) =~= counted(front) + append_last(
            seq![none],
            q[0],
        ));
        let filled = append_last(seq![none], q[0]) + q.skip(1);
        assert(append_last(opened, q[0]) + q.skip(1) =~= counted(front) + filled);
        assert((counted(front) + filled).push(none) =~= counted(front) + filled.push(none));
    } else {
        assert((p + q)[0] == p[0]);
        let opened = if separator(a[0]) && state.keep {
            state.fields.push(none)
        } else {
            state.fields
        };
        let first = append_last(opened, p[0]) + p.skip(1);
        assert(counted(front) =~= first);
        assert(append_last(opened, p[0]) + (p + q).skip(1) =~= first + q);
        if q.len() == 0 {
            assert(first + q =~= first);
            assert(rest == nothing_yet());
            assert(first.push(none) =~= first + seq![none]);
            lemma_no_parts(b);
            assert(separator(s.last()));
        } else {
            let filled = append_last(seq![none], q[0]) + q.skip(1);
            assert(none + q[0] =~= q[0]);
            assert(filled =~= q);
            assert((first + q).push(none) =~= first + q.push(none));
        }
    }
}

/// A text that has no parts is made of separators.
proof fn lemma_no_parts(s: Seq<char>)
    ensures
        parts(s).len() == 0 && s.len() > 0 ==> separator(s[0]) && separator(s.last()),
{
    if parts(s).len() == 0 && s.len() > 0 {
        lemma_all_spaces(s, 0);
    }
}

proof fn lemma_all_spaces(s: Seq<char>, i: int)
    requires
        0 <= i <= s.len(),
        spaces_end(s, i) >= s.len(),
    ensures
        forall|k: int| i <= k < s.len() ==> separator(#[trigger] s[k]),
    decreases s.len() - i,
{
    if i < s.len() {
        lemma_all_spaces(s, i + 1);
    }
}

/// The fields after more segments, from a state on.
spec fn fields_from(
    state: Fields,
    word: Seq<SegmentView>,
    n: int,
    env: Map<Seq<char>, Seq<char>>,
    status: int,
) -> Fields
    decreases n,
{
    if n <= 0 {
        state
    } else {
        fields_step(fields_from(state, word, n - 1, env, status), word[n - 1], env, status)
    }
}

proof fn lemma_fields_in_turn(
    a: Seq<SegmentView>,
    b: Seq<SegmentView>,
    n: int,
    env: Map<Seq<char>, Seq<char>>,
    status: int,
)
    requires
        0 <= n <= b.len(),
    ensures
        fields_after(a + b, a.len() + n, env, status) == fields_from(
            fields_after(a, a.len() as int, env, status),
            b,
            n,
            env,
            status,
        ),
    decreases n,
{
    if n > 0 {
        lemma_fields_in_turn(a, b, n - 1, env, status);
        assert((a + b)[a.len() + n - 1] == b[n - 1]);
    } else {
        lemma_fields_prefix(a, b, a.len() as int, env, status);
    }
}

proof fn lemma_fields_prefix(
    a: Seq<SegmentView>,
    b: Seq<SegmentView>,
    n: int,
    env: Map<Seq<char>, Seq<char>>,
    status: int,
)
    requires
        0 <= n <= a.len(),
    ensures
        fields_after(a + b, n, env, status) == fields_after(a, n, env, status),
    decreases n,
{
    if n > 0 {
        lemma_fields_prefix(a, b, n - 1, env, status);
        assert((a + b)[n - 1] == a[n - 1]);
    }
}

proof fn lemma_fields_from_front(
    front: Seq<Seq<char>>,
    state: Fields,
    word: Seq<SegmentView>,
    n: int,
    env: Map<Seq<char>, Seq<char>>,
    status: int,
)
    requires
        sound(state),
        0 <= n <= word.len(),
    ensures
        ({
            let after = fields_from(state, word, n, env, status);
            fields_from(
                Fields { fields: front + state.fields, keep: state.keep },
                word,
                n,
                env,
                status,
            ) == (Fields { fields: front + after.fields, keep: after.keep })
        }),
        sound(fields_from(state, word, n, env, status)),
    decreases n,
{
    if n > 0 {
        lemma_fields_from_front(front, state, word, n - 1, env, status);
        let before = fields_from(state, word, n - 1, env, status);
        let value = segment_text(word[n - 1], env, status);
        lemma_ended_fields_stay(front, before, value);
        lemma_step_is_sound(before, word[n - 1], env, status);
    }
}

/// A separator in the value of an unquoted expansion ends a field: what comes before it, with the
/// front of the word, and what comes behind it, with the rest of the word, become fields apart.
pub proof fn law_separators_end_fields(
    front: Seq<SegmentView>,
    rest: Seq<SegmentView>,
    whole: SegmentView,
    before: SegmentView,
    behind: SegmentView,
    c: char,
    env: Map<Seq<char>, Seq<char>>,
    status: int,
)
    requires
        is_split(whole) && is_split(before) && is_split(behind),
        separator(c),
        segment_text(whole, env, status) == segment_text(before, env, status) + seq![c]
            + segment_text(behind, env, status),
    ensures
        word_fields(front + seq![whole] + rest, env, status) == word_fields(
            front + seq![before],
            env,
            status,
        ) + word_fields(seq![behind] + rest, env, status),
{
    let a = segment_text(before, env, status);
    let b = segment_text(behind, env, status);
    let n = front.len() as int;
    let m = rest.len() as int;
    let start = fields_after(front, n, env, status);
    lemma_fields_are_sound(front, n, env, status);
    // the word whole
    let word = front + seq![whole] + rest;
    let middle = front + seq![whole];
    assert(middle.drop_last() =~= front);
    lemma_fields_prefix(front, seq![whole], n, env, status);
    assert(middle[n] == whole);
    assert(fields_after(middle, n + 1, env, status) == split_into(start, a + seq![c] + b));
    lemma_fields_in_turn(middle, rest, m, env, status);
    // its front
    let left = front + seq![before];
    lemma_fields_prefix(front, seq![before], n, env, status);
    assert(left[n] == before);
    assert(fields_after(left, n + 1, env, status) == split_into(start, a));
    // its rest
    let right = seq![behind] + rest;
    let one = seq![behind];
    assert(one[0] == behind);
    assert(fields_after(one, 0, env, status) =~= nothing_yet());
    assert(fields_after(one, 1, env, status) == split_into(nothing_yet(), b));
    lemma_fields_in_turn(one, rest, m, env, status);
    let tail = split_into(nothing_yet(), b);
    lemma_split_is_sound(nothing_yet(), b);
    lemma_split_at_separator(start, a, c, b);
    let ended = counted(split_into(start, a));
    lemma_fields_from_front(ended, tail, rest, m, env, status);
    let after = fields_from(tail, rest, m, env, status);
    assert(word.len() == n + 1 + m && right.len() == 1 + m);
    if !after.keep {
        assert((ended + after.fields).drop_last() =~= ended + after.fields.drop_last());
    }
}

/// Where no value that is split holds a separator, a word is one field: the texts of its segments,
/// one behind the other. It vanishes where all of it is split and empty.
pub proof fn law_words_without_separators_are_one_field(
    word: Seq<SegmentView>,
    env: Map<Seq<char>, Seq<char>>,
    status: int,
)
    requires
        forall|i: int, k: int|
            0 <= i < word.len() && is_split(word[i]) && 0 <= k < segment_text(
                word[i],
                env,
                status,
            ).len() ==> !separator(#[trigger] segment_text(word[i], env, status)[k]),
    ensures
        word_fields(word, env, status) == (if (forall|i: int|
            0 <= i < word.len() ==> is_split(#[trigger] word[i])) && assignment_text(
            word,
            env,
            status,
        ).len() == 0 {
            Seq::<Seq<char>>::empty()
        } else {
            seq![assignment_text(word, env, status)]
        }),
{
    lemma_one_field(word, word.len() as int, env, status);
    let state = fields_after(word, word.len() as int, env, status);
    assert(state.fields.drop_last() =~= Seq::<Seq<char>>::empty());
}

proof fn lemma_one_field(
    word: Seq<SegmentView>,
    n: int,
    env: Map<Seq<char>, Seq<char>>,
    status: int,
)
    requires
        0 <= n <= word.len(),
        forall|i: int, k: int|
            0 <= i < word.len() && is_split(word[i]) && 0 <= k < segment_text(
                word[i],
                env,
                status,
            ).len() ==> !separator(#[trigger] segment_text(word[i], env, status)[k]),
    ensures
        fields_after(word, n, env, status).fields == seq![joined_text(word, n, env, status)],
        fields_after(word, n, env, status).keep <==> joined_text(word, n, env, status).len() > 0
            || exists|i: int| 0 <= i < n && !is_split(#[trigger] word[i]),
    decreases n,
{
    if n > 0 {
        lemma_one_field(word, n - 1, env, status);
        let before = fields_after(word, n - 1, env, status);
        let text = joined_text(word, n - 1, env, status);
        let value = segment_text(word[n - 1], env, status);
        assert(append_last(seq![text], value) =~= seq![text + value]);
        if is_split(word[n - 1]) {
            assert forall|k: int| 0 <= k < value.len() implies !separator(#[trigger] value[k]) by {
                assert(!separator(segment_text(word[n - 1], env, status)[k]));
            }
            law_texts_without_separators_are_one_part(value);
            if value.len() == 0 {
                assert(text + value =~= text);
            } else {
                assert(parts(value).skip(1) =~= Seq::<Seq<char>>::empty());
                assert(!separator(value[0]) && !separator(value[value.len() - 1]));
                assert(append_last(before.fields, value) + Seq::<Seq<char>>::empty()
                    =~= append_last(before.fields, value));
            }
        }
        if exists|i: int| 0 <= i < n - 1 && !is_split(#[trigger] word[i]) {
            let i = choose|i: int| 0 <= i < n - 1 && !is_split(#[trigger] word[i]);
            assert(!is_split(word[i]));
        }
    }
}

/// Fields one behind the other.
pub open spec fn run_together(fields: Seq<Seq<char>>) -> Seq<char>
    decreases fields.len(),
{
    if fields.len() == 0 {
        seq![]
    } else {
        run_together(fields.drop_last()) + fields.last()
    }
}

/// A text without its separators.
pub open spec fn without_separators(s: Seq<char>) -> Seq<char>
    decreases s.len(),
{
    if s.len() == 0 {
        seq![]
    } else if separator(s.last()) {
        without_separators(s.drop_last())
    } else {
        without_separators(s.drop_last()).push(s.last())
    }
}

/// What is left of a word, its separators aside: all of what is not split, and of what is split all
/// but the separators.
pub open spec fn left_text(
    word: Seq<SegmentView>,
    n: int,
    env: Map<Seq<char>, Seq<char>>,
    status: int,
) -> Seq<char>
    decreases n,
{
    if n <= 0 {
        seq![]
    } else {
        left_text(word, n - 1, env, status) + (if is_split(word[n - 1]) {
            without_separators(segment_text(word[n - 1], env, status))
        } else {
            segment_text(word[n - 1], env, status)
        })
    }
}

proof fn lemma_one_field_alone(field: Seq<char>)
    ensures
        run_together(seq![field]) == field,
{
    reveal_with_fuel(run_together, 2);
    assert(seq![field].drop_last() =~= Seq::<Seq<char>>::empty());
    assert(Seq::<char>::empty() + field =~= field);
}

proof fn lemma_run_together(a: Seq<Seq<char>>, b: Seq<Seq<char>>)
    ensures
        run_together(a + b) == run_together(a) + run_together(b),
    decreases b.len(),
{
    if b.len() == 0 {
        assert(a + b =~= a);
        assert(run_together(a) + run_together(b) =~= run_together(a));
    } else {
        lemma_run_together(a, b.drop_last());
        assert((a + b).drop_last() =~= a + b.drop_last());
        assert((a + b).last() == b.last());
        assert(run_together(a + b) =~= run_together(a) + run_together(b));
    }
}

proof fn lemma_without_separators(a: Seq<char>, b: Seq<char>)
    ensures
        without_separators(a + b) == without_separators(a) + without_separators(b),
    decreases b.len(),
{
    if b.len() == 0 {
        assert(a + b =~= a);
        assert(without_separators(a) + without_separators(b) =~= without_separators(a));
    } else {
        lemma_without_separators(a, b.drop_last());
        assert((a + b).drop_last() =~= a + b.drop_last());
        assert((a + b).last() == b.last());
        assert(without_separators(a + b) =~= without_separators(a) + without_separators(b));
    }
}

proof fn lemma_nothing_to_leave_out(s: Seq<char>)
    requires
        forall|k: int| 0 <= k < s.len() ==> !separator(#[trigger] s[k]),
    ensures
        without_separators(s) == s,
    decreases s.len(),
{
    if s.len() > 0 {
        lemma_nothing_to_leave_out(s.drop_last());
        assert(s.drop_last().push(s.last()) =~= s);
    }
}

/// The first separator of a text, if it has one.
spec fn separator_at(s: Seq<char>, i: int) -> bool {
    0 <= i < s.len() && separator(s[i])
}

/// The parts of a text, run together, are the text without its separators; none of them is empty,
/// and none holds a separator.
pub proof fn law_parts_leave_out_the_separators(s: Seq<char>)
    ensures
        run_together(parts(s)) == without_separators(s),
        forall|i: int| 0 <= i < parts(s).len() ==> (#[trigger] parts(s)[i]).len() > 0,
        forall|i: int, k: int|
            0 <= i < parts(s).len() && 0 <= k < parts(s)[i].len() ==> !separator(
                #[trigger] parts(s)[i][k],
            ),
    decreases s.len(),
{
    if exists|i: int| separator_at(s, i) {
        let i = choose|i: int| separator_at(s, i);
        let a = s.take(i);
        let b = s.skip(i + 1);
        assert(s =~= a + seq![s[i]] + b);
        law_separators_part_texts(a, s[i], b);
        law_parts_leave_out_the_separators(a);
        law_parts_leave_out_the_separators(b);
        lemma_run_together(parts(a), parts(b));
        lemma_without_separators(a + seq![s[i]], b);
        lemma_without_separators(a, seq![s[i]]);
        reveal_with_fuel(without_separators, 2);
        assert(without_separators(seq![s[i]]) =~= Seq::<char>::empty()) by {
            assert(seq![s[i]].drop_last() =~= Seq::<char>::empty());
        }
        assert(without_separators(a) + Seq::<char>::empty() =~= without_separators(a));
        assert forall|j: int| 0 <= j < parts(s).len() implies (#[trigger] parts(s)[j]).len()
            > 0 && forall|k: int| 0 <= k < parts(s)[j].len() ==> !separator(#[trigger] parts(s)[j][k]) by {
            if j < parts(a).len() {
                assert(parts(s)[j] == parts(a)[j]);
            } else {
                assert(parts(s)[j] == parts(b)[j - parts(a).len()]);
            }
        }
    } else {
        assert forall|k: int| 0 <= k < s.len() implies !separator(#[trigger] s[k]) by {
            assert(!separator_at(s, k));
        }
        law_texts_without_separators_are_one_part(s);
        lemma_nothing_to_leave_out(s);
        if s.len() > 0 {
            lemma_one_field_alone(s);
        }
    }
}

/// The fields of a word, run together, are the texts of its segments in their order, with nothing
/// left out but the separators of what is split.
pub proof fn law_fields_keep_the_text_of_a_word(
    word: Seq<SegmentView>,
    env: Map<Seq<char>, Seq<char>>,
    status: int,
)
    ensures
        run_together(word_fields(word, env, status)) == left_text(
            word,
            word.len() as int,
            env,
            status,
        ),
{
    let n = word.len() as int;
    lemma_fields_keep_text(word, n, env, status);
    lemma_fields_are_sound(word, n, env, status);
    let state = fields_after(word, n, env, status);
    if !state.keep {
        assert(run_together(state.fields) =~= run_together(state.fields.drop_last()));
    }
}

proof fn lemma_fields_keep_text(
    word: Seq<SegmentView>,
    n: int,
    env: Map<Seq<char>, Seq<char>>,
    status: int,
)
    requires
        0 <= n <= word.len(),
    ensures
        run_together(fields_after(word, n, env, status).fields) == left_text(word, n, env, status),
    decreases n,
{
    if n > 0 {
        lemma_fields_keep_text(word, n - 1, env, status);
        lemma_fields_are_sound(word, n - 1, env, status);
        let before = fields_after(word, n - 1, env, status);
        let value = segment_text(word[n - 1], env, status);
        lemma_appended_text(before.fields, value);
        if is_split(word[n - 1]) {
            lemma_split_text(before, value);
        }
    } else {
        lemma_one_field_alone(Seq::<char>::empty());
    }
}

proof fn lemma_appended_text(fields: Seq<Seq<char>>, value: Seq<char>)
    requires
        fields.len() > 0,
    ensures
        run_together(append_last(fields, value)) == run_together(fields) + value,
{
    assert(append_last(fields, value).drop_last() =~= fields.drop_last());
    assert(run_together(append_last(fields, value)) =~= run_together(fields) + value);
}

proof fn lemma_empty_field(fields: Seq<Seq<char>>)
    ensures
        run_together(fields.push(seq![])) == run_together(fields),
{
    assert(fields.push(Seq::<char>::empty()).drop_last() =~= fields);
    assert(run_together(fields) + Seq::<char>::empty() =~= run_together(fields));
}

proof fn lemma_split_text(state: Fields, value: Seq<char>)
    requires
        state.fields.len() > 0,
    ensures
        run_together(split_into(state, value).fields) == run_together(state.fields)
            + without_separators(value),
{
    let p = parts(value);
    law_parts_leave_out_the_separators(value);
    lemma_empty_field(state.fields);
    if p.len() == 0 {
        assert(run_together(state.fields) + Seq::<char>::empty() =~= run_together(state.fields));
    } else {
        let opened = if separator(value[0]) && state.keep {
            state.fields.push(seq![])
        } else {
            state.fields
        };
        lemma_appended_text(opened, p[0]);
        let filled = append_last(opened, p[0]) + p.skip(1);
        lemma_run_together(append_last(opened, p[0]), p.skip(1));
        lemma_run_together(seq![p[0]], p.skip(1));
        assert(seq![p[0]] + p.skip(1) =~= p);
        lemma_one_field_alone(p[0]);
        lemma_empty_field(filled);
        assert(run_together(filled) =~= run_together(state.fields) + run_together(p));
    }
}

/// Words are expanded apart, and their fields come in the order of the words.
pub proof fn law_words_are_expanded_apart(
    words: Seq<Seq<SegmentView>>,
    more: Seq<Seq<SegmentView>>,
    n: int,
    env: Map<Seq<char>, Seq<char>>,
    status: int,
)
    requires
        0 <= n <= more.len(),
    ensures
        words_fields(words + more, words.len() + n, env, status) == words_fields(
            words,
            words.len() as int,
            env,
            status,
        ) + words_fields(more, n, env, status),
    decreases n,
{
    let front = words_fields(words, words.len() as int, env, status);
    if n == 0 {
        lemma_words_prefix(words, more, words.len() as int, env, status);
        assert(front + Seq::<Seq<char>>::empty() =~= front);
    } else {
        law_words_are_expanded_apart(words, more, n - 1, env, status);
        assert((words + more)[words.len() + n - 1] == more[n - 1]);
        let last = word_fields(more[n - 1], env, status);
        assert((front + words_fields(more, n - 1, env, status)) + last =~= front + (words_fields(
            more,
            n - 1,
            env,
            status,
        ) + last));
    }
}

proof fn lemma_words_prefix(
    words: Seq<Seq<SegmentView>>,
    more: Seq<Seq<SegmentView>>,
    n: int,
    env: Map<Seq<char>, Seq<char>>,
    status: int,
)
    requires
        0 <= n <= words.len(),
    ensures
        words_fields(words + more, n, env, status) == words_fields(words, n, env, status),
    decreases n,
{
    if n > 0 {
        lemma_words_prefix(words, more, n - 1, env, status);
        assert((words + more)[n - 1] == words[n - 1]);
    }
}

/// A variable stands for its value, one that is not set for nothing, and `?` for the last status.
pub proof fn law_parameters_stand_for_their_values(
    name: Seq<char>,
    env: Map<Seq<char>, Seq<char>>,
    status: i32,
)
    ensures
        name != seq!['?'] && env.dom().contains(name) ==> parameter(name, env, status as int)
            == env[name],
        name != seq!['?'] && !env.dom().contains(name) ==> parameter(
            name,
            env,
            status as int,
        ).len() == 0,
        text::parsed_i32(parameter(seq!['?'], env, status as int)) == Some(status as int),
{
    text::law_written_integers_are_read_back(status);
}

/// Of the assignments before a command each sees those before it, and the last one to a name is the
/// one that holds.
pub proof fn law_assignments_see_those_before(
    assignments: Seq<AssignmentView>,
    last: AssignmentView,
    base: Map<Seq<char>, Seq<char>>,
    status: int,
)
    ensures
        ({
            let n = assignments.len() as int;
            let before = env_after(assignments, n, base, status);
            let after = env_after(assignments.push(last), n + 1, base, status);
            &&& after[last.name] == assignment_text(last.value, before, status)
            &&& after.dom() == before.dom().insert(last.name)
            &&& forall|name: Seq<char>|
                name != last.name && #[trigger] before.dom().contains(name) ==> after[name]
                    == before[name]
            &&& assigned_pairs(assignments.push(last), base, status).last() == (
                last.name,
                after[last.name],
            )
        }),
{
    let n = assignments.len() as int;
    lemma_env_prefix(assignments, last, n, base, status);
    assert(env_after(assignments.push(last), n + 1, base, status).dom() =~= env_after(
        assignments,
        n,
        base,
        status,
    ).dom().insert(last.name));
}

proof fn lemma_env_prefix(
    assignments: Seq<AssignmentView>,
    last: AssignmentView,
    n: int,
    base: Map<Seq<char>, Seq<char>>,
    status: int,
)
    requires
        0 <= n <= assignments.len(),
    ensures
        env_after(assignments.push(last), n, base, status) == env_after(
            assignments,
            n,
            base,
            status,
        ),
    decreases n,
{
    if n > 0 {
        lemma_env_prefix(assignments, last, n - 1, base, status);
        assert(assignments.push(last)[n - 1] == assignments[n - 1]);
    }
}

/// A value is what its segments stand for, one behind the other: a literal stands for itself, and
/// an expansion for its parameter.
pub proof fn law_values_are_joined_in_order(
    a: Seq<SegmentView>,
    b: Seq<SegmentView>,
    env: Map<Seq<char>, Seq<char>>,
    status: int,
)
    ensures
        assignment_text(a + b, env, status) == assignment_text(a, env, status) + assignment_text(
            b,
            env,
            status,
        ),
        a.len() == 0 ==> assignment_text(a, env, status).len() == 0,
        a.len() == 1 ==> assignment_text(a, env, status) == (match a[0] {
            SegmentView::Literal { value, .. } => value,
            SegmentView::Expansion { name, .. } => parameter(name, env, status),
        }),
{
    lemma_joined(a, b, b.len() as int, env, status);
    if a.len() == 1 {
        reveal_with_fuel(joined_text, 2);
        assert(Seq::<char>::empty() + segment_text(a[0], env, status) =~= segment_text(
            a[0],
            env,
            status,
        ));
    }
}

proof fn lemma_joined(
    a: Seq<SegmentView>,
    b: Seq<SegmentView>,
    n: int,
    env: Map<Seq<char>, Seq<char>>,
    status: int,
)
    requires
        0 <= n <= b.len(),
    ensures
        joined_text(a + b, a.len() + n, env, status) == joined_text(
            a,
            a.len() as int,
            env,
            status,
        ) + joined_text(b, n, env, status),
    decreases n,
{
    let front = joined_text(a, a.len() as int, env, status);
    if n == 0 {
        lemma_joined_prefix(a, b, a.len() as int, env, status);
        assert(front + Seq::<char>::empty() =~= front);
    } else {
        lemma_joined(a, b, n - 1, env, status);
        assert((a + b)[a.len() + n - 1] == b[n - 1]);
        let value = segment_text(b[n - 1], env, status);
        assert((front + joined_text(b, n - 1, env, status)) + value =~= front + (joined_text(
            b,
            n - 1,
            env,
            status,
        ) + value));
    }
}

proof fn lemma_joined_prefix(
    a: Seq<SegmentView>,
    b: Seq<SegmentView>,
    n: int,
    env: Map<Seq<char>, Seq<char>>,
    status: int,
)
    requires
        0 <= n <= a.len(),
    ensures
        joined_text(a + b, n, env, status) == joined_text(a, n, env, status),
    decreases n,
{
    if n > 0 {
        lemma_joined_prefix(a, b, n - 1, env, status);
        assert((a + b)[n - 1] == a[n - 1]);
    }
}

/// The last index of a separator, or less than any.
spec fn last_separator(s: Seq<char>) -> int
    decreases s.len(),
{
    if s.len() == 0 {
        -1
    } else if separator(s.last()) {
        s.len() - 1
    } else {
        last_separator(s.drop_last())
    }
}

proof fn lemma_last_separator(s: Seq<char>)
    ensures
        -1 <= last_separator(s) < s.len(),
        last_separator(s) >= 0 ==> separator(s[last_separator(s)]),
        forall|k: int| last_separator(s) < k < s.len() ==> !separator(#[trigger] s[k]),
    decreases s.len(),
{
    if s.len() > 0 && !separator(s.last()) {
        let front = s.drop_last();
        lemma_last_separator(front);
        assert forall|k: int| last_separator(s) < k < s.len() implies !separator(
            #[trigger] s[k],
        ) by {
            if k < front.len() {
                assert(!separator(front[k]));
            }
        }
    }
}

/// What has no separators is filled into the last field.
proof fn lemma_split_unbroken(state: Fields, b: Seq<char>)
    requires
        sound(state),
        forall|k: int| 0 <= k < b.len() ==> !separator(#[trigger] b[k]),
    ensures
        b.len() > 0 ==> split_into(state, b) == (Fields {
            fields: append_last(state.fields, b),
            keep: true,
        }),
        b.len() == 0 ==> split_into(state, b) == state,
{
    law_texts_without_separators_are_one_part(b);
    if b.len() > 0 {
        assert(parts(b).skip(1) =~= Seq::<Seq<char>>::empty());
        assert(append_last(state.fields, b) + parts(b).skip(1) =~= append_last(state.fields, b));
        assert(!separator(b[b.len() - 1]));
        assert(!separator(b[0]));
    }
}

/// An unquoted value is split as its characters come: a separator ends the field that is being
/// filled, if there is one, and any other character is put to its end.
pub proof fn law_values_are_split_character_by_character(state: Fields, v: Seq<char>, c: char)
    requires
        state.fields.len() > 0,
        !state.keep ==> state.fields.last().len() == 0,
    ensures
        split_into(state, seq![]) == state,
        split_into(state, v).fields.len() > 0,
        !split_into(state, v).keep ==> split_into(state, v).fields.last().len() == 0,
        ({
            let before = split_into(state, v);
            split_into(state, v.push(c)) == (if !separator(c) {
                Fields { fields: append_last(before.fields, seq![c]), keep: true }
            } else if before.keep {
                Fields { fields: before.fields.push(seq![]), keep: false }
            } else {
                before
            })
        }),
{
    let none: Seq<char> = seq![];
    let before = split_into(state, v);
    lemma_split_is_sound(state, v);
    lemma_split_unbroken(state, none);
    assert(sound(nothing_yet()));
    if separator(c) {
        lemma_split_at_separator(state, v, c, none);
        lemma_split_unbroken(nothing_yet(), none);
        assert(v + seq![c] + none =~= v.push(c));
        assert(counted(before) + seq![none] =~= (if before.keep {
            before.fields.push(none)
        } else {
            before.fields
        })) by {
            if !before.keep {
                assert(before.fields.last() =~= none);
                assert(before.fields.drop_last() + seq![none] =~= before.fields);
            }
        }
    } else {
        let i = last_separator(v);
        lemma_last_separator(v);
        let b = v.skip(i + 1);
        let longer = b.push(c);
        assert forall|k: int| 0 <= k < longer.len() implies !separator(#[trigger] longer[k]) by {
            if k < b.len() {
                assert(longer[k] == v[i + 1 + k]);
            }
        }
        assert forall|k: int| 0 <= k < b.len() implies !separator(#[trigger] b[k]) by {
            assert(longer[k] == b[k]);
        }
        let start = if i >= 0 {
            nothing_yet()
        } else {
            state
        };
        lemma_split_unbroken(start, b);
        lemma_split_unbroken(start, longer);
        let one = append_last(start.fields, longer);
        if b.len() == 0 {
            assert(longer =~= seq![c]);
        } else {
            let filled = append_last(start.fields, b);
            assert(filled.drop_last() =~= start.fields.drop_last());
            assert((start.fields.last() + b) + seq![c] =~= start.fields.last() + longer);
            assert(append_last(filled, seq![c]) =~= one);
        }
        if i >= 0 {
            let a = v.take(i);
            assert(v =~= a + seq![v[i]] + b);
            assert(v.push(c) =~= a + seq![v[i]] + longer);
            lemma_split_at_separator(state, a, v[i], b);
            lemma_split_at_separator(state, a, v[i], longer);
            let front = counted(split_into(state, a));
            let rest = split_into(nothing_yet(), b);
            assert(append_last(front + rest.fields, seq![c]) =~= front + append_last(
                rest.fields,
                seq![c],
            ));
        } else {
            assert(b =~= v);
            assert(longer =~= v.push(c));
        }
    }
}

} // verus!
