//! What is admitted fits: expanding a command never makes more than its admission has counted.

use vstd::prelude::*;

use crate::admission;
use crate::admission::Place;
use crate::expand;
use crate::expand::Fields;
use crate::session;
use crate::shell::{AssignmentView, RedirectTargetView, SegmentView, SimpleView};
use crate::text;

verus! {

/// The bytes of texts.
pub open spec fn total_bytes(fields: Seq<Seq<char>>) -> int
    decreases fields.len(),
{
    if fields.len() == 0 {
        0
    } else {
        total_bytes(fields.drop_last()) + text::byte_len(fields.last())
    }
}

/// The bytes that fields take: their texts, and the strings that hold them.
pub open spec fn storage(fields: Seq<Seq<char>>) -> int {
    total_bytes(fields) + fields.len() * admission::string_size()
}

proof fn lemma_total_push(fields: Seq<Seq<char>>, value: Seq<char>)
    ensures
        total_bytes(fields.push(value)) == total_bytes(fields) + text::byte_len(value),
{
    assert(fields.push(value).drop_last() =~= fields);
}

proof fn lemma_total_single(value: Seq<char>)
    ensures
        total_bytes(seq![value]) == text::byte_len(value),
{
    let none: Seq<Seq<char>> = seq![];
    assert(total_bytes(none) == 0);
    lemma_total_push(none, value);
    assert(none.push(value) =~= seq![value]);
}

proof fn lemma_total_concat(a: Seq<Seq<char>>, b: Seq<Seq<char>>)
    ensures
        total_bytes(a + b) == total_bytes(a) + total_bytes(b),
    decreases b.len(),
{
    if b.len() == 0 {
        assert(a + b =~= a);
    } else {
        assert((a + b).drop_last() =~= a + b.drop_last());
        lemma_total_concat(a, b.drop_last());
    }
}

proof fn lemma_empty_text()
    ensures
        text::byte_len(Seq::<char>::empty()) == 0,
{
    let nothing: Seq<char> = seq![];
    text::lemma_byte_len_concat(nothing, nothing);
    assert(nothing + nothing =~= nothing);
}

proof fn lemma_append_last(fields: Seq<Seq<char>>, value: Seq<char>)
    requires
        fields.len() > 0,
    ensures
        total_bytes(expand::append_last(fields, value)) == total_bytes(fields) + text::byte_len(
            value,
        ),
{
    lemma_total_push(fields.drop_last(), fields.last() + value);
    text::lemma_byte_len_concat(fields.last(), value);
}

/// The parts of a text have no more bytes than the text.
proof fn lemma_parts_bytes(s: Seq<char>, i: int)
    requires
        0 <= i <= s.len(),
    ensures
        total_bytes(expand::parts_from(s, i)) <= text::byte_len(s.skip(i)),
    decreases s.len() - i,
{
    expand::lemma_ends(s, i);
    let from = expand::spaces_end(s, i);
    if from < s.len() {
        expand::lemma_ends(s, from);
        let to = expand::part_end(s, from);
        lemma_parts_bytes(s, to);
        let part = s.subrange(from, to);
        let rest = expand::parts_from(s, to);
        lemma_total_concat(seq![part], rest);
        lemma_total_single(part);
        text::lemma_byte_len_concat(part, s.skip(to));
        text::lemma_byte_len_concat(s.subrange(i, from), part + s.skip(to));
        assert(s.subrange(i, from) + (part + s.skip(to)) =~= s.skip(i));
    }
}

proof fn lemma_split_into(state: Fields, value: Seq<char>)
    requires
        state.fields.len() > 0,
    ensures
        expand::split_into(state, value).fields.len() > 0,
        expand::split_into(state, value).fields.len() <= state.fields.len() + expand::parts(
            value,
        ).len() + 1,
        total_bytes(expand::split_into(state, value).fields) <= total_bytes(state.fields)
            + text::byte_len(value),
{
    lemma_empty_text();
    let nothing: Seq<char> = seq![];
    let p = expand::parts(value);
    lemma_total_push(state.fields, nothing);
    if p.len() > 0 {
        lemma_parts_bytes(value, 0);
        assert(value.skip(0) =~= value);
        let opened = if expand::separator(value[0]) && state.keep {
            state.fields.push(nothing)
        } else {
            state.fields
        };
        lemma_append_last(opened, p[0]);
        let first = expand::append_last(opened, p[0]);
        let filled = first + p.skip(1);
        lemma_total_concat(first, p.skip(1));
        lemma_total_concat(seq![p[0]], p.skip(1));
        assert(seq![p[0]] + p.skip(1) =~= p);
        lemma_total_single(p[0]);
        lemma_total_push(filled, nothing);
    }
}

/// Whether a segment, read in an environment, stays within what was counted for it.
pub open spec fn counted(
    segment: SegmentView,
    place: Place,
    env: Map<Seq<char>, Seq<char>>,
) -> bool {
    let value = expand::segment_text(segment, env, place.status);
    &&& text::byte_len(value) <= admission::segment_bytes(segment, place)
    &&& admission::splits(segment, place) ==> expand::parts(value).len() + 1
        <= admission::segment_fields(segment, place)
}

proof fn lemma_fields_after(
    word: Seq<SegmentView>,
    n: int,
    place: Place,
    env: Map<Seq<char>, Seq<char>>,
)
    requires
        0 <= n <= word.len(),
        place.split,
        forall|i: int| 0 <= i < word.len() ==> counted(#[trigger] word[i], place, env),
    ensures
        expand::fields_after(word, n, env, place.status).fields.len() > 0,
        storage(expand::fields_after(word, n, env, place.status).fields) <= admission::word_cost(
            word,
            n,
            place,
        ),
    decreases n,
{
    let size = admission::string_size();
    if n == 0 {
        lemma_empty_text();
        let nothing: Seq<char> = seq![];
        lemma_total_single(nothing);
        assert(1 * size == size);
    } else {
        lemma_fields_after(word, n - 1, place, env);
        let before = expand::fields_after(word, n - 1, env, place.status);
        let after = expand::fields_after(word, n, env, place.status);
        let segment = word[n - 1];
        let value = expand::segment_text(segment, env, place.status);
        assert(counted(segment, place, env));
        if expand::is_split(segment) {
            lemma_split_into(before, value);
            let fields = admission::segment_fields(segment, place);
            let a = after.fields.len() as int;
            let b = before.fields.len() as int;
            assert(a * size <= b * size + fields * size) by (nonlinear_arith)
                requires
                    a <= b + fields,
                    size >= 0,
            ;
            assert(fields * admission::reference_size() >= 0) by (nonlinear_arith)
                requires
                    fields >= 0,
                    admission::reference_size() >= 0,
            ;
        } else {
            lemma_append_last(before.fields, value);
            assert(after.fields.len() == before.fields.len());
        }
    }
}

/// A word takes no more than what was counted for it.
proof fn lemma_word_fits(word: Seq<SegmentView>, place: Place, env: Map<Seq<char>, Seq<char>>)
    requires
        place.split,
        forall|i: int| 0 <= i < word.len() ==> counted(#[trigger] word[i], place, env),
    ensures
        storage(expand::word_fields(word, env, place.status)) <= admission::word_cost(
            word,
            word.len() as int,
            place,
        ),
{
    let all = expand::fields_after(word, word.len() as int, env, place.status);
    lemma_fields_after(word, word.len() as int, place, env);
    let size = admission::string_size();
    let n = all.fields.len() as int;
    assert((n - 1) * size <= n * size) by (nonlinear_arith)
        requires
            size >= 0,
    ;
}

// ---- the parts of joined texts ----

proof fn lemma_ends_in_front(a: Seq<char>, b: Seq<char>, i: int)
    requires
        0 <= i <= a.len(),
    ensures
        expand::spaces_end(a, i) < a.len() ==> expand::spaces_end(a + b, i) == expand::spaces_end(
            a,
            i,
        ),
        expand::spaces_end(a, i) >= a.len() ==> expand::spaces_end(a + b, i)
            == expand::spaces_end(a + b, a.len() as int),
        expand::part_end(a, i) < a.len() ==> expand::part_end(a + b, i) == expand::part_end(a, i),
        expand::part_end(a, i) >= a.len() ==> expand::part_end(a + b, i) == expand::part_end(
            a + b,
            a.len() as int,
        ),
    decreases a.len() - i,
{
    if i < a.len() {
        assert((a + b)[i] == a[i]);
        lemma_ends_in_front(a, b, i + 1);
    }
}

proof fn lemma_ends_behind(a: Seq<char>, b: Seq<char>, k: int)
    requires
        0 <= k <= b.len(),
    ensures
        expand::spaces_end(a + b, a.len() + k) == a.len() + expand::spaces_end(b, k),
        expand::part_end(a + b, a.len() + k) == a.len() + expand::part_end(b, k),
    decreases b.len() - k,
{
    if k < b.len() {
        assert((a + b)[a.len() + k] == b[k]);
        lemma_ends_behind(a, b, k + 1);
    }
}

proof fn lemma_parts_behind(a: Seq<char>, b: Seq<char>, k: int)
    requires
        0 <= k <= b.len(),
    ensures
        expand::parts_from(a + b, a.len() + k).len() == expand::parts_from(b, k).len(),
    decreases b.len() - k,
{
    lemma_ends_behind(a, b, k);
    expand::lemma_ends(b, k);
    let from = expand::spaces_end(b, k);
    if from < b.len() {
        expand::lemma_ends(b, from);
        lemma_ends_behind(a, b, from);
        lemma_parts_behind(a, b, expand::part_end(b, from));
    }
}

/// Joined texts have no more parts than both have together.
proof fn lemma_parts_of_joined(a: Seq<char>, b: Seq<char>, i: int)
    requires
        0 <= i <= a.len(),
    ensures
        expand::parts_from(a + b, i).len() <= expand::parts_from(a, i).len() + expand::parts(
            b,
        ).len(),
    decreases a.len() - i,
{
    let s = a + b;
    let n = a.len() as int;
    lemma_ends_in_front(a, b, i);
    expand::lemma_ends(a, i);
    lemma_parts_behind(a, b, 0);
    let from = expand::spaces_end(a, i);
    if from < n {
        expand::lemma_ends(a, from);
        lemma_ends_in_front(a, b, from);
        let to = expand::part_end(a, from);
        if to < n {
            lemma_parts_of_joined(a, b, to);
        } else {
            lemma_ends_behind(a, b, 0);
            expand::lemma_ends(b, 0);
            let k = expand::part_end(b, 0);
            lemma_parts_behind(a, b, k);
            assert(expand::part_end(s, from) == n + k);
            assert(expand::parts_from(a, i).len() == 1) by {
                assert(expand::spaces_end(a, n) == n);
                assert(expand::parts_from(a, n).len() == 0);
            }
            if k > 0 {
                assert(!expand::separator(b[0]));
                assert(expand::spaces_end(b, 0) == 0);
                assert(expand::parts(b).len() == 1 + expand::parts_from(b, k).len());
            }
        }
    } else {
        assert(expand::spaces_end(s, i) == expand::spaces_end(s, n));
        assert(expand::parts_from(s, i).len() == expand::parts_from(s, n).len());
    }
}

/// The value of an assignment has no more parts than are counted for it.
proof fn lemma_field_bound(
    word: Seq<SegmentView>,
    n: int,
    env: Map<Seq<char>, Seq<char>>,
    status: int,
)
    requires
        0 <= n <= word.len(),
    ensures
        expand::parts(expand::joined_text(word, n, env, status)).len() + 1
            <= admission::field_bound(word, n, env, status),
    decreases n,
{
    if n == 0 {
        let nothing: Seq<char> = seq![];
        assert(expand::spaces_end(nothing, 0) == 0);
        assert(expand::parts(nothing).len() == 0);
    } else {
        lemma_field_bound(word, n - 1, env, status);
        lemma_parts_of_joined(
            expand::joined_text(word, n - 1, env, status),
            expand::segment_text(word[n - 1], env, status),
            0,
        );
    }
}

// ---- commands ----

/// Whether the counts of a word's fields are machine numbers.
pub open spec fn word_countable(
    word: Seq<SegmentView>,
    env: Map<Seq<char>, Seq<char>>,
    status: int,
) -> bool {
    &&& text::byte_len(expand::assignment_text(word, env, status)) <= usize::MAX
    &&& admission::field_bound(word, word.len() as int, env, status) <= usize::MAX
}

/// Whether the counts of all words of a command are machine numbers.
pub open spec fn countable(
    simple: SimpleView,
    env: Map<Seq<char>, Seq<char>>,
    status: int,
) -> bool {
    &&& forall|i: int|
        0 <= i < simple.assignments.len() ==> word_countable(
            (#[trigger] simple.assignments[i]).value,
            expand::env_after(simple.assignments, i, env, status),
            status,
        )
    &&& forall|i: int|
        0 <= i < simple.words.len() ==> word_countable(#[trigger] simple.words[i], env, status)
    &&& forall|i: int|
        0 <= i < simple.redirects.len() ==> ((#[trigger] simple.redirects[i]).target matches
            RedirectTargetView::Word(word) ==> word_countable(word, env, status))
}

proof fn lemma_one_segment_bound(
    word: Seq<SegmentView>,
    n: int,
    i: int,
    env: Map<Seq<char>, Seq<char>>,
    status: int,
)
    requires
        0 <= i < n <= word.len(),
    ensures
        expand::parts(expand::segment_text(word[i], env, status)).len() + 3
            <= admission::field_bound(word, n, env, status),
    decreases n,
{
    lemma_field_bound(word, n - 1, env, status);
    if i < n - 1 {
        lemma_one_segment_bound(word, n - 1, i, env, status);
    }
}

/// A word that sees only the variables that were there stays within what was counted.
proof fn lemma_counted_before(word: Seq<SegmentView>, place: Place)
    requires
        word_countable(word, place.env, place.status),
    ensures
        forall|i: int| 0 <= i < word.len() ==> counted(#[trigger] word[i], place, place.env),
{
    assert forall|i: int| 0 <= i < word.len() implies counted(
        #[trigger] word[i],
        place,
        place.env,
    ) by {
        lemma_one_segment_bound(word, word.len() as int, i, place.env, place.status);
    }
}

proof fn lemma_words_fit(words: Seq<Seq<SegmentView>>, n: int, place: Place)
    requires
        0 <= n <= words.len(),
        place.split,
        forall|i: int|
            0 <= i < words.len() ==> word_countable(
                #[trigger] words[i],
                place.env,
                place.status,
            ),
    ensures
        storage(expand::words_fields(words, n, place.env, place.status)) <= admission::words_cost(
            words,
            n,
            place,
        ),
    decreases n,
{
    let size = admission::string_size();
    if n == 0 {
        assert(0 * size == 0);
    } else {
        lemma_words_fit(words, n - 1, place);
        lemma_counted_before(words[n - 1], place);
        lemma_word_fits(words[n - 1], place, place.env);
        let a = expand::words_fields(words, n - 1, place.env, place.status);
        let b = expand::word_fields(words[n - 1], place.env, place.status);
        lemma_total_concat(a, b);
        let x = a.len() as int;
        let y = b.len() as int;
        assert((x + y) * size == x * size + y * size) by (nonlinear_arith);
    }
}

proof fn lemma_value_fits(
    word: Seq<SegmentView>,
    n: int,
    place: Place,
)
    requires
        0 <= n <= word.len(),
        !place.split,
        place.assignments.len() == 0,
    ensures
        text::byte_len(expand::joined_text(word, n, place.env, place.status))
            + admission::string_size() <= admission::word_cost(word, n, place),
    decreases n,
{
    if n == 0 {
        lemma_empty_text();
        assert(expand::joined_text(word, 0, place.env, place.status) =~= Seq::<char>::empty());
    } else {
        lemma_value_fits(word, n - 1, place);
        text::lemma_byte_len_concat(
            expand::joined_text(word, n - 1, place.env, place.status),
            expand::segment_text(word[n - 1], place.env, place.status),
        );
    }
}

proof fn lemma_pairs_fit(
    assignments: Seq<AssignmentView>,
    n: int,
    env: Map<Seq<char>, Seq<char>>,
    status: int,
)
    requires
        0 <= n <= assignments.len(),
    ensures
        admission::pairs_bytes(expand::assigned_pairs(assignments, env, status), n) + 2 * n
            * admission::string_size() <= admission::names_cost(assignments, n)
            + admission::values_cost(assignments, n, env, status),
    decreases n,
{
    let size = admission::string_size();
    if n == 0 {
        assert(2 * 0 * size == 0);
    } else {
        lemma_pairs_fit(assignments, n - 1, env, status);
        let value = assignments[n - 1].value;
        lemma_value_fits(
            value,
            value.len() as int,
            admission::value_place(assignments, n - 1, env, status),
        );
        assert(2 * n * size == 2 * (n - 1) * size + 2 * size) by (nonlinear_arith);
    }
}

/// What a command is expanded to takes no more bytes than its admission has counted: the
/// variables that are copied, those that are assigned, and the fields that its words become,
/// however their values are split.
pub proof fn law_expansion_takes_no_more_than_was_counted(
    simple: SimpleView,
    pairs: Seq<(Seq<char>, Seq<char>)>,
    env: Map<Seq<char>, Seq<char>>,
    status: int,
)
    requires
        countable(simple, env, status),
    ensures
        admission::pairs_bytes(pairs, pairs.len() as int) + admission::pairs_bytes(
            expand::assigned_pairs(simple.assignments, env, status),
            simple.assignments.len() as int,
        ) + storage(expand::words_fields(simple.words, simple.words.len() as int, env, status))
            <= admission::command_cost(simple, pairs, env, status),
{
    let n = simple.assignments.len() as int;
    let size = admission::string_size();
    lemma_pairs_fit(simple.assignments, n, env, status);
    assert(2 * n * size >= 0) by (nonlinear_arith)
        requires
            n >= 0,
            size >= 0,
    ;
    lemma_words_fit(
        simple.words,
        simple.words.len() as int,
        admission::word_place(env, status),
    );
    admission::lemma_redirects_cost_grows(
        simple.redirects,
        0,
        simple.redirects.len() as int,
        admission::target_place(simple, env, status),
    );
}

// ---- redirects ----

proof fn lemma_last_assignment(
    assignments: Seq<AssignmentView>,
    n: int,
    name: Seq<char>,
    env: Map<Seq<char>, Seq<char>>,
    status: int,
)
    requires
        0 <= n <= assignments.len(),
    ensures
        ({
            let after = expand::env_after(assignments, n, env, status);
            match admission::last_assignment(assignments, n, name) {
                Some(i) => 0 <= i < n && after.dom().contains(name) && after[name]
                    == expand::assignment_text(
                    assignments[i].value,
                    expand::env_after(assignments, i, env, status),
                    status,
                ),
                None => after.dom().contains(name) == env.dom().contains(name) && (
                env.dom().contains(name) ==> after[name] == env[name]),
            }
        }),
    decreases n,
{
    if n > 0 {
        lemma_last_assignment(assignments, n - 1, name, env, status);
    }
}

/// The target of a redirect takes no more bytes than its admission has counted, whether it sees
/// the assignments of its command or not.
pub proof fn law_targets_take_no_more_than_was_counted(
    simple: SimpleView,
    k: int,
    word: Seq<SegmentView>,
    env: Map<Seq<char>, Seq<char>>,
    status: int,
)
    requires
        countable(simple, env, status),
        0 <= k < simple.redirects.len(),
        simple.redirects[k].target == RedirectTargetView::Word(word),
    ensures
        ({
            let after = session::with_pairs(
                env,
                expand::assigned_pairs(simple.assignments, env, status),
                simple.assignments.len() as int,
            );
            let counted = admission::redirect_cost(
                simple.redirects[k],
                admission::target_place(simple, env, status),
            );
            &&& storage(expand::word_fields(word, env, status)) <= counted
            &&& storage(expand::word_fields(word, after, status)) <= counted
        }),
{
    let place = admission::target_place(simple, env, status);
    let n = simple.assignments.len() as int;
    let after = expand::env_after(simple.assignments, n, env, status);
    session::lemma_assigned_pairs(simple.assignments, n, env, status);
    lemma_counted_before(word, place);
    lemma_word_fits(word, place, env);
    assert forall|i: int| 0 <= i < word.len() implies counted(#[trigger] word[i], place, after) by {
        assert(counted(word[i], place, env));
        match word[i] {
            SegmentView::Literal { .. } => {},
            SegmentView::Expansion { name, .. } => {
                lemma_last_assignment(simple.assignments, n, name, env, status);
                match admission::last_assignment(simple.assignments, n, name) {
                    Some(j) => {
                        let value = simple.assignments[j].value;
                        let seen = expand::env_after(simple.assignments, j, env, status);
                        lemma_field_bound(value, value.len() as int, seen, status);
                        assert(word_countable(value, seen, status));
                    },
                    None => {},
                }
            },
        }
    }
    lemma_word_fits(word, place, after);
}

} // verus!
