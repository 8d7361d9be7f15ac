//! One-pass expansion under a budget: every byte is paid for before it is copied.

use vstd::layout;
use vstd::prelude::*;

use crate::env::Env;
use crate::expand;
use crate::shell::{RedirectTarget, Segment, SimpleCommand, Word};
use crate::shell::{AssignmentView, RedirectTargetView, RedirectView, SegmentView, SimpleView};
use crate::text;

verus! {

/// A command whose words have been expanded.
pub struct ExpandedCommand<'a> {
    pub syntax: &'a SimpleCommand,
    /// The environment with the assignments of the command.
    pub env: Env,
    pub words: Vec<String>,
    /// The fields of each redirect's target; none for a descriptor.
    pub targets: Vec<Vec<String>>,
}

/// The bytes that expansion may still use.
pub struct Budget(pub usize);

/// What is left after charges are paid in turn; the first that cannot be paid stops them.
pub open spec fn spend(left: int, charges: Seq<int>) -> (int, bool)
    decreases charges.len(),
{
    if charges.len() == 0 {
        (left, true)
    } else {
        let (rest, paid) = spend(left, charges.drop_last());
        if paid && charges.last() <= rest {
            (rest - charges.last(), true)
        } else {
            (rest, false)
        }
    }
}

pub open spec fn string_size() -> int {
    layout::size_of::<String>() as int
}

/// A word while it is expanded, with what has been charged for it.
#[verifier::ext_equal]
pub struct Run {
    pub fields: Seq<Seq<char>>,
    pub current: Seq<char>,
    /// Whether the current field counts even if it is empty.
    pub keep: bool,
    pub charges: Seq<int>,
}

/// A field ends: it is charged and kept.
pub open spec fn close_field(run: Run) -> Run {
    Run {
        fields: run.fields.push(run.current),
        current: seq![],
        keep: false,
        charges: run.charges.push(string_size()),
    }
}

pub open spec fn split_step(run: Run, c: char) -> Run {
    if !expand::separator(c) {
        Run { current: run.current.push(c), keep: true, ..run }
    } else if run.keep {
        close_field(run)
    } else {
        run
    }
}

/// The run after the first `n` characters of a value that is split.
pub open spec fn split_value(run: Run, value: Seq<char>, n: int) -> Run
    decreases n,
{
    if n <= 0 {
        run
    } else {
        split_step(split_value(run, value, n - 1), value[n - 1])
    }
}

pub open spec fn run_step(
    run: Run,
    segment: SegmentView,
    env: Map<Seq<char>, Seq<char>>,
    status: int,
    split: bool,
) -> Run {
    let value = expand::segment_text(segment, env, status);
    let charged = Run { charges: run.charges.push(text::byte_len(value) as int), ..run };
    if split && segment is Expansion && !segment->Expansion_quoted {
        split_value(charged, value, value.len() as int)
    } else {
        Run { current: run.current + value, keep: true, ..charged }
    }
}

/// The run after the first `n` segments.
pub open spec fn run_after(
    word: Seq<SegmentView>,
    n: int,
    env: Map<Seq<char>, Seq<char>>,
    status: int,
    split: bool,
) -> Run
    decreases n,
{
    if n <= 0 {
        Run { fields: seq![], current: seq![], keep: !split, charges: seq![] }
    } else {
        run_step(run_after(word, n - 1, env, status, split), word[n - 1], env, status, split)
    }
}

/// The run over a whole word.
pub open spec fn run_word(
    word: Seq<SegmentView>,
    env: Map<Seq<char>, Seq<char>>,
    status: int,
    split: bool,
) -> Run {
    let run = run_after(word, word.len() as int, env, status, split);
    if run.keep {
        close_field(run)
    } else {
        run
    }
}

/// The charges for copying names and values.
pub open spec fn pair_charges(pairs: Seq<(Seq<char>, Seq<char>)>, n: int) -> Seq<int>
    decreases n,
{
    if n <= 0 {
        seq![]
    } else {
        pair_charges(pairs, n - 1).push(2 * string_size()).push(
            text::byte_len(pairs[n - 1].0) as int,
        ).push(text::byte_len(pairs[n - 1].1) as int)
    }
}

pub open spec fn assignment_charges(
    assignments: Seq<AssignmentView>,
    n: int,
    base: Map<Seq<char>, Seq<char>>,
    status: int,
) -> Seq<int>
    decreases n,
{
    if n <= 0 {
        seq![]
    } else {
        assignment_charges(assignments, n - 1, base, status).push(string_size()).push(
            text::byte_len(assignments[n - 1].name) as int,
        ) + run_word(
            assignments[n - 1].value,
            expand::env_after(assignments, n - 1, base, status),
            status,
            false,
        ).charges
    }
}

pub open spec fn word_charges(
    words: Seq<Seq<SegmentView>>,
    n: int,
    env: Map<Seq<char>, Seq<char>>,
    status: int,
) -> Seq<int>
    decreases n,
{
    if n <= 0 {
        seq![]
    } else {
        word_charges(words, n - 1, env, status) + run_word(
            words[n - 1],
            env,
            status,
            true,
        ).charges
    }
}

/// The fields that the first `n` words expand to.
pub open spec fn word_fields(
    words: Seq<Seq<SegmentView>>,
    n: int,
    env: Map<Seq<char>, Seq<char>>,
    status: int,
) -> Seq<Seq<char>>
    decreases n,
{
    if n <= 0 {
        seq![]
    } else {
        word_fields(words, n - 1, env, status) + run_word(words[n - 1], env, status, true).fields
    }
}

pub open spec fn target_run(
    redirect: RedirectView,
    env: Map<Seq<char>, Seq<char>>,
    status: int,
) -> Run {
    match redirect.target {
        RedirectTargetView::Word(word) => run_word(word, env, status, true),
        RedirectTargetView::Fd(_) => Run {
            fields: seq![],
            current: seq![],
            keep: false,
            charges: seq![],
        },
    }
}

pub open spec fn target_charges(
    redirects: Seq<RedirectView>,
    n: int,
    env: Map<Seq<char>, Seq<char>>,
    status: int,
) -> Seq<int>
    decreases n,
{
    if n <= 0 {
        seq![]
    } else {
        target_charges(redirects, n - 1, env, status).push(
            layout::size_of::<Vec<String>>() as int,
        ) + target_run(redirects[n - 1], env, status).charges
    }
}

pub open spec fn target_fields(
    redirects: Seq<RedirectView>,
    env: Map<Seq<char>, Seq<char>>,
    status: int,
) -> Seq<Seq<Seq<char>>> {
    redirects.map_values(|r: RedirectView| target_run(r, env, status).fields)
}

pub open spec fn command_env(simple: SimpleView, base: Map<Seq<char>, Seq<char>>, status: int) -> Map<
    Seq<char>,
    Seq<char>,
> {
    expand::env_after(simple.assignments, simple.assignments.len() as int, base, status)
}

pub open spec fn command_words(
    simple: SimpleView,
    base: Map<Seq<char>, Seq<char>>,
    status: int,
) -> Seq<Seq<char>> {
    word_fields(simple.words, simple.words.len() as int, base, status)
}

/// Redirects see the assignments of a command that has no words.
pub open spec fn redirect_env(
    simple: SimpleView,
    base: Map<Seq<char>, Seq<char>>,
    status: int,
) -> Map<Seq<char>, Seq<char>> {
    if command_words(simple, base, status).len() == 0 {
        command_env(simple, base, status)
    } else {
        base
    }
}

/// All that is charged for a command, in turn.
pub open spec fn command_charges(
    simple: SimpleView,
    pairs: Seq<(Seq<char>, Seq<char>)>,
    base: Map<Seq<char>, Seq<char>>,
    status: int,
) -> Seq<int> {
    seq![layout::size_of::<ExpandedCommand<'static>>() as int] + pair_charges(
        pairs,
        pairs.len() as int,
    ) + assignment_charges(
        simple.assignments,
        simple.assignments.len() as int,
        base,
        status,
    ) + word_charges(simple.words, simple.words.len() as int, base, status) + target_charges(
        simple.redirects,
        simple.redirects.len() as int,
        redirect_env(simple, base, status),
        status,
    )
}

// ---- spending ----

proof fn lemma_spend_append(left: int, a: Seq<int>, b: Seq<int>)
    ensures
        spend(left, a).1 ==> spend(left, a + b) == spend(spend(left, a).0, b),
        !spend(left, a).1 ==> spend(left, a + b) == spend(left, a),
    decreases b.len(),
{
    if b.len() == 0 {
        assert(a + b =~= a);
    } else {
        lemma_spend_append(left, a, b.drop_last());
        assert((a + b).drop_last() =~= a + b.drop_last());
        assert((a + b).last() == b.last());
    }
}

/// What cannot be paid halfway cannot be paid as a whole.
proof fn lemma_spend_stops(left: int, a: Seq<int>, all: Seq<int>)
    requires
        a.is_prefix_of(all),
        !spend(left, a).1,
    ensures
        spend(left, all) == spend(left, a),
{
    let rest = all.skip(a.len() as int);
    assert(all =~= a + rest);
    lemma_spend_append(left, a, rest);
}

/// Paying never leaves more than there was, and nothing is paid that is not there.
pub proof fn law_budget_never_grows(left: int, charges: Seq<int>)
    requires
        left >= 0,
        forall|i: int| 0 <= i < charges.len() ==> 0 <= #[trigger] charges[i],
    ensures
        0 <= spend(left, charges).0 <= left,
    decreases charges.len(),
{
    if charges.len() > 0 {
        law_budget_never_grows(left, charges.drop_last());
        assert(0 <= charges[charges.len() - 1]);
    }
}

proof fn lemma_prefix_transitive(a: Seq<int>, b: Seq<int>, c: Seq<int>)
    requires
        a.is_prefix_of(b),
        b.is_prefix_of(c),
    ensures
        a.is_prefix_of(c),
{
    assert(a =~= c.subrange(0, a.len() as int)) by {
        assert(a == b.subrange(0, a.len() as int));
        assert(b == c.subrange(0, b.len() as int));
        assert forall|i: int| 0 <= i < a.len() implies a[i] == c.subrange(0, a.len() as int)[i] by {
            assert(a[i] == b[i]);
            assert(b[i] == c[i]);
        }
    }
}

proof fn lemma_prefix_append(a: Seq<int>, b: Seq<int>)
    ensures
        a.is_prefix_of(a + b),
{
    assert(a =~= (a + b).subrange(0, a.len() as int));
}

proof fn lemma_prefix_push(a: Seq<int>, x: int)
    ensures
        a.is_prefix_of(a.push(x)),
{
    assert(a =~= a.push(x).subrange(0, a.len() as int));
}

proof fn lemma_prefix_under(head: Seq<int>, a: Seq<int>, b: Seq<int>)
    requires
        a.is_prefix_of(b),
    ensures
        (head + a).is_prefix_of(head + b),
{
    assert(head + a =~= (head + b).subrange(0, (head + a).len() as int)) by {
        assert(a == b.subrange(0, a.len() as int));
        assert forall|i: int| 0 <= i < (head + a).len() implies (head + a)[i] == (head
            + b).subrange(0, (head + a).len() as int)[i] by {
            if i >= head.len() {
                assert(a[i - head.len()] == b[i - head.len()]);
            }
        }
    }
}

proof fn lemma_split_charges(run: Run, value: Seq<char>, n: int, m: int)
    requires
        0 <= n <= m,
    ensures
        split_value(run, value, n).charges.is_prefix_of(split_value(run, value, m).charges),
    decreases m - n,
{
    if n < m {
        lemma_split_charges(run, value, n, m - 1);
        let before = split_value(run, value, m - 1);
        lemma_prefix_push(before.charges, string_size());
        lemma_prefix_transitive(
            split_value(run, value, n).charges,
            before.charges,
            split_value(run, value, m).charges,
        );
    } else {
        let c = split_value(run, value, n).charges;
        assert(c =~= c.subrange(0, c.len() as int));
    }
}

proof fn lemma_run_charges(
    word: Seq<SegmentView>,
    n: int,
    m: int,
    env: Map<Seq<char>, Seq<char>>,
    status: int,
    split: bool,
)
    requires
        0 <= n <= m,
    ensures
        run_after(word, n, env, status, split).charges.is_prefix_of(
            run_after(word, m, env, status, split).charges,
        ),
    decreases m - n,
{
    if n < m {
        lemma_run_charges(word, n, m - 1, env, status, split);
        let before = run_after(word, m - 1, env, status, split);
        lemma_step_charges(before, word[m - 1], env, status, split);
        lemma_prefix_push(
            before.charges,
            text::byte_len(expand::segment_text(word[m - 1], env, status)) as int,
        );
        let pushed = before.charges.push(
            text::byte_len(expand::segment_text(word[m - 1], env, status)) as int,
        );
        let after = run_after(word, m, env, status, split).charges;
        lemma_prefix_transitive(before.charges, pushed, after);
        lemma_prefix_transitive(
            run_after(word, n, env, status, split).charges,
            before.charges,
            after,
        );
    } else {
        let c = run_after(word, n, env, status, split).charges;
        assert(c =~= c.subrange(0, c.len() as int));
    }
}

/// A step charges for the bytes of the value first.
proof fn lemma_step_charges(
    run: Run,
    segment: SegmentView,
    env: Map<Seq<char>, Seq<char>>,
    status: int,
    split: bool,
)
    ensures
        run.charges.push(
            text::byte_len(expand::segment_text(segment, env, status)) as int,
        ).is_prefix_of(run_step(run, segment, env, status, split).charges),
{
    let value = expand::segment_text(segment, env, status);
    let charged = Run { charges: run.charges.push(text::byte_len(value) as int), ..run };
    lemma_split_charges(charged, value, 0, value.len() as int);
    assert(charged.charges =~= charged.charges.subrange(0, charged.charges.len() as int));
}

proof fn lemma_word_charges(
    word: Seq<SegmentView>,
    n: int,
    env: Map<Seq<char>, Seq<char>>,
    status: int,
    split: bool,
)
    requires
        0 <= n <= word.len(),
    ensures
        run_after(word, n, env, status, split).charges.is_prefix_of(
            run_word(word, env, status, split).charges,
        ),
{
    lemma_run_charges(word, n, word.len() as int, env, status, split);
    let last = run_after(word, word.len() as int, env, status, split);
    lemma_prefix_push(last.charges, string_size());
    if last.keep {
        lemma_prefix_transitive(
            run_after(word, n, env, status, split).charges,
            last.charges,
            run_word(word, env, status, split).charges,
        );
    }
}

/// Without splitting a word is one field, and it is kept.
proof fn lemma_unsplit(
    word: Seq<SegmentView>,
    n: int,
    env: Map<Seq<char>, Seq<char>>,
    status: int,
)
    requires
        0 <= n,
    ensures
        run_after(word, n, env, status, false).fields == Seq::<Seq<char>>::empty(),
        run_after(word, n, env, status, false).keep,
        run_after(word, n, env, status, false).current == expand::joined_text(
            word,
            n,
            env,
            status,
        ),
    decreases n,
{
    if n > 0 {
        lemma_unsplit(word, n - 1, env, status);
    }
}

proof fn lemma_whole(
    word: Seq<SegmentView>,
    n: int,
    env: Map<Seq<char>, Seq<char>>,
    status: int,
)
    requires
        0 <= n <= word.len(),
        forall|i: int| 0 <= i < n ==> !expand::is_split(#[trigger] word[i]),
    ensures
        run_after(word, n, env, status, true).fields == Seq::<Seq<char>>::empty(),
        run_after(word, n, env, status, true).keep == (n > 0),
        run_after(word, n, env, status, true).current == expand::joined_text(word, n, env, status),
    decreases n,
{
    if n > 0 {
        lemma_whole(word, n - 1, env, status);
    }
}

/// A word that holds quoted parts and literal text only is one field, whatever its variables
/// hold.
pub proof fn law_quoted_words_are_one_field(
    word: Seq<SegmentView>,
    env: Map<Seq<char>, Seq<char>>,
    status: int,
)
    requires
        word.len() > 0,
        forall|i: int| 0 <= i < word.len() ==> !expand::is_split(#[trigger] word[i]),
    ensures
        run_word(word, env, status, true).fields == seq![
            expand::assignment_text(word, env, status),
        ],
{
    lemma_whole(word, word.len() as int, env, status);
    let run = run_after(word, word.len() as int, env, status, true);
    assert(run.fields.push(run.current) =~= seq![expand::assignment_text(word, env, status)]);
}

/// Whether a text holds something, and nothing that separates fields.
pub open spec fn unbroken(field: Seq<char>) -> bool {
    field.len() > 0 && forall|i: int| 0 <= i < field.len() ==> !expand::separator(#[trigger] field[i])
}

proof fn lemma_split_unbroken(run: Run, value: Seq<char>, n: int)
    requires
        0 <= n <= value.len(),
        run.fields.len() == 0,
        run.current.len() == 0,
        !run.keep,
    ensures
        forall|i: int|
            0 <= i < split_value(run, value, n).fields.len() ==> unbroken(
                #[trigger] split_value(run, value, n).fields[i],
            ),
        split_value(run, value, n).keep ==> unbroken(split_value(run, value, n).current),
        !split_value(run, value, n).keep ==> split_value(run, value, n).current.len() == 0,
    decreases n,
{
    if n > 0 {
        lemma_split_unbroken(run, value, n - 1);
    }
}

/// The fields of a word that is one unquoted expansion are not empty and hold nothing that
/// separates fields.
pub proof fn law_unquoted_words_become_unbroken_fields(
    segment: SegmentView,
    env: Map<Seq<char>, Seq<char>>,
    status: int,
)
    requires
        expand::is_split(segment),
    ensures
        forall|i: int|
            0 <= i < run_word(seq![segment], env, status, true).fields.len() ==> unbroken(
                #[trigger] run_word(seq![segment], env, status, true).fields[i],
            ),
{
    let value = expand::segment_text(segment, env, status);
    let start = Run {
        fields: seq![],
        current: seq![],
        keep: false,
        charges: Seq::<int>::empty().push(text::byte_len(value) as int),
    };
    lemma_split_unbroken(start, value, value.len() as int);
    assert(run_after(seq![segment], 0, env, status, true) == (Run {
        fields: seq![],
        current: seq![],
        keep: false,
        charges: seq![],
    }));
    assert(run_after(seq![segment], 1, env, status, true) == split_value(
        start,
        value,
        value.len() as int,
    ));
}

// ---- expansion ----

impl Budget {
    fn charge(&mut self, bytes: usize) -> (r: Option<()>)
        ensures
            r is Some == (bytes <= old(self).0),
            final(self).0 == (if bytes <= old(self).0 {
                old(self).0 - bytes
            } else {
                old(self).0 as int
            }),
    {
        if bytes <= self.0 {
            self.0 = self.0 - bytes;
            Some(())
        } else {
            None
        }
    }

    /// Charges `bytes` more after the charges in `paid`, which took the budget from `start` to
    /// where it is.
    fn charge_after(&mut self, Ghost(start): Ghost<int>, Ghost(paid): Ghost<Seq<int>>, bytes: usize) -> (r:
        bool)
        requires
            spend(start, paid) == (old(self).0 as int, true),
        ensures
            spend(start, paid.push(bytes as int)) == (final(self).0 as int, r),
    {
        proof {
            assert(paid.push(bytes as int).drop_last() =~= paid);
        }
        match self.charge(bytes) {
            Some(_) => true,
            None => false,
        }
    }

    /// Expands one word. The value of an unquoted expansion is split where `split` says so.
    pub fn word(&mut self, word: &Word, env: &Env, status: i32, split: bool) -> (r: Option<
        Vec<String>,
    >)
        ensures
            (final(self).0 as int, r is Some) == spend(
                old(self).0 as int,
                run_word(word@, env@, status as int, split).charges,
            ),
            r matches Some(fields) ==> text::texts(fields@) == run_word(
                word@,
                env@,
                status as int,
                split,
            ).fields,
    {
        let ghost start = self.0 as int;
        let ghost all = run_word(word@, env@, status as int, split).charges;
        let mut fields: Vec<String> = Vec::new();
        let mut current = String::new();
        let mut keep = !split;
        let mut i: usize = 0;
        let ghost mut charges: Seq<int> = seq![];
        proof {
            assert(text::texts(fields@) =~= seq![]);
            assert(current@ =~= seq![]);
        }
        while i < word.segments.len()
            invariant
                i <= word.segments@.len(),
                start == old(self).0,
                all == run_word(word@, env@, status as int, split).charges,
                spend(start, charges) == (self.0 as int, true),
                run_after(word@, i as int, env@, status as int, split) == (Run {
                    fields: text::texts(fields@),
                    current: current@,
                    keep,
                    charges,
                }),
            decreases word.segments@.len() - i,
        {
            let segment = &word.segments[i];
            let value = expand::segment_value(segment, env, status);
            let ghost run = Run { fields: text::texts(fields@), current: current@, keep, charges };
            let ghost paid = charges.push(text::byte_len(value@) as int);
            proof {
                assert(word@[i as int] == segment@);
                lemma_step_charges(run, segment@, env@, status as int, split);
                lemma_word_charges(word@, i + 1, env@, status as int, split);
                lemma_prefix_transitive(
                    paid,
                    run_after(word@, i + 1, env@, status as int, split).charges,
                    all,
                );
            }
            if !self.charge_after(Ghost(start), Ghost(charges), text::str_bytes(value.as_str())) {
                proof {
                    lemma_spend_stops(start, paid, all);
                }
                return None;
            }
            proof {
                charges = paid;
            }
            let splits = match segment {
                Segment::Expansion { quoted, .. } => split && !*quoted,
                Segment::Literal { .. } => false,
            };
            if splits {
                let chars = text::to_chars(value.as_str());
                let ghost charged = Run { charges, ..run };
                let mut k: usize = 0;
                while k < chars.len()
                    invariant
                        k <= chars@.len(),
                        chars@ == value@,
                        i < word.segments@.len(),
                        start == old(self).0,
                        all == run_word(word@, env@, status as int, split).charges,
                        spend(start, charges) == (self.0 as int, true),
                        split_value(charged, value@, k as int) == (Run {
                            fields: text::texts(fields@),
                            current: current@,
                            keep,
                            charges,
                        }),
                        run_after(word@, i + 1, env@, status as int, split) == split_value(
                            charged,
                            value@,
                            value@.len() as int,
                        ),
                    decreases chars@.len() - k,
                {
                    let c = chars[k];
                    if c != ' ' && c != '\t' && c != '\n' {
                        current.push(c);
                        keep = true;
                    } else if keep {
                        let ghost next = charges.push(string_size());
                        proof {
                            assert(split_value(charged, value@, k + 1).charges == next);
                            lemma_split_charges(charged, value@, k + 1, value@.len() as int);
                            lemma_word_charges(word@, i + 1, env@, status as int, split);
                            lemma_prefix_transitive(
                                next,
                                run_after(word@, i + 1, env@, status as int, split).charges,
                                all,
                            );
                        }
                        if !self.charge_after(
                            Ghost(start),
                            Ghost(charges),
                            core::mem::size_of::<String>(),
                        ) {
                            proof {
                                lemma_spend_stops(start, next, all);
                            }
                            return None;
                        }
                        proof {
                            charges = next;
                        }
                        let ghost before = fields@;
                        let ghost field = current@;
                        fields.push(current);
                        current = String::new();
                        keep = false;
                        proof {
                            assert(current@ =~= seq![]);
                            assert(text::texts(fields@) =~= text::texts(before).push(field));
                        }
                    }
                    k = k + 1;
                }
            } else {
                current.append(value.as_str());
                keep = true;
            }
            i = i + 1;
        }
        if keep {
            if !self.charge_after(Ghost(start), Ghost(charges), core::mem::size_of::<String>()) {
                return None;
            }
            let ghost before = fields@;
            let ghost field = current@;
            fields.push(current);
            proof {
                assert(text::texts(fields@) =~= text::texts(before).push(field));
            }
        }
        Some(fields)
    }

    /// Expands a whole command, in turn: its assignments, its words and its redirect targets.
    ///
    /// The value of an assignment sees the earlier assignments of the command. The words see
    /// the environment as it was, and so do the redirects of a command that has words.
    pub fn expand<'a>(&mut self, syntax: &'a SimpleCommand, base: &Env, status: i32) -> (r: Option<
        ExpandedCommand<'a>,
    >)
        ensures
            (final(self).0 as int, r is Some) == spend(
                old(self).0 as int,
                command_charges(syntax@, base.pairs(), base@, status as int),
            ),
            r matches Some(expanded) ==> expanded.syntax == syntax && expanded.env@
                == command_env(syntax@, base@, status as int) && text::texts(expanded.words@)
                == command_words(syntax@, base@, status as int) && fields_view(expanded.targets@)
                == target_fields(
                syntax@.redirects,
                redirect_env(syntax@, base@, status as int),
                status as int,
            ),
    {
        let ghost view = syntax@;
        let ghost st = status as int;
        let ghost pairs = base.pairs();
        let ghost start = self.0 as int;
        let ghost head: Seq<int> = seq![layout::size_of::<ExpandedCommand<'static>>() as int];
        let ghost pairs_part = pair_charges(pairs, pairs.len() as int);
        let ghost assignments_part = assignment_charges(
            view.assignments,
            view.assignments.len() as int,
            base@,
            st,
        );
        let ghost words_part = word_charges(view.words, view.words.len() as int, base@, st);
        let ghost target_env = redirect_env(view, base@, st);
        let ghost targets_part = target_charges(
            view.redirects,
            view.redirects.len() as int,
            target_env,
            st,
        );
        let ghost all = command_charges(view, pairs, base@, st);
        let ghost until_pairs = head + pairs_part;
        let ghost until_assignments = until_pairs + assignments_part;
        let ghost until_words = until_assignments + words_part;
        proof {
            lemma_prefix_append(head, pairs_part);
            lemma_prefix_append(until_pairs, assignments_part);
            lemma_prefix_append(until_assignments, words_part);
            lemma_prefix_append(until_words, targets_part);
            lemma_prefix_transitive(until_assignments, until_words, all);
            lemma_prefix_transitive(until_pairs, until_assignments, all);
            lemma_prefix_transitive(head, until_pairs, all);
            assert(Seq::<int>::empty().push(head[0]) =~= head);
        }
        if !self.charge_after(
            Ghost(start),
            Ghost(Seq::<int>::empty()),
            core::mem::size_of::<ExpandedCommand<'static>>(),
        ) {
            proof {
                lemma_spend_stops(start, head, all);
            }
            return None;
        }
        let entries = base.entries();
        let mut i: usize = 0;
        proof {
            assert(head + pair_charges(pairs, 0) =~= head);
        }
        while i < entries.len()
            invariant
                i <= entries@.len(),
                start == old(self).0,
                pairs == base.pairs(),
                pairs == crate::env::values_view(crate::textmap::pairs_view(entries@)),
                spend(start, head + pair_charges(pairs, i as int)) == (self.0 as int, true),
                (head + pair_charges(pairs, pairs.len() as int)).is_prefix_of(all),
                all == command_charges(syntax@, base.pairs(), base@, status as int),
            decreases entries@.len() - i,
        {
            let ghost paid = head + pair_charges(pairs, i as int);
            let ghost one = paid.push(2 * string_size());
            let ghost two = one.push(text::byte_len(pairs[i as int].0) as int);
            let ghost three = two.push(text::byte_len(pairs[i as int].1) as int);
            proof {
                assert(pairs[i as int] == (entries@[i as int].0@, entries@[i as int].1@));
                assert(head + pair_charges(pairs, i + 1) =~= three);
                lemma_pair_prefix(pairs, i + 1, pairs.len() as int);
                lemma_prefix_under(
                    head,
                    pair_charges(pairs, i + 1),
                    pair_charges(pairs, pairs.len() as int),
                );
                lemma_prefix_transitive(
                    three,
                    head + pair_charges(pairs, pairs.len() as int),
                    all,
                );
                lemma_prefix_push(two, text::byte_len(pairs[i as int].1) as int);
                lemma_prefix_transitive(two, three, all);
                lemma_prefix_push(one, text::byte_len(pairs[i as int].0) as int);
                lemma_prefix_transitive(one, two, all);
                assert(one.drop_last() =~= paid);
            }
            let double = match core::mem::size_of::<String>().checked_mul(2) {
                Some(double) => double,
                None => {
                    proof {
                        lemma_spend_stops(start, one, all);
                    }
                    return None;
                },
            };
            if !self.charge_after(Ghost(start), Ghost(paid), double) {
                proof {
                    lemma_spend_stops(start, one, all);
                }
                return None;
            }
            if !self.charge_after(
                Ghost(start),
                Ghost(one),
                text::str_bytes(entries[i].0.as_str()),
            ) {
                proof {
                    lemma_spend_stops(start, two, all);
                }
                return None;
            }
            if !self.charge_after(
                Ghost(start),
                Ghost(two),
                text::str_bytes(entries[i].1.as_str()),
            ) {
                proof {
                    lemma_spend_stops(start, three, all);
                }
                return None;
            }
            i = i + 1;
        }
        let mut env = base.clone();
        let mut i: usize = 0;
        proof {
            assert(until_pairs + assignment_charges(view.assignments, 0, base@, st)
                =~= until_pairs);
        }
        while i < syntax.assignments.len()
            invariant
                i <= syntax.assignments@.len(),
                start == old(self).0,
                view == syntax@,
                st == status,
                env@ == expand::env_after(view.assignments, i as int, base@, st),
                spend(
                    start,
                    until_pairs + assignment_charges(view.assignments, i as int, base@, st),
                ) == (self.0 as int, true),
                (until_pairs + assignment_charges(
                    view.assignments,
                    view.assignments.len() as int,
                    base@,
                    st,
                )).is_prefix_of(all),
                all == command_charges(syntax@, base.pairs(), base@, status as int),
            decreases syntax.assignments@.len() - i,
        {
            let assignment = &syntax.assignments[i];
            let ghost done = assignment_charges(view.assignments, i as int, base@, st);
            let ghost paid = until_pairs + done;
            let ghost one = paid.push(string_size());
            let ghost two = one.push(text::byte_len(assignment.name@) as int);
            let ghost run = run_word(assignment.value@, env@, st, false);
            let ghost three = two + run.charges;
            proof {
                assert(view.assignments[i as int] == assignment@);
                assert(until_pairs + assignment_charges(view.assignments, i + 1, base@, st)
                    =~= three);
                lemma_assignment_prefix(
                    view.assignments,
                    i + 1,
                    view.assignments.len() as int,
                    base@,
                    st,
                );
                lemma_prefix_under(
                    until_pairs,
                    assignment_charges(view.assignments, i + 1, base@, st),
                    assignment_charges(
                        view.assignments,
                        view.assignments.len() as int,
                        base@,
                        st,
                    ),
                );
                lemma_prefix_transitive(
                    three,
                    until_pairs + assignment_charges(
                        view.assignments,
                        view.assignments.len() as int,
                        base@,
                        st,
                    ),
                    all,
                );
                lemma_prefix_append(two, run.charges);
                lemma_prefix_transitive(two, three, all);
                lemma_prefix_push(one, text::byte_len(assignment.name@) as int);
                lemma_prefix_transitive(one, two, all);
                lemma_spend_append(start, two, run.charges);
                lemma_unsplit(assignment.value@, assignment.value@.len() as int, env@, st);
            }
            if !self.charge_after(Ghost(start), Ghost(paid), core::mem::size_of::<String>()) {
                proof {
                    lemma_spend_stops(start, one, all);
                }
                return None;
            }
            if !self.charge_after(
                Ghost(start),
                Ghost(one),
                text::str_bytes(assignment.name.as_str()),
            ) {
                proof {
                    lemma_spend_stops(start, two, all);
                }
                return None;
            }
            let value = match self.word(&assignment.value, &env, status, false) {
                Some(fields) => {
                    let mut fields = fields;
                    proof {
                        assert(run.fields =~= seq![
                            expand::assignment_text(assignment.value@, env@, st),
                        ]);
                        assert(fields@.len() == text::texts(fields@).len());
                        assert(text::texts(fields@)[0] == fields@[0]@);
                    }
                    match fields.pop() {
                        Some(value) => value,
                        None => {
                            return None;
                        },
                    }
                },
                None => {
                    proof {
                        lemma_spend_stops(start, three, all);
                    }
                    return None;
                },
            };
            env.insert(assignment.name.clone(), value);
            i = i + 1;
        }
        let mut words: Vec<String> = Vec::new();
        let mut i: usize = 0;
        proof {
            assert(text::texts(words@) =~= seq![]);
            assert(until_assignments + word_charges(view.words, 0, base@, st)
                =~= until_assignments);
        }
        while i < syntax.words.len()
            invariant
                i <= syntax.words@.len(),
                start == old(self).0,
                view == syntax@,
                st == status,
                text::texts(words@) == word_fields(view.words, i as int, base@, st),
                spend(start, until_assignments + word_charges(view.words, i as int, base@, st))
                    == (self.0 as int, true),
                (until_assignments + word_charges(
                    view.words,
                    view.words.len() as int,
                    base@,
                    st,
                )).is_prefix_of(all),
                all == command_charges(syntax@, base.pairs(), base@, status as int),
            decreases syntax.words@.len() - i,
        {
            let ghost paid = until_assignments + word_charges(view.words, i as int, base@, st);
            let ghost run = run_word(view.words[i as int], base@, st, true);
            let ghost next = paid + run.charges;
            proof {
                assert(view.words[i as int] == syntax.words@[i as int]@);
                assert(until_assignments + word_charges(view.words, i + 1, base@, st) =~= next);
                lemma_word_charges_prefix(view.words, i + 1, view.words.len() as int, base@, st);
                lemma_prefix_under(
                    until_assignments,
                    word_charges(view.words, i + 1, base@, st),
                    word_charges(view.words, view.words.len() as int, base@, st),
                );
                lemma_prefix_transitive(
                    next,
                    until_assignments + word_charges(
                        view.words,
                        view.words.len() as int,
                        base@,
                        st,
                    ),
                    all,
                );
                lemma_spend_append(start, paid, run.charges);
            }
            match self.word(&syntax.words[i], base, status, true) {
                Some(fields) => {
                    let mut fields = fields;
                    let ghost before = words@;
                    let ghost added = fields@;
                    words.append(&mut fields);
                    proof {
                        assert(text::texts(words@) =~= text::texts(before) + text::texts(added));
                    }
                },
                None => {
                    proof {
                        lemma_spend_stops(start, next, all);
                    }
                    return None;
                },
            }
            i = i + 1;
        }
        let null = words.len() == 0;
        proof {
            assert(words@.len() == text::texts(words@).len());
            assert(target_env == (if null { env@ } else { base@ }));
        }
        let mut targets: Vec<Vec<String>> = Vec::new();
        let mut i: usize = 0;
        let ghost all_fields = target_fields(view.redirects, target_env, st);
        proof {
            assert(fields_view(targets@) =~= all_fields.take(0));
            assert(until_words + target_charges(view.redirects, 0, target_env, st)
                =~= until_words);
        }
        while i < syntax.redirects.len()
            invariant
                i <= syntax.redirects@.len(),
                start == old(self).0,
                view == syntax@,
                st == status,
                target_env == (if null { env@ } else { base@ }),
                all_fields == target_fields(view.redirects, target_env, st),
                fields_view(targets@) == all_fields.take(i as int),
                spend(
                    start,
                    until_words + target_charges(view.redirects, i as int, target_env, st),
                ) == (self.0 as int, true),
                all == until_words + target_charges(
                    view.redirects,
                    view.redirects.len() as int,
                    target_env,
                    st,
                ),
                all == command_charges(syntax@, base.pairs(), base@, status as int),
            decreases syntax.redirects@.len() - i,
        {
            let redirect = &syntax.redirects[i];
            let ghost paid = until_words + target_charges(
                view.redirects,
                i as int,
                target_env,
                st,
            );
            let ghost one = paid.push(layout::size_of::<Vec<String>>() as int);
            let ghost run = target_run(redirect@, target_env, st);
            let ghost next = one + run.charges;
            proof {
                assert(view.redirects[i as int] == redirect@);
                assert(until_words + target_charges(view.redirects, i + 1, target_env, st)
                    =~= next);
                lemma_target_prefix(
                    view.redirects,
                    i + 1,
                    view.redirects.len() as int,
                    target_env,
                    st,
                );
                lemma_prefix_under(
                    until_words,
                    target_charges(view.redirects, i + 1, target_env, st),
                    target_charges(view.redirects, view.redirects.len() as int, target_env, st),
                );
                lemma_prefix_append(one, run.charges);
                lemma_prefix_transitive(one, next, all);
                lemma_spend_append(start, one, run.charges);
                assert(all_fields.take(i + 1) =~= all_fields.take(i as int).push(run.fields));
            }
            if !self.charge_after(Ghost(start), Ghost(paid), core::mem::size_of::<Vec<String>>()) {
                proof {
                    lemma_spend_stops(start, one, all);
                }
                return None;
            }
            let fields = match &redirect.target {
                RedirectTarget::Word(word) => {
                    let expanded = if null {
                        self.word(word, &env, status, true)
                    } else {
                        self.word(word, base, status, true)
                    };
                    match expanded {
                        Some(fields) => fields,
                        None => {
                            proof {
                                lemma_spend_stops(start, next, all);
                            }
                            return None;
                        },
                    }
                },
                RedirectTarget::Fd(_) => {
                    let none: Vec<String> = Vec::new();
                    proof {
                        assert(next =~= one);
                        assert(text::texts(none@) =~= seq![]);
                    }
                    none
                },
            };
            let ghost before = targets@;
            targets.push(fields);
            proof {
                assert(fields_view(targets@) =~= fields_view(before).push(text::texts(fields@)));
            }
            i = i + 1;
        }
        proof {
            assert(all_fields.take(i as int) =~= all_fields);
        }
        Some(ExpandedCommand { syntax, env, words, targets })
    }
}

/// The texts of lists of fields.
pub open spec fn fields_view(v: Seq<Vec<String>>) -> Seq<Seq<Seq<char>>> {
    v.map_values(|f: Vec<String>| text::texts(f@))
}

proof fn lemma_prefix_refl(a: Seq<int>)
    ensures
        a.is_prefix_of(a),
{
    assert(a =~= a.subrange(0, a.len() as int));
}

proof fn lemma_pair_prefix(pairs: Seq<(Seq<char>, Seq<char>)>, n: int, m: int)
    requires
        0 <= n <= m,
    ensures
        pair_charges(pairs, n).is_prefix_of(pair_charges(pairs, m)),
    decreases m - n,
{
    if n < m {
        lemma_pair_prefix(pairs, n, m - 1);
        let a = pair_charges(pairs, m - 1);
        let b = a.push(2 * string_size());
        let c = b.push(text::byte_len(pairs[m - 1].0) as int);
        lemma_prefix_push(a, 2 * string_size());
        lemma_prefix_push(b, text::byte_len(pairs[m - 1].0) as int);
        lemma_prefix_push(c, text::byte_len(pairs[m - 1].1) as int);
        lemma_prefix_transitive(a, b, c);
        lemma_prefix_transitive(a, c, pair_charges(pairs, m));
        lemma_prefix_transitive(pair_charges(pairs, n), a, pair_charges(pairs, m));
    } else {
        lemma_prefix_refl(pair_charges(pairs, n));
    }
}

proof fn lemma_assignment_prefix(
    assignments: Seq<AssignmentView>,
    n: int,
    m: int,
    base: Map<Seq<char>, Seq<char>>,
    status: int,
)
    requires
        0 <= n <= m,
    ensures
        assignment_charges(assignments, n, base, status).is_prefix_of(
            assignment_charges(assignments, m, base, status),
        ),
    decreases m - n,
{
    if n < m {
        lemma_assignment_prefix(assignments, n, m - 1, base, status);
        let a = assignment_charges(assignments, m - 1, base, status);
        let b = a.push(string_size());
        let c = b.push(text::byte_len(assignments[m - 1].name) as int);
        let all = assignment_charges(assignments, m, base, status);
        lemma_prefix_push(a, string_size());
        lemma_prefix_push(b, text::byte_len(assignments[m - 1].name) as int);
        lemma_prefix_transitive(a, b, c);
        lemma_prefix_append(
            c,
            run_word(
                assignments[m - 1].value,
                expand::env_after(assignments, m - 1, base, status),
                status,
                false,
            ).charges,
        );
        lemma_prefix_transitive(a, c, all);
        lemma_prefix_transitive(assignment_charges(assignments, n, base, status), a, all);
    } else {
        lemma_prefix_refl(assignment_charges(assignments, n, base, status));
    }
}

proof fn lemma_word_charges_prefix(
    words: Seq<Seq<SegmentView>>,
    n: int,
    m: int,
    env: Map<Seq<char>, Seq<char>>,
    status: int,
)
    requires
        0 <= n <= m,
    ensures
        word_charges(words, n, env, status).is_prefix_of(word_charges(words, m, env, status)),
    decreases m - n,
{
    if n < m {
        lemma_word_charges_prefix(words, n, m - 1, env, status);
        let a = word_charges(words, m - 1, env, status);
        lemma_prefix_append(a, run_word(words[m - 1], env, status, true).charges);
        lemma_prefix_transitive(
            word_charges(words, n, env, status),
            a,
            word_charges(words, m, env, status),
        );
    } else {
        lemma_prefix_refl(word_charges(words, n, env, status));
    }
}

proof fn lemma_target_prefix(
    redirects: Seq<RedirectView>,
    n: int,
    m: int,
    env: Map<Seq<char>, Seq<char>>,
    status: int,
)
    requires
        0 <= n <= m,
    ensures
        target_charges(redirects, n, env, status).is_prefix_of(
            target_charges(redirects, m, env, status),
        ),
    decreases m - n,
{
    if n < m {
        lemma_target_prefix(redirects, n, m - 1, env, status);
        let a = target_charges(redirects, m - 1, env, status);
        let b = a.push(layout::size_of::<Vec<String>>() as int);
        let all = target_charges(redirects, m, env, status);
        lemma_prefix_push(a, layout::size_of::<Vec<String>>() as int);
        lemma_prefix_append(b, target_run(redirects[m - 1], env, status).charges);
        lemma_prefix_transitive(a, b, all);
        lemma_prefix_transitive(target_charges(redirects, n, env, status), a, all);
    } else {
        lemma_prefix_refl(target_charges(redirects, n, env, status));
    }
}

// ---- what is charged for is what a word expands to ----

/// Whether a run has the fields of a state: those that have ended, and the one being filled.
spec fn stands_for(run: Run, state: expand::Fields) -> bool {
    &&& state.fields == run.fields.push(run.current)
    &&& state.keep == run.keep
    &&& !run.keep ==> run.current.len() == 0
}

proof fn lemma_splits_alike(run: Run, state: expand::Fields, value: Seq<char>, n: int)
    requires
        stands_for(run, state),
        0 <= n <= value.len(),
    ensures
        stands_for(split_value(run, value, n), expand::split_into(state, value.take(n))),
    decreases n,
{
    assert(state.fields.last() == run.current);
    if n == 0 {
        expand::law_values_are_split_character_by_character(state, seq![], ' ');
        assert(value.take(0) =~= Seq::<char>::empty());
    } else {
        lemma_splits_alike(run, state, value, n - 1);
        let c = value[n - 1];
        expand::law_values_are_split_character_by_character(state, value.take(n - 1), c);
        assert(value.take(n) =~= value.take(n - 1).push(c));
        let before = split_value(run, value, n - 1);
        let fields = before.fields.push(before.current);
        assert(fields.drop_last() =~= before.fields);
        assert(before.current + seq![c] =~= before.current.push(c));
        assert(expand::append_last(fields, seq![c]) =~= before.fields.push(before.current.push(c)));
    }
}

proof fn lemma_runs_alike(
    word: Seq<SegmentView>,
    n: int,
    env: Map<Seq<char>, Seq<char>>,
    status: int,
)
    requires
        0 <= n <= word.len(),
    ensures
        stands_for(
            run_after(word, n, env, status, true),
            expand::fields_after(word, n, env, status),
        ),
    decreases n,
{
    if n == 0 {
        let none: Seq<char> = seq![];
        assert(Seq::<Seq<char>>::empty().push(none) =~= seq![none]);
    } else {
        lemma_runs_alike(word, n - 1, env, status);
        let run = run_after(word, n - 1, env, status, true);
        let state = expand::fields_after(word, n - 1, env, status);
        let value = expand::segment_text(word[n - 1], env, status);
        let charged = Run { charges: run.charges.push(text::byte_len(value) as int), ..run };
        if expand::is_split(word[n - 1]) {
            lemma_splits_alike(charged, state, value, value.len() as int);
            assert(value.take(value.len() as int) =~= value);
        } else {
            assert(state.fields.drop_last() =~= run.fields);
            assert(expand::append_last(state.fields, value) =~= run.fields.push(
                run.current + value,
            ));
        }
    }
}

/// What is charged for is what a word expands to: the run over a word has the fields of the word
/// where it is split, and the text of its value where it is not.
pub proof fn law_runs_have_the_fields_of_words(
    word: Seq<SegmentView>,
    env: Map<Seq<char>, Seq<char>>,
    status: int,
)
    ensures
        run_word(word, env, status, true).fields == expand::word_fields(word, env, status),
        run_word(word, env, status, false).fields == seq![
            expand::assignment_text(word, env, status),
        ],
{
    let n = word.len() as int;
    lemma_runs_alike(word, n, env, status);
    let run = run_after(word, n, env, status, true);
    let state = expand::fields_after(word, n, env, status);
    assert(state.fields.drop_last() =~= run.fields);
    lemma_unsplit(word, n, env, status);
    assert(Seq::<Seq<char>>::empty().push(expand::assignment_text(word, env, status)) =~= seq![
        expand::assignment_text(word, env, status),
    ]);
}

/// The words of a command become the fields that its expansion gives, one word behind the other.
pub proof fn law_words_have_their_fields(
    words: Seq<Seq<SegmentView>>,
    n: int,
    env: Map<Seq<char>, Seq<char>>,
    status: int,
)
    requires
        0 <= n <= words.len(),
    ensures
        word_fields(words, n, env, status) == expand::words_fields(words, n, env, status),
    decreases n,
{
    if n > 0 {
        law_words_have_their_fields(words, n - 1, env, status);
        law_runs_have_the_fields_of_words(words[n - 1], env, status);
    }
}

/// Charges are paid one behind the other: all of them are where they come to no more than there
/// is, and what is left is the rest.
pub proof fn law_charges_are_paid_in_turn(left: int, a: Seq<int>, b: Seq<int>)
    requires
        forall|i: int| 0 <= i < a.len() ==> 0 <= #[trigger] a[i],
    ensures
        spend(left, a).1 ==> spend(left, a + b) == spend(spend(left, a).0, b),
        !spend(left, a).1 ==> !spend(left, a + b).1,
        spend(left, a).1 ==> spend(left, a).0 == left - sum(a),
        left >= 0 ==> (spend(left, a).1 <==> sum(a) <= left),
{
    lemma_spend_append(left, a, b);
    lemma_spend_sum(left, a);
}

/// What charges come to.
pub open spec fn sum(charges: Seq<int>) -> int
    decreases charges.len(),
{
    if charges.len() == 0 {
        0
    } else {
        sum(charges.drop_last()) + charges.last()
    }
}

proof fn lemma_spend_sum(left: int, charges: Seq<int>)
    requires
        forall|i: int| 0 <= i < charges.len() ==> 0 <= #[trigger] charges[i],
    ensures
        spend(left, charges).1 ==> spend(left, charges).0 == left - sum(charges),
        left >= 0 ==> (spend(left, charges).1 <==> sum(charges) <= left),
        sum(charges) >= 0,
    decreases charges.len(),
{
    if charges.len() > 0 {
        lemma_spend_sum(left, charges.drop_last());
        assert(0 <= charges[charges.len() - 1]);
    }
}

/// The bytes of what the first `n` segments of a word stand for.
pub open spec fn segments_bytes(
    word: Seq<SegmentView>,
    n: int,
    env: Map<Seq<char>, Seq<char>>,
    status: int,
) -> int
    decreases n,
{
    if n <= 0 {
        0
    } else {
        segments_bytes(word, n - 1, env, status) + text::byte_len(
            expand::segment_text(word[n - 1], env, status),
        )
    }
}

proof fn lemma_sum_push(charges: Seq<int>, charge: int)
    ensures
        sum(charges.push(charge)) == sum(charges) + charge,
{
    assert(charges.push(charge).drop_last() =~= charges);
}

proof fn lemma_split_sum(run: Run, value: Seq<char>, n: int)
    requires
        0 <= n <= value.len(),
    ensures
        ({
            let after = split_value(run, value, n);
            sum(after.charges) - after.fields.len() * string_size() == sum(run.charges)
                - run.fields.len() * string_size()
        }),
    decreases n,
{
    if n > 0 {
        lemma_split_sum(run, value, n - 1);
        let before = split_value(run, value, n - 1);
        lemma_close_charges(before);
    }
}

proof fn lemma_close_charges(run: Run)
    ensures
        ({
            let after = close_field(run);
            sum(after.charges) - after.fields.len() * string_size() == sum(run.charges)
                - run.fields.len() * string_size()
        }),
{
    lemma_sum_push(run.charges, string_size());
    let k = run.fields.len() as int;
    let size = string_size();
    assert((k + 1) * size == k * size + size) by (nonlinear_arith);
}

proof fn lemma_run_sum(
    word: Seq<SegmentView>,
    n: int,
    env: Map<Seq<char>, Seq<char>>,
    status: int,
    split: bool,
)
    requires
        0 <= n <= word.len(),
    ensures
        ({
            let run = run_after(word, n, env, status, split);
            sum(run.charges) == segments_bytes(word, n, env, status) + run.fields.len()
                * string_size()
        }),
    decreases n,
{
    if n > 0 {
        lemma_run_sum(word, n - 1, env, status, split);
        let run = run_after(word, n - 1, env, status, split);
        let value = expand::segment_text(word[n - 1], env, status);
        let bytes = text::byte_len(value) as int;
        lemma_sum_push(run.charges, bytes);
        let charged = Run { charges: run.charges.push(bytes), ..run };
        lemma_split_sum(charged, value, value.len() as int);
    }
}

/// A word is charged for the bytes of what its segments stand for, and for a string for each of
/// its fields.
pub proof fn law_words_are_charged_for_bytes_and_fields(
    word: Seq<SegmentView>,
    env: Map<Seq<char>, Seq<char>>,
    status: int,
    split: bool,
)
    ensures
        ({
            let run = run_word(word, env, status, split);
            sum(run.charges) == segments_bytes(word, word.len() as int, env, status)
                + run.fields.len() * string_size()
        }),
{
    lemma_run_sum(word, word.len() as int, env, status, split);
    lemma_close_charges(run_after(word, word.len() as int, env, status, split));
}

} // verus!
