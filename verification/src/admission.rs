//! Admission: what a command may cost before any of it is expanded.

use vstd::layout;
use vstd::prelude::*;

use crate::env::Env;
use crate::expand;
use crate::shell::{RedirectTarget, Segment, SimpleCommand, Word};
use crate::shell::{AssignmentView, RedirectTargetView, RedirectView, SegmentView, SimpleView};
use crate::text;
use crate::textmap::TextMap;

verus! {

/// The largest machine number where a number does not fit.
pub open spec fn capped(n: int) -> int {
    if n <= usize::MAX {
        n
    } else {
        usize::MAX as int
    }
}

pub open spec fn larger(a: int, b: int) -> int {
    if a < b {
        b
    } else {
        a
    }
}

/// The bytes that a string takes besides its text.
pub open spec fn string_size() -> int {
    layout::size_of::<String>() as int
}

/// The bytes that a reference to a text takes.
pub open spec fn reference_size() -> int {
    layout::size_of::<&'static str>() as int
}

/// The bytes that `n` fields take besides their texts.
pub open spec fn fields_size(n: int) -> int {
    n * string_size() + n * reference_size()
}

/// The bytes of the first `n` names and values.
pub open spec fn pairs_bytes(p: Seq<(Seq<char>, Seq<char>)>, n: int) -> int
    decreases n,
{
    if n <= 0 {
        0
    } else {
        pairs_bytes(p, n - 1) + text::byte_len(p[n - 1].0) + text::byte_len(p[n - 1].1)
    }
}

/// The index of the last of the first `n` assignments that sets `name`.
pub open spec fn last_assignment(
    assignments: Seq<AssignmentView>,
    n: int,
    name: Seq<char>,
) -> Option<int>
    decreases n,
{
    if n <= 0 {
        None
    } else if assignments[n - 1].name == name {
        Some(n - 1)
    } else {
        last_assignment(assignments, n - 1, name)
    }
}

/// How many fields the value made of the first `n` segments may split into.
pub open spec fn field_bound(
    word: Seq<SegmentView>,
    n: int,
    env: Map<Seq<char>, Seq<char>>,
    status: int,
) -> int
    decreases n,
{
    if n <= 0 {
        1
    } else {
        field_bound(word, n - 1, env, status) + expand::parts(
            expand::segment_text(word[n - 1], env, status),
        ).len() + 2
    }
}

/// Where a word stands, and what the command assigns before it is expanded.
#[verifier::ext_equal]
pub struct Place {
    /// Whether unquoted expansions are split.
    pub split: bool,
    /// The assignments that the word may see: those of its command, for the target of a redirect.
    pub assignments: Seq<AssignmentView>,
    pub env: Map<Seq<char>, Seq<char>>,
    pub status: int,
}

/// The assignment that a segment may read: redirects of a command without words see them.
pub open spec fn assigned(segment: SegmentView, place: Place) -> Option<int> {
    match segment {
        SegmentView::Expansion { name, .. } => last_assignment(
            place.assignments,
            place.assignments.len() as int,
            name,
        ),
        SegmentView::Literal { .. } => None,
    }
}

/// The variables that the value of an assignment sees.
pub open spec fn seen_by(i: int, place: Place) -> Map<Seq<char>, Seq<char>> {
    expand::env_after(place.assignments, i, place.env, place.status)
}

pub open spec fn assigned_bytes(i: int, place: Place) -> int {
    capped(
        text::byte_len(
            expand::assignment_text(
                place.assignments[i].value,
                seen_by(i, place),
                place.status,
            ),
        ) as int,
    )
}

pub open spec fn assigned_fields(i: int, place: Place) -> int {
    let value = place.assignments[i].value;
    capped(field_bound(value, value.len() as int, seen_by(i, place), place.status))
}

pub open spec fn segment_bytes(segment: SegmentView, place: Place) -> int {
    let own = text::byte_len(expand::segment_text(segment, place.env, place.status)) as int;
    match assigned(segment, place) {
        Some(i) => larger(own, assigned_bytes(i, place)),
        None => own,
    }
}

pub open spec fn splits(segment: SegmentView, place: Place) -> bool {
    place.split && segment is Expansion && !segment->Expansion_quoted
}

pub open spec fn segment_fields(segment: SegmentView, place: Place) -> int {
    let own = capped(
        expand::parts(expand::segment_text(segment, place.env, place.status)).len() as int + 2,
    );
    match assigned(segment, place) {
        Some(i) => larger(own, assigned_fields(i, place)),
        None => own,
    }
}

/// The cost of one segment: its bytes, and the storage of the fields it may split into.
pub open spec fn segment_cost(segment: SegmentView, place: Place) -> int {
    segment_bytes(segment, place) + if splits(segment, place) {
        fields_size(segment_fields(segment, place))
    } else {
        0
    }
}

/// The cost of the first `n` segments of a word.
pub open spec fn word_cost(word: Seq<SegmentView>, n: int, place: Place) -> int
    decreases n,
{
    if n <= 0 {
        string_size()
    } else {
        word_cost(word, n - 1, place) + segment_cost(word[n - 1], place)
    }
}

pub open spec fn names_cost(assignments: Seq<AssignmentView>, n: int) -> int
    decreases n,
{
    if n <= 0 {
        0
    } else {
        names_cost(assignments, n - 1) + text::byte_len(assignments[n - 1].name) + 2
            * string_size()
    }
}

/// The cost of the first `n` values, each read with the assignments before it.
pub open spec fn values_cost(
    assignments: Seq<AssignmentView>,
    n: int,
    env: Map<Seq<char>, Seq<char>>,
    status: int,
) -> int
    decreases n,
{
    if n <= 0 {
        0
    } else {
        values_cost(assignments, n - 1, env, status) + word_cost(
            assignments[n - 1].value,
            assignments[n - 1].value.len() as int,
            value_place(assignments, n - 1, env, status),
        )
    }
}

/// Where the value of an assignment stands.
pub open spec fn value_place(
    assignments: Seq<AssignmentView>,
    i: int,
    env: Map<Seq<char>, Seq<char>>,
    status: int,
) -> Place {
    Place {
        split: false,
        assignments: seq![],
        env: expand::env_after(assignments, i, env, status),
        status,
    }
}

pub open spec fn words_cost(words: Seq<Seq<SegmentView>>, n: int, place: Place) -> int
    decreases n,
{
    if n <= 0 {
        0
    } else {
        words_cost(words, n - 1, place) + word_cost(
            words[n - 1],
            words[n - 1].len() as int,
            place,
        )
    }
}

pub open spec fn redirect_cost(redirect: RedirectView, place: Place) -> int {
    match redirect.target {
        RedirectTargetView::Word(word) => word_cost(word, word.len() as int, place),
        RedirectTargetView::Fd(_) => 0,
    }
}

pub open spec fn redirects_cost(redirects: Seq<RedirectView>, n: int, place: Place) -> int
    decreases n,
{
    if n <= 0 {
        0
    } else {
        redirects_cost(redirects, n - 1, place) + redirect_cost(redirects[n - 1], place)
    }
}

/// Where the words of a command stand.
pub open spec fn word_place(env: Map<Seq<char>, Seq<char>>, status: int) -> Place {
    Place { split: true, assignments: seq![], env, status }
}

/// Where the targets of a command's redirects stand.
pub open spec fn target_place(
    simple: SimpleView,
    env: Map<Seq<char>, Seq<char>>,
    status: int,
) -> Place {
    Place { split: true, assignments: simple.assignments, env, status }
}

/// What expanding a command costs: the environment that is copied, the values assigned, and
/// the words and redirect targets with the fields they may split into.
pub open spec fn command_cost(
    simple: SimpleView,
    pairs: Seq<(Seq<char>, Seq<char>)>,
    env: Map<Seq<char>, Seq<char>>,
    status: int,
) -> int {
    pairs_bytes(pairs, pairs.len() as int) + names_cost(
        simple.assignments,
        simple.assignments.len() as int,
    ) + values_cost(
        simple.assignments,
        simple.assignments.len() as int,
        env,
        status,
    ) + words_cost(
        simple.words,
        simple.words.len() as int,
        word_place(env, status),
    ) + redirects_cost(
        simple.redirects,
        simple.redirects.len() as int,
        target_place(simple, env, status),
    )
}

// ---- costs only grow ----

proof fn lemma_pairs_bytes_grow(p: Seq<(Seq<char>, Seq<char>)>, n: int, m: int)
    requires
        0 <= n <= m,
    ensures
        0 <= pairs_bytes(p, n) <= pairs_bytes(p, m),
    decreases m,
{
    if n < m {
        lemma_pairs_bytes_grow(p, n, m - 1);
    } else if n > 0 {
        lemma_pairs_bytes_grow(p, n - 1, m - 1);
    }
}

proof fn lemma_fields_size(n: int)
    ensures
        n >= 0 ==> n * string_size() >= 0 && n * reference_size() >= 0,
{
    if n >= 0 {
        assert(n * string_size() >= 0) by (nonlinear_arith)
            requires
                n >= 0,
                string_size() >= 0,
        ;
        assert(n * reference_size() >= 0) by (nonlinear_arith)
            requires
                n >= 0,
                reference_size() >= 0,
        ;
    }
}

proof fn lemma_segment_cost(segment: SegmentView, place: Place)
    ensures
        0 <= segment_bytes(segment, place) <= segment_cost(segment, place),
        0 <= segment_fields(segment, place),
{
    lemma_fields_size(segment_fields(segment, place));
}

proof fn lemma_word_cost_grows(word: Seq<SegmentView>, n: int, m: int, place: Place)
    requires
        0 <= n <= m,
    ensures
        0 <= word_cost(word, n, place) <= word_cost(word, m, place),
    decreases m,
{
    if n < m {
        lemma_segment_cost(word[m - 1], place);
        lemma_word_cost_grows(word, n, m - 1, place);
    } else if n > 0 {
        lemma_segment_cost(word[m - 1], place);
        lemma_word_cost_grows(word, n - 1, m - 1, place);
    }
}

proof fn lemma_names_cost_grows(assignments: Seq<AssignmentView>, n: int, m: int)
    requires
        0 <= n <= m,
    ensures
        0 <= names_cost(assignments, n) <= names_cost(assignments, m),
    decreases m,
{
    if n < m {
        lemma_names_cost_grows(assignments, n, m - 1);
    } else if n > 0 {
        lemma_names_cost_grows(assignments, n - 1, m - 1);
    }
}

proof fn lemma_values_cost_grows(
    assignments: Seq<AssignmentView>,
    n: int,
    m: int,
    env: Map<Seq<char>, Seq<char>>,
    status: int,
)
    requires
        0 <= n <= m,
    ensures
        0 <= values_cost(assignments, n, env, status) <= values_cost(assignments, m, env, status),
    decreases m,
{
    if m > 0 {
        let value = assignments[m - 1].value;
        lemma_word_cost_grows(
            value,
            0,
            value.len() as int,
            value_place(assignments, m - 1, env, status),
        );
    }
    if n < m {
        lemma_values_cost_grows(assignments, n, m - 1, env, status);
    } else if n > 0 {
        lemma_values_cost_grows(assignments, n - 1, m - 1, env, status);
    }
}

proof fn lemma_words_cost_grows(words: Seq<Seq<SegmentView>>, n: int, m: int, place: Place)
    requires
        0 <= n <= m,
    ensures
        0 <= words_cost(words, n, place) <= words_cost(words, m, place),
    decreases m,
{
    if m > 0 {
        lemma_word_cost_grows(words[m - 1], 0, words[m - 1].len() as int, place);
    }
    if n < m {
        lemma_words_cost_grows(words, n, m - 1, place);
    } else if n > 0 {
        lemma_words_cost_grows(words, n - 1, m - 1, place);
    }
}

pub proof fn lemma_redirects_cost_grows(redirects: Seq<RedirectView>, n: int, m: int, place: Place)
    requires
        0 <= n <= m,
    ensures
        0 <= redirects_cost(redirects, n, place) <= redirects_cost(redirects, m, place),
    decreases m,
{
    if m > 0 {
        match redirects[m - 1].target {
            RedirectTargetView::Word(word) => {
                lemma_word_cost_grows(word, 0, word.len() as int, place);
            },
            RedirectTargetView::Fd(_) => {},
        }
    }
    if n < m {
        lemma_redirects_cost_grows(redirects, n, m - 1, place);
    } else if n > 0 {
        lemma_redirects_cost_grows(redirects, n - 1, m - 1, place);
    }
}

pub proof fn lemma_command_cost_is_not_negative(
    simple: SimpleView,
    pairs: Seq<(Seq<char>, Seq<char>)>,
    env: Map<Seq<char>, Seq<char>>,
    status: int,
)
    ensures
        command_cost(simple, pairs, env, status) >= 0,
{
    lemma_pairs_bytes_grow(pairs, 0, pairs.len() as int);
    lemma_names_cost_grows(simple.assignments, 0, simple.assignments.len() as int);
    lemma_values_cost_grows(
        simple.assignments,
        0,
        simple.assignments.len() as int,
        env,
        status,
    );
    lemma_words_cost_grows(
        simple.words,
        0,
        simple.words.len() as int,
        word_place(env, status),
    );
    lemma_redirects_cost_grows(
        simple.redirects,
        0,
        simple.redirects.len() as int,
        target_place(simple, env, status),
    );
}

proof fn lemma_field_bound_grows(
    word: Seq<SegmentView>,
    n: int,
    env: Map<Seq<char>, Seq<char>>,
    status: int,
)
    requires
        0 <= n,
    ensures
        1 <= field_bound(word, n, env, status),
    decreases n,
{
    if n > 0 {
        lemma_field_bound_grows(word, n - 1, env, status);
    }
}

// ---- the estimate ----

struct Meter {
    cost: usize,
    limit: usize,
}

impl Meter {
    fn charge(&mut self, bytes: usize) -> (r: bool)
        ensures
            final(self).cost == capped(old(self).cost + bytes),
            final(self).limit == old(self).limit,
            r == (final(self).cost <= final(self).limit),
    {
        self.cost = self.cost.saturating_add(bytes);
        self.cost <= self.limit
    }
}

/// What a sub-estimate of `cost` does to the meter.
spec fn metered(before: Meter, after: Meter, cost: int, admitted: bool) -> bool {
    &&& after.limit == before.limit
    &&& admitted == (capped(before.cost + cost) <= before.limit)
    &&& admitted ==> after.cost == capped(before.cost + cost)
}

fn capped_product(a: usize, b: usize) -> (r: usize)
    ensures
        r == capped(a * b),
{
    match a.checked_mul(b) {
        Some(product) => product,
        None => usize::MAX,
    }
}

/// What the estimate keeps of the assignments that a word may see.
struct Known {
    assignments: Ghost<Seq<AssignmentView>>,
    /// The bytes of each value.
    bytes: Vec<usize>,
    /// The fields that each value may split into.
    fields: Vec<usize>,
    /// The index of the last assignment to each name.
    last: TextMap<usize>,
}

impl Known {
    spec fn place(&self, env: Map<Seq<char>, Seq<char>>, status: int, split: bool) -> Place {
        Place { split, assignments: self.assignments@, env, status }
    }

    spec fn wf_prefix(&self, n: int, env: Map<Seq<char>, Seq<char>>, status: int) -> bool {
        let place = self.place(env, status, false);
        &&& self.bytes@.len() == n
        &&& self.fields@.len() == n
        &&& forall|i: int| 0 <= i < n ==> #[trigger] self.bytes@[i] == assigned_bytes(i, place)
        &&& forall|i: int| 0 <= i < n ==> #[trigger] self.fields@[i] == assigned_fields(i, place)
        &&& forall|name: Seq<char>| #[trigger]
            self.last@.dom().contains(name) <==> last_assignment(place.assignments, n, name)
                is Some
        &&& forall|name: Seq<char>| #[trigger]
            self.last@.dom().contains(name) ==> last_assignment(place.assignments, n, name)
                == Some(self.last@[name] as int) && self.last@[name] < n
    }

    spec fn wf(&self, env: Map<Seq<char>, Seq<char>>, status: int) -> bool {
        self.wf_prefix(self.assignments@.len() as int, env, status)
    }

    fn new(Ghost(assignments): Ghost<Seq<AssignmentView>>) -> (r: Self)
        ensures
            r.assignments@ == assignments,
            forall|env: Map<Seq<char>, Seq<char>>, status: int| #[trigger]
                r.wf_prefix(0, env, status),
    {
        Known {
            assignments: Ghost(assignments),
            bytes: Vec::new(),
            fields: Vec::new(),
            last: TextMap::new(),
        }
    }

    fn meter_segment(
        &self,
        meter: &mut Meter,
        segment: &Segment,
        env: &Env,
        status: i32,
        split: bool,
    ) -> (r: bool)
        requires
            self.wf(env@, status as int),
        ensures
            metered(
                *old(meter),
                *final(meter),
                segment_cost(segment@, self.place(env@, status as int, split)),
                r,
            ),
    {
        let ghost place = self.place(env@, status as int, split);
        let ghost plain = self.place(env@, status as int, false);
        proof {
            lemma_segment_cost(segment@, place);
            assert forall|i: int| #[trigger]
                assigned_bytes(i, place) == assigned_bytes(i, plain) && assigned_fields(i, place)
                == assigned_fields(i, plain) by {}
        }
        let value = expand::segment_value(segment, env, status);
        let own: usize = text::str_bytes(value.as_str());
        let mut source: Option<usize> = None;
        let mut fields = false;
        match segment {
            Segment::Expansion { name, quoted } => {
                fields = split && !*quoted;
                match self.last.get(name.as_str()) {
                    Some(i) => {
                        source = Some(*i);
                    },
                    None => {},
                }
            },
            Segment::Literal { .. } => {},
        }
        proof {
            assert(fields == splits(segment@, place));
            assert(match source {
                Some(i) => assigned(segment@, place) == Some(i as int) && i
                    < self.assignments@.len(),
                None => assigned(segment@, place) is None,
            });
        }
        let bytes: usize = match source {
            Some(i) => if own < self.bytes[i] {
                self.bytes[i]
            } else {
                own
            },
            None => own,
        };
        proof {
            assert(bytes == segment_bytes(segment@, place));
        }
        if !meter.charge(bytes) {
            return false;
        }
        if !fields {
            return true;
        }
        let pieces = expand::split_fields(value.as_str());
        proof {
            assert(pieces@.len() == expand::parts(value@).len());
        }
        let mut count: usize = pieces.len().saturating_add(2);
        match source {
            Some(i) => {
                if count < self.fields[i] {
                    count = self.fields[i];
                }
            },
            None => {},
        }
        proof {
            assert(count == segment_fields(segment@, place));
            lemma_fields_size(count as int);
        }
        meter.charge(capped_product(count, core::mem::size_of::<String>())) && meter.charge(
            capped_product(count, core::mem::size_of::<&'static str>()),
        )
    }

    fn meter_word(&self, meter: &mut Meter, word: &Word, env: &Env, status: i32, split: bool) -> (r:
        bool)
        requires
            self.wf(env@, status as int),
        ensures
            metered(
                *old(meter),
                *final(meter),
                word_cost(word@, word@.len() as int, self.place(env@, status as int, split)),
                r,
            ),
    {
        let ghost place = self.place(env@, status as int, split);
        let ghost total = word_cost(word@, word@.len() as int, place);
        let ghost start = meter.cost as int;
        proof {
            lemma_word_cost_grows(word@, 0, word@.len() as int, place);
        }
        if !meter.charge(core::mem::size_of::<String>()) {
            return false;
        }
        let mut i: usize = 0;
        while i < word.segments.len()
            invariant
                i <= word.segments@.len(),
                self.wf(env@, status as int),
                place == self.place(env@, status as int, split),
                total == word_cost(word@, word@.len() as int, place),
                meter.limit == old(meter).limit,
                start == old(meter).cost,
                meter.cost == capped(start + word_cost(word@, i as int, place)),
                meter.cost <= meter.limit,
            decreases word.segments@.len() - i,
        {
            let segment = &word.segments[i];
            proof {
                assert(word@[i as int] == segment@);
                lemma_word_cost_grows(word@, 0, i as int, place);
                lemma_word_cost_grows(word@, i + 1, word@.len() as int, place);
                lemma_segment_cost(segment@, place);
            }
            if !self.meter_segment(meter, segment, env, status, split) {
                return false;
            }
            i = i + 1;
        }
        true
    }
}

/// The fields that the value of an assignment may split into.
fn count_fields(word: &Word, env: &Env, status: i32) -> (r: usize)
    ensures
        r == capped(field_bound(word@, word@.len() as int, env@, status as int)),
{
    let mut count: usize = 1;
    let mut k: usize = 0;
    while k < word.segments.len()
        invariant
            k <= word.segments@.len(),
            count == capped(field_bound(word@, k as int, env@, status as int)),
        decreases word.segments@.len() - k,
    {
        let value = expand::segment_value(&word.segments[k], env, status);
        let pieces = expand::split_fields(value.as_str());
        proof {
            assert(word@[k as int] == word.segments@[k as int]@);
            assert(pieces@.len() == expand::parts(value@).len());
            lemma_field_bound_grows(word@, k as int, env@, status as int);
        }
        count = count.saturating_add(pieces.len().saturating_add(2));
        k = k + 1;
    }
    count
}

/// Estimates what expanding a command costs; nothing where that exceeds `limit`.
///
/// The estimate is made before any word is expanded. Of a command that is refused, only values are
/// materialized whose bytes were within the limit.
pub fn expansion_cost(simple: &SimpleCommand, env: &Env, last_status: i32, limit: usize) -> (r:
    Option<usize>)
    ensures
        r == ({
            let cost = capped(command_cost(simple@, env.pairs(), env@, last_status as int));
            if cost <= limit {
                Some(cost as usize)
            } else {
                None
            }
        }),
{
    let ghost view = simple@;
    let ghost status = last_status as int;
    let ghost count = view.assignments.len() as int;
    let ghost p = env.pairs();
    let ghost place_words = word_place(env@, status);
    let ghost place_targets = target_place(view, env@, status);
    let ghost pairs_part = pairs_bytes(p, p.len() as int);
    let ghost names_part = names_cost(view.assignments, count);
    let ghost values_part = values_cost(view.assignments, count, env@, status);
    let ghost words_part = words_cost(view.words, view.words.len() as int, place_words);
    let ghost targets_part = redirects_cost(
        view.redirects,
        view.redirects.len() as int,
        place_targets,
    );
    proof {
        lemma_pairs_bytes_grow(p, 0, p.len() as int);
        lemma_names_cost_grows(view.assignments, 0, count);
        lemma_values_cost_grows(view.assignments, 0, count, env@, status);
        lemma_words_cost_grows(view.words, 0, view.words.len() as int, place_words);
        lemma_redirects_cost_grows(view.redirects, 0, view.redirects.len() as int, place_targets);
    }
    let mut meter = Meter { cost: 0, limit };
    let entries = env.entries();
    let mut i: usize = 0;
    while i < entries.len()
        invariant
            i <= entries@.len(),
            p == env.pairs(),
            p == crate::env::values_view(crate::textmap::pairs_view(entries@)),
            meter.limit == limit,
            meter.cost == capped(pairs_bytes(p, i as int)),
            meter.cost <= limit || i == 0,
            pairs_part == pairs_bytes(p, p.len() as int),
            names_part >= 0,
            values_part >= 0,
            words_part >= 0,
            targets_part >= 0,
            command_cost(view, p, env@, status) == pairs_part + names_part + values_part
                + words_part + targets_part,
            view == simple@,
            status == last_status,
        decreases entries@.len() - i,
    {
        proof {
            assert(p[i as int] == (entries@[i as int].0@, entries@[i as int].1@));
            lemma_pairs_bytes_grow(p, 0, i as int);
            lemma_pairs_bytes_grow(p, i + 1, p.len() as int);
        }
        let bytes: usize = text::str_bytes(entries[i].0.as_str()).saturating_add(
            text::str_bytes(entries[i].1.as_str()),
        );
        if !meter.charge(bytes) {
            return None;
        }
        i = i + 1;
    }
    let nothing = Known::new(Ghost(Seq::<AssignmentView>::empty()));
    let mut known = Known::new(Ghost(view.assignments));
    let mut seen = env.clone();
    let mut k: usize = 0;
    while k < simple.assignments.len()
        invariant
            k <= simple.assignments@.len(),
            nothing.assignments@ == Seq::<AssignmentView>::empty(),
            forall|env: Map<Seq<char>, Seq<char>>, status: int| #[trigger]
                nothing.wf_prefix(0, env, status),
            known.assignments@ == view.assignments,
            known.wf_prefix(k as int, env@, status),
            seen@ == expand::env_after(view.assignments, k as int, env@, status),
            count == simple.assignments@.len(),
            count == view.assignments.len(),
            view == simple@,
            status == last_status,
            meter.limit == limit,
            meter.cost == capped(
                pairs_part + names_cost(view.assignments, k as int) + values_cost(
                    view.assignments,
                    k as int,
                    env@,
                    status,
                ),
            ),
            pairs_part >= 0,
            names_part == names_cost(view.assignments, count),
            values_part == values_cost(view.assignments, count, env@, status),
            words_part >= 0,
            targets_part >= 0,
            command_cost(view, p, env@, status) == pairs_part + names_part + values_part
                + words_part + targets_part,
            p == env.pairs(),
        decreases simple.assignments@.len() - k,
    {
        let assignment = &simple.assignments[k];
        let ghost word = assignment.value@;
        let ghost place = value_place(view.assignments, k as int, env@, status);
        proof {
            assert(view.assignments[k as int] == assignment@);
            lemma_names_cost_grows(view.assignments, 0, k as int);
            lemma_names_cost_grows(view.assignments, k + 1, count);
            lemma_values_cost_grows(view.assignments, 0, k as int, env@, status);
            lemma_values_cost_grows(view.assignments, k + 1, count, env@, status);
            lemma_word_cost_grows(word, 0, word.len() as int, place);
            assert(nothing.wf_prefix(0, seen@, status));
            assert(nothing.place(seen@, status, false) == place);
        }
        let name_bytes: usize = text::str_bytes(assignment.name.as_str());
        if !meter.charge(
            name_bytes.saturating_add(capped_product(2, core::mem::size_of::<String>())),
        ) {
            return None;
        }
        if !nothing.meter_word(&mut meter, &assignment.value, &seen, last_status, false) {
            return None;
        }
        let fields = count_fields(&assignment.value, &seen, last_status);
        let value = expand::expand_assignment_value(&assignment.value, &seen, last_status);
        let bytes: usize = text::str_bytes(value.as_str());
        proof {
            assert(bytes == assigned_bytes(k as int, known.place(env@, status, false)));
            assert(fields == assigned_fields(k as int, known.place(env@, status, false)));
        }
        known.bytes.push(bytes);
        known.fields.push(fields);
        known.last.insert(assignment.name.clone(), k);
        seen.insert(assignment.name.clone(), value);
        k = k + 1;
    }
    if meter.cost > limit {
        return None;
    }
    let mut i: usize = 0;
    while i < simple.words.len()
        invariant
            i <= simple.words@.len(),
            nothing.assignments@ == Seq::<AssignmentView>::empty(),
            nothing.wf_prefix(0, env@, status),
            view == simple@,
            status == last_status,
            place_words == word_place(env@, status),
            meter.limit == limit,
            meter.cost == capped(
                pairs_part + names_part + values_part + words_cost(
                    view.words,
                    i as int,
                    place_words,
                ),
            ),
            meter.cost <= limit,
            pairs_part >= 0,
            names_part >= 0,
            values_part >= 0,
            words_part == words_cost(view.words, view.words.len() as int, place_words),
            targets_part >= 0,
            command_cost(view, p, env@, status) == pairs_part + names_part + values_part
                + words_part + targets_part,
            p == env.pairs(),
        decreases simple.words@.len() - i,
    {
        proof {
            assert(view.words[i as int] == simple.words@[i as int]@);
            assert(nothing.place(env@, status, true) == place_words);
            lemma_words_cost_grows(view.words, 0, i as int, place_words);
            lemma_words_cost_grows(view.words, i + 1, view.words.len() as int, place_words);
            let word = view.words[i as int];
            lemma_word_cost_grows(word, 0, word.len() as int, place_words);
        }
        if !nothing.meter_word(&mut meter, &simple.words[i], env, last_status, true) {
            return None;
        }
        i = i + 1;
    }
    let mut i: usize = 0;
    while i < simple.redirects.len()
        invariant
            i <= simple.redirects@.len(),
            known.assignments@ == view.assignments,
            known.wf(env@, status),
            view == simple@,
            status == last_status,
            place_targets == target_place(view, env@, status),
            meter.limit == limit,
            meter.cost == capped(
                pairs_part + names_part + values_part + words_part + redirects_cost(
                    view.redirects,
                    i as int,
                    place_targets,
                ),
            ),
            meter.cost <= limit,
            pairs_part >= 0,
            names_part >= 0,
            values_part >= 0,
            words_part >= 0,
            targets_part == redirects_cost(
                view.redirects,
                view.redirects.len() as int,
                place_targets,
            ),
            command_cost(view, p, env@, status) == pairs_part + names_part + values_part
                + words_part + targets_part,
            p == env.pairs(),
        decreases simple.redirects@.len() - i,
    {
        let redirect = &simple.redirects[i];
        proof {
            assert(view.redirects[i as int] == redirect@);
            assert(known.place(env@, status, true) == place_targets);
            lemma_redirects_cost_grows(view.redirects, 0, i as int, place_targets);
            lemma_redirects_cost_grows(
                view.redirects,
                i + 1,
                view.redirects.len() as int,
                place_targets,
            );
        }
        match &redirect.target {
            RedirectTarget::Word(word) => {
                proof {
                    lemma_word_cost_grows(word@, 0, word@.len() as int, place_targets);
                }
                if !known.meter_word(&mut meter, word, env, last_status, true) {
                    return None;
                }
            },
            RedirectTarget::Fd(_) => {},
        }
        i = i + 1;
    }
    Some(meter.cost)
}

/// The estimate of a command goes over what it is made of: the words and the redirects of two rows
/// cost what they cost apart, and so do the segments of a word, whose string is counted once.
pub proof fn law_estimates_add_up(
    words: Seq<Seq<SegmentView>>,
    more: Seq<Seq<SegmentView>>,
    word: Seq<SegmentView>,
    rest: Seq<SegmentView>,
    redirects: Seq<RedirectView>,
    others: Seq<RedirectView>,
    place: Place,
)
    ensures
        words_cost(words + more, (words + more).len() as int, place) == words_cost(
            words,
            words.len() as int,
            place,
        ) + words_cost(more, more.len() as int, place),
        redirects_cost(redirects + others, (redirects + others).len() as int, place)
            == redirects_cost(redirects, redirects.len() as int, place) + redirects_cost(
            others,
            others.len() as int,
            place,
        ),
        word_cost(word + rest, (word + rest).len() as int, place) + string_size() == word_cost(
            word,
            word.len() as int,
            place,
        ) + word_cost(rest, rest.len() as int, place),
        word_cost(seq![], 0, place) == string_size(),
{
    lemma_words_cost(words, more, more.len() as int, place);
    lemma_redirects_cost(redirects, others, others.len() as int, place);
    lemma_word_cost(word, rest, rest.len() as int, place);
}

proof fn lemma_words_cost(
    a: Seq<Seq<SegmentView>>,
    b: Seq<Seq<SegmentView>>,
    n: int,
    place: Place,
)
    requires
        -a.len() <= n <= b.len(),
    ensures
        n >= 0 ==> words_cost(a + b, a.len() + n, place) == words_cost(a, a.len() as int, place)
            + words_cost(b, n, place),
        n <= 0 ==> words_cost(a + b, a.len() + n, place) == words_cost(a, a.len() + n, place),
    decreases a.len() + n,
{
    if a.len() + n > 0 {
        lemma_words_cost(a, b, n - 1, place);
        if n > 0 {
            assert((a + b)[a.len() + n - 1] == b[n - 1]);
        } else {
            assert((a + b)[a.len() + n - 1] == a[a.len() + n - 1]);
        }
    }
}

proof fn lemma_redirects_cost(a: Seq<RedirectView>, b: Seq<RedirectView>, n: int, place: Place)
    requires
        -a.len() <= n <= b.len(),
    ensures
        n >= 0 ==> redirects_cost(a + b, a.len() + n, place) == redirects_cost(
            a,
            a.len() as int,
            place,
        ) + redirects_cost(b, n, place),
        n <= 0 ==> redirects_cost(a + b, a.len() + n, place) == redirects_cost(
            a,
            a.len() + n,
            place,
        ),
    decreases a.len() + n,
{
    if a.len() + n > 0 {
        lemma_redirects_cost(a, b, n - 1, place);
        if n > 0 {
            assert((a + b)[a.len() + n - 1] == b[n - 1]);
        } else {
            assert((a + b)[a.len() + n - 1] == a[a.len() + n - 1]);
        }
    }
}

proof fn lemma_word_cost(a: Seq<SegmentView>, b: Seq<SegmentView>, n: int, place: Place)
    requires
        -a.len() <= n <= b.len(),
    ensures
        n >= 0 ==> word_cost(a + b, a.len() + n, place) + string_size() == word_cost(
            a,
            a.len() as int,
            place,
        ) + word_cost(b, n, place),
        n <= 0 ==> word_cost(a + b, a.len() + n, place) == word_cost(a, a.len() + n, place),
    decreases a.len() + n,
{
    if a.len() + n > 0 {
        lemma_word_cost(a, b, n - 1, place);
        if n > 0 {
            assert((a + b)[a.len() + n - 1] == b[n - 1]);
        } else {
            assert((a + b)[a.len() + n - 1] == a[a.len() + n - 1]);
        }
    }
}

/// Text costs its bytes, quoted or not. So does a quoted variable that the command does not set,
/// and one that is split costs the storage of its fields besides: a string and a reference for each
/// of its parts and for two more.
pub proof fn law_segments_cost_their_bytes(
    value: Seq<char>,
    name: Seq<char>,
    quoted: bool,
    env: Map<Seq<char>, Seq<char>>,
    status: int,
)
    requires
        expand::parts(expand::parameter(name, env, status)).len() + 2 <= usize::MAX,
    ensures
        ({
            let place = word_place(env, status);
            let held = expand::parameter(name, env, status);
            let fields = expand::parts(held).len() + 2;
            &&& segment_cost(SegmentView::Literal { value, quoted }, place) == text::byte_len(value)
            &&& segment_cost(SegmentView::Expansion { name, quoted: true }, place)
                == text::byte_len(held)
            &&& segment_cost(SegmentView::Expansion { name, quoted: false }, place)
                == text::byte_len(held) + fields * string_size() + fields * reference_size()
        }),
{
}

/// The assignment that counts is the last one of its name.
pub proof fn law_the_last_assignment_counts(
    assignments: Seq<AssignmentView>,
    last: AssignmentView,
    name: Seq<char>,
)
    ensures
        ({
            let n = assignments.len() as int;
            let all = assignments.push(last);
            &&& last.name == name ==> last_assignment(all, n + 1, name) == Some(n)
            &&& last.name != name ==> last_assignment(all, n + 1, name) == last_assignment(
                assignments,
                n,
                name,
            )
        }),
{
    lemma_last_front(assignments, last, assignments.len() as int, name);
}

proof fn lemma_last_front(
    assignments: Seq<AssignmentView>,
    last: AssignmentView,
    n: int,
    name: Seq<char>,
)
    requires
        0 <= n <= assignments.len(),
    ensures
        last_assignment(assignments.push(last), n, name) == last_assignment(assignments, n, name),
    decreases n,
{
    if n > 0 {
        lemma_last_front(assignments, last, n - 1, name);
    }
}

} // verus!
