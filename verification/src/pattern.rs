//! Regular expressions, in the dialect of the `regex` crate.

use regex::{Regex, RegexBuilder};
use vstd::prelude::*;

verus! {

/// `regex::Regex`, carried along.
#[verifier::external_type_specification]
#[verifier::external_body]
pub struct ExRegex(regex::Regex);

/// A regular expression together with what it was compiled from. Only `compile` makes one.
pub struct LinePattern {
    regex: Regex,
    source: String,
    ignore_case: bool,
}

impl LinePattern {
    /// The text that was compiled.
    pub closed spec fn source(&self) -> Seq<char> {
        self.source@
    }

    /// Whether letters match in both cases.
    pub closed spec fn ignore_case(&self) -> bool {
        self.ignore_case
    }
}

/// Why `regex::RegexBuilder::build` refuses a pattern; none where it compiles.
pub uninterp spec fn regex_error(source: Seq<char>, ignore_case: bool) -> Option<Seq<char>>;

/// Whether `regex::Regex::is_match` finds a match.
pub uninterp spec fn regex_is_match(
    source: Seq<char>,
    ignore_case: bool,
    haystack: Seq<char>,
) -> bool;

/// The number that `regex::Regex::captures_len` gives.
pub uninterp spec fn regex_captures_len(source: Seq<char>, ignore_case: bool) -> nat;

/// The matches that `regex::Regex::captures_iter` finds: for each the byte ranges of its groups,
/// the whole match first.
pub uninterp spec fn regex_captures(
    source: Seq<char>,
    ignore_case: bool,
    haystack: Seq<char>,
) -> Seq<Seq<Option<(usize, usize)>>>;

/// The first matches, up to a limit.
pub open spec fn first_matches(
    all: Seq<Seq<Option<(usize, usize)>>>,
    limit: int,
) -> Seq<Seq<Option<(usize, usize)>>> {
    if all.len() <= limit {
        all
    } else {
        all.take(limit)
    }
}

pub open spec fn spans_view(v: Seq<Vec<Option<(usize, usize)>>>) -> Seq<
    Seq<Option<(usize, usize)>>,
> {
    v.map_values(|groups: Vec<Option<(usize, usize)>>| groups@)
}

/// Whether matches lie inside a text of `len` bytes, one behind another, each with its groups
/// inside the text.
pub open spec fn spans_valid(matches: Seq<Seq<Option<(usize, usize)>>>, len: nat) -> bool {
    &&& forall|k: int|
        0 <= k < matches.len() ==> (#[trigger] matches[k]).len() > 0 && matches[k][0] is Some
    &&& forall|k: int, g: int|
        0 <= k < matches.len() && 0 <= g < matches[k].len() ==> (#[trigger] matches[k][g] matches
            Some((start, end)) ==> start <= end <= len)
    &&& forall|j: int, k: int|
        0 <= j < k < matches.len() ==> (#[trigger] matches[j])[0]->Some_0.1 <= (
        #[trigger] matches[k])[0]->Some_0.0
}

/// Compiles a pattern with `regex::RegexBuilder::new`, `case_insensitive` and `build`. Whether
/// it compiles, and the text of the error where it does not, are functions of the arguments.
#[verifier::external_body]
pub(crate) fn compile(source: &str, ignore_case: bool) -> (r: Result<LinePattern, String>)
    ensures
        match regex_error(source@, ignore_case) {
            None => r matches Ok(pattern) && pattern.source() == source@ && pattern.ignore_case()
                == ignore_case,
            Some(error) => r matches Err(e) && e@ == error,
        },
{
    match RegexBuilder::new(source).case_insensitive(ignore_case).build() {
        Ok(regex) => Ok(LinePattern { regex, source: source.to_owned(), ignore_case }),
        Err(error) => Err(error.to_string()),
    }
}

impl LinePattern {
    /// Asks `regex::Regex::is_match`. The answer is a function of the pattern and the text.
    #[verifier::external_body]
    pub(crate) fn is_match(&self, haystack: &str) -> (r: bool)
        ensures
            r == regex_is_match(self.source(), self.ignore_case(), haystack@),
    {
        self.regex.is_match(haystack)
    }

    /// Asks `regex::Regex::captures_len`: the number of groups, the whole match counted, which
    /// is never zero.
    #[verifier::external_body]
    pub(crate) fn captures_len(&self) -> (r: usize)
        ensures
            r == regex_captures_len(self.source(), self.ignore_case()),
            r > 0,
    {
        self.regex.captures_len()
    }

    /// Collects the matches of `regex::Regex::captures_iter`. Which matches there are is a function
    /// of the pattern and the text; they lie inside the text, one behind another, and group zero of
    /// each is the whole match.
    #[verifier::external_body]
    fn captures(&self, haystack: &str) -> (r: Vec<Vec<Option<(usize, usize)>>>)
        ensures
            spans_view(r@) == regex_captures(self.source(), self.ignore_case(), haystack@),
            spans_valid(spans_view(r@), crate::text::byte_len(haystack@)),
    {
        self.regex
            .captures_iter(haystack)
            .map(|c| c.iter().map(|g| g.map(|m| (m.start(), m.end()))).collect())
            .collect()
    }

    /// The first matches in a text, up to a limit.
    pub fn first_captures(&self, haystack: &str, limit: usize) -> (r: Vec<
        Vec<Option<(usize, usize)>>,
    >)
        ensures
            spans_view(r@) == first_matches(
                regex_captures(self.source(), self.ignore_case(), haystack@),
                limit as int,
            ),
            spans_valid(spans_view(r@), crate::text::byte_len(haystack@)),
    {
        let mut r = self.captures(haystack);
        let ghost all = r@;
        r.truncate(limit);
        proof {
            assert(spans_view(r@) =~= first_matches(spans_view(all), limit as int));
            lemma_first_spans(
                spans_view(all),
                limit as int,
                crate::text::byte_len(haystack@),
            );
        }
        r
    }
}

proof fn lemma_first_spans(all: Seq<Seq<Option<(usize, usize)>>>, limit: int, len: nat)
    requires
        spans_valid(all, len),
        limit >= 0,
    ensures
        spans_valid(first_matches(all, limit), len),
{
    let first = first_matches(all, limit);
    assert forall|k: int| 0 <= k < first.len() implies first[k] == all[k] by {}
}

} // verus!
