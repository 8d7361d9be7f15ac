//! The bounds that filters and JSON texts are held to before the recursive parsers of the filter
//! engine see them.

use vstd::prelude::*;

use crate::text;

verus! {

/// The most arrays and objects that may lie in one another in a JSON text.
pub const MAX_JQ_JSON_NESTING: usize = 1024;

/// The most arrays and objects that may lie in one another in a value that is printed: an input
/// that nests as deep as it may can still be wrapped. The thread that prints needs a stack for as
/// many calls.
pub const MAX_JQ_OUTPUT_NESTING: usize = 2048;

/// The most bytes that the source of a filter may have.
pub const MAX_JQ_FILTER_SOURCE_BYTES: usize = 262_144;

/// The most delimiters that may lie in one another in the source of a filter.
pub const MAX_JQ_FILTER_NESTING: usize = 512;

/// The most tokens that the source of a filter may have.
pub const MAX_JQ_FILTER_SYNTAX_TOKENS: usize = 1024;

/// What a byte is part of.
#[derive(Debug, Clone, Copy, PartialEq, Eq, Structural)]
pub enum Mode {
    Plain,
    Text,
    /// Behind a backslash in a text.
    Escape,
    Comment,
}

// ---- JSON texts ----

/// How deep a place in a JSON text lies, and what it is part of.
pub struct JsonPlace {
    pub depth: nat,
    pub mode: Mode,
}

/// The place behind one more byte.
pub open spec fn json_step(place: JsonPlace, byte: u8) -> JsonPlace {
    match place.mode {
        Mode::Comment => if byte == 10 {
            JsonPlace { mode: Mode::Plain, ..place }
        } else {
            place
        },
        Mode::Escape => JsonPlace { mode: Mode::Text, ..place },
        Mode::Text => if byte == 92 {
            JsonPlace { mode: Mode::Escape, ..place }
        } else if byte == 34 {
            JsonPlace { mode: Mode::Plain, ..place }
        } else {
            place
        },
        Mode::Plain => if byte == 34 {
            JsonPlace { mode: Mode::Text, ..place }
        } else if byte == 35 {
            JsonPlace { mode: Mode::Comment, ..place }
        } else if byte == 91 || byte == 123 {
            JsonPlace { depth: place.depth + 1, ..place }
        } else if byte == 93 || byte == 125 {
            JsonPlace {
                depth: if place.depth > 0 {
                    (place.depth - 1) as nat
                } else {
                    0
                },
                ..place
            }
        } else {
            place
        },
    }
}

/// The place behind the first `n` bytes.
pub open spec fn json_place(data: Seq<u8>, n: int) -> JsonPlace
    decreases n,
{
    if n <= 0 {
        JsonPlace { depth: 0, mode: Mode::Plain }
    } else {
        json_step(json_place(data, n - 1), data[n - 1])
    }
}

/// Whether some place in a JSON text lies too deep.
pub open spec fn nests_too_deep(data: Seq<u8>) -> bool {
    exists|n: int|
        0 <= n <= data.len() && (#[trigger] json_place(data, n)).depth > MAX_JQ_JSON_NESTING
}

/// What is said of a JSON text that nests too deep.
pub open spec fn depth_message() -> Seq<char> {
    "JSON nesting exceeds maximum depth 1024"@
}

/// Checks how deep a JSON text nests.
pub fn validate_jq_json_nesting(data: &[u8]) -> (r: Result<(), &'static str>)
    ensures
        nests_too_deep(data@) <==> r is Err,
        r matches Err(message) ==> message@ == depth_message(),
{
    let mut depth: usize = 0;
    let mut mode = Mode::Plain;
    let mut i: usize = 0;
    while i < data.len()
        invariant
            i <= data@.len(),
            depth <= MAX_JQ_JSON_NESTING,
            (JsonPlace { depth: depth as nat, mode }) == json_place(data@, i as int),
            forall|n: int|
                0 <= n <= i ==> (#[trigger] json_place(data@, n)).depth <= MAX_JQ_JSON_NESTING,
        decreases data@.len() - i,
    {
        let byte: u8 = data[i];
        proof {
            assert(json_place(data@, i + 1) == json_step(json_place(data@, i as int), byte));
        }
        match mode {
            Mode::Comment => {
                if byte == 10 {
                    mode = Mode::Plain;
                }
            },
            Mode::Escape => {
                mode = Mode::Text;
            },
            Mode::Text => {
                if byte == 92 {
                    mode = Mode::Escape;
                } else if byte == 34 {
                    mode = Mode::Plain;
                }
            },
            Mode::Plain => {
                if byte == 34 {
                    mode = Mode::Text;
                } else if byte == 35 {
                    mode = Mode::Comment;
                } else if byte == 91 || byte == 123 {
                    depth = depth + 1;
                    if depth > MAX_JQ_JSON_NESTING {
                        return Err("JSON nesting exceeds maximum depth 1024");
                    }
                } else if byte == 93 || byte == 125 {
                    if depth > 0 {
                        depth = depth - 1;
                    }
                }
            },
        }
        i = i + 1;
    }
    Ok(())
}

/// What is known behind some bytes of a JSON text: what they are part of, and whether the last of
/// them that counts ended an array or an object.
#[derive(Debug, Clone, Copy, PartialEq, Eq, Structural)]
pub struct KeyPlace {
    pub mode: Mode,
    pub closed: bool,
}

pub open spec fn key_step(place: KeyPlace, byte: u8) -> KeyPlace {
    match place.mode {
        Mode::Comment => if byte == 10 {
            KeyPlace { mode: Mode::Plain, ..place }
        } else {
            place
        },
        Mode::Escape => KeyPlace { mode: Mode::Text, ..place },
        Mode::Text => if byte == 92 {
            KeyPlace { mode: Mode::Escape, ..place }
        } else if byte == 34 {
            KeyPlace { mode: Mode::Plain, ..place }
        } else {
            place
        },
        Mode::Plain => if byte == 34 {
            KeyPlace { mode: Mode::Text, closed: false }
        } else if byte == 35 {
            KeyPlace { mode: Mode::Comment, ..place }
        } else if byte == 32 || byte == 9 || byte == 10 || byte == 13 {
            place
        } else {
            KeyPlace { mode: Mode::Plain, closed: byte == 93 || byte == 125 }
        },
    }
}

/// What is known behind the first `n` bytes.
pub open spec fn key_place(data: Seq<u8>, n: int) -> KeyPlace
    decreases n,
{
    if n <= 0 {
        KeyPlace { mode: Mode::Plain, closed: false }
    } else {
        key_step(key_place(data, n - 1), data[n - 1])
    }
}

/// Whether the colon at index `n` stands behind an array or an object, which is a key then.
pub open spec fn ends_composite_key(data: Seq<u8>, n: int) -> bool {
    &&& key_place(data, n) == KeyPlace { mode: Mode::Plain, closed: true }
    &&& data[n] == 58
}

/// Whether an array or an object is a key in a JSON text.
pub open spec fn has_composite_key(data: Seq<u8>) -> bool {
    exists|n: int| 0 <= n < data.len() && #[trigger] ends_composite_key(data, n)
}

/// Whether the byte at index `n` is part of a number that is not whole: a point, an exponent, or
/// the start of `NaN` or `Infinity`.
pub open spec fn marks_fraction(data: Seq<u8>, n: int) -> bool {
    &&& key_place(data, n).mode == Mode::Plain
    &&& data[n] == 46 || data[n] == 69 || data[n] == 73 || data[n] == 78 || (data[n] == 101 && n > 0
        && 48 <= data[n - 1] <= 57)
}

/// Whether a JSON text holds a number that is not whole.
pub open spec fn has_fraction(data: Seq<u8>) -> bool {
    exists|n: int| 0 <= n < data.len() && #[trigger] marks_fraction(data, n)
}

/// Whether an array or an object is a key, in a text whose numbers may have no order.
pub open spec fn has_unordered_key(data: Seq<u8>) -> bool {
    has_composite_key(data) && has_fraction(data)
}

/// What is said of a JSON text whose keys may have no order.
pub open spec fn key_message() -> Seq<char> {
    "JSON object keys cannot be arrays or objects beside numbers that are not whole"@
}

fn key_place_behind(place: KeyPlace, byte: u8) -> (r: KeyPlace)
    ensures
        r == key_step(place, byte),
{
    match place.mode {
        Mode::Comment => if byte == 10 {
            KeyPlace { mode: Mode::Plain, ..place }
        } else {
            place
        },
        Mode::Escape => KeyPlace { mode: Mode::Text, ..place },
        Mode::Text => if byte == 92 {
            KeyPlace { mode: Mode::Escape, ..place }
        } else if byte == 34 {
            KeyPlace { mode: Mode::Plain, ..place }
        } else {
            place
        },
        Mode::Plain => if byte == 34 {
            KeyPlace { mode: Mode::Text, closed: false }
        } else if byte == 35 {
            KeyPlace { mode: Mode::Comment, ..place }
        } else if byte == 32 || byte == 9 || byte == 10 || byte == 13 {
            place
        } else {
            KeyPlace { mode: Mode::Plain, closed: byte == 93 || byte == 125 }
        },
    }
}

/// Checks that the keys of a JSON text have an order.
pub fn validate_jq_json_keys(data: &[u8]) -> (r: Result<(), &'static str>)
    ensures
        has_unordered_key(data@) <==> r is Err,
        r matches Err(message) ==> message@ == key_message(),
{
    let mut place = KeyPlace { mode: Mode::Plain, closed: false };
    let mut composite = false;
    let mut fraction = false;
    let mut i: usize = 0;
    while i < data.len()
        invariant
            i <= data@.len(),
            place == key_place(data@, i as int),
            composite <==> exists|n: int| 0 <= n < i && #[trigger] ends_composite_key(data@, n),
            fraction <==> exists|n: int| 0 <= n < i && #[trigger] marks_fraction(data@, n),
        decreases data@.len() - i,
    {
        let byte: u8 = data[i];
        let plain = match place.mode {
            Mode::Plain => true,
            _ => false,
        };
        if plain && place.closed && byte == 58 {
            proof {
                assert(ends_composite_key(data@, i as int));
            }
            composite = true;
        }
        if plain && (byte == 46 || byte == 69 || byte == 73 || byte == 78 || (byte == 101 && i > 0
            && 48 <= data[i - 1] && data[i - 1] <= 57)) {
            proof {
                assert(marks_fraction(data@, i as int));
            }
            fraction = true;
        }
        place = key_place_behind(place, byte);
        i = i + 1;
    }
    if composite && fraction {
        Err("JSON object keys cannot be arrays or objects beside numbers that are not whole")
    } else {
        Ok(())
    }
}

/// Whether a JSON text may be handed to the parser: it recurses on arrays and objects, and it
/// orders the keys of an object that is a key, for which they must have an order.
pub open spec fn json_fault(data: Seq<u8>) -> Option<Seq<char>> {
    if nests_too_deep(data) {
        Some(depth_message())
    } else if has_unordered_key(data) {
        Some(key_message())
    } else {
        None
    }
}

/// Checks a JSON text before it is handed to the parser.
pub fn validate_jq_json(data: &[u8]) -> (r: Result<(), &'static str>)
    ensures
        match json_fault(data@) {
            None => r is Ok,
            Some(text) => r matches Err(message) && message@ == text,
        },
{
    match validate_jq_json_nesting(data) {
        Ok(()) => validate_jq_json_keys(data),
        Err(message) => Err(message),
    }
}

// ---- filters ----

/// What opened a part of a filter.
#[derive(Debug, Clone, Copy, PartialEq, Eq, Structural)]
pub enum FilterDelimiter {
    Paren,
    Bracket,
    Brace,
    Interpolation,
}

/// Why the source of a filter is refused.
#[derive(Debug, Clone, Copy, PartialEq, Eq, Structural)]
pub enum FilterFault {
    TooLong,
    TooDeep,
    TooComplex,
}

/// What a character of a filter is part of.
#[derive(Debug, Clone, Copy, PartialEq, Eq, Structural)]
pub enum FilterMode {
    Plain,
    Text,
    /// Behind a backslash in a text.
    Escape,
}

/// What has been read of a filter: what is open, how many tokens there were, and what the next
/// character is part of.
#[verifier::ext_equal]
pub struct FilterScan {
    pub open: Seq<FilterDelimiter>,
    pub tokens: nat,
    pub mode: FilterMode,
}

pub open spec fn filter_start() -> FilterScan {
    FilterScan { open: Seq::empty(), tokens: 0, mode: FilterMode::Plain }
}

pub open spec fn starts_name(c: char) -> bool {
    text::is_alpha(c) || c == '_'
}

pub open spec fn continues_name(c: char) -> bool {
    starts_name(c) || text::is_digit(c)
}

/// The end of the name that goes on at index `i`.
pub open spec fn name_end(s: Seq<char>, i: int) -> int
    decreases s.len() - i,
{
    if 0 <= i < s.len() && continues_name(s[i]) {
        name_end(s, i + 1)
    } else {
        i
    }
}

/// The end of the digits that go on at index `i`.
pub open spec fn digits_end(s: Seq<char>, i: int) -> int
    decreases s.len() - i,
{
    if 0 <= i < s.len() && text::is_digit(s[i]) {
        digits_end(s, i + 1)
    } else {
        i
    }
}

/// The characters that operators are made of.
pub open spec fn in_operators(c: char) -> bool {
    c == '|' || c == '=' || c == '!' || c == '<' || c == '>' || c == '+' || c == '-' || c == '*'
        || c == '/' || c == '%'
}

/// The length of the operator at index `i`: `//`, and an operator before an equals sign, are one
/// token.
pub open spec fn operator_len(s: Seq<char>, i: int) -> int {
    if i + 1 < s.len() && ((s[i] == '/' && s[i + 1] == '/') || (in_operators(s[i]) && s[i + 1]
        == '=')) {
        2
    } else {
        1
    }
}

/// What a character opens, in plain source.
pub open spec fn opening(c: char) -> Option<FilterDelimiter> {
    if c == '(' {
        Some(FilterDelimiter::Paren)
    } else if c == '[' {
        Some(FilterDelimiter::Bracket)
    } else if c == '{' {
        Some(FilterDelimiter::Brace)
    } else {
        None
    }
}

/// Whether a token can start with a character. Where none can, what is open ends.
pub open spec fn starts_token(c: char) -> bool {
    ||| starts_name(c)
    ||| text::is_digit(c)
    ||| in_operators(c)
    ||| opening(c) is Some
    ||| c == '"' || c == '$' || c == '@' || c == '.' || c == ':' || c == ';' || c == ',' || c == '?'
}

pub open spec fn is_closing(c: char) -> bool {
    c == ')' || c == ']' || c == '}'
}

/// What closes what a delimiter opened.
pub open spec fn closer(delimiter: FilterDelimiter) -> char {
    match delimiter {
        FilterDelimiter::Paren => ')',
        FilterDelimiter::Bracket => ']',
        FilterDelimiter::Brace => '}',
        FilterDelimiter::Interpolation => ')',
    }
}

/// The end of the token that starts at index `i` of plain source.
pub open spec fn token_end(s: Seq<char>, i: int) -> int {
    if s[i] == '"' || opening(s[i]) is Some {
        i + 1
    } else if starts_name(s[i]) {
        name_end(s, i + 1)
    } else if text::is_digit(s[i]) {
        digits_end(s, i + 1)
    } else {
        i + operator_len(s, i)
    }
}

/// The state behind the token at index `i` of plain source, if nothing is exceeded.
pub open spec fn after_token(s: Seq<char>, i: int, scan: FilterScan) -> FilterScan {
    FilterScan {
        open: match opening(s[i]) {
            Some(delimiter) => scan.open.push(delimiter),
            None => scan.open,
        },
        tokens: scan.tokens + 1,
        mode: if s[i] == '"' {
            FilterMode::Text
        } else {
            FilterMode::Plain
        },
    }
}

/// How far a character that starts no token ends what is open: what it does not close ends in front
/// of it, up to what it closes, or up to an interpolation, whose text goes on with it. The result
/// is how much stays open, and what ended last; none where nothing else is left.
pub open spec fn ended(open: Seq<FilterDelimiter>, c: char) -> Option<(nat, FilterDelimiter)>
    decreases open.len(),
{
    if open.len() == 0 {
        None
    } else if closer(open.last()) == c || open.last() == FilterDelimiter::Interpolation {
        Some(((open.len() - 1) as nat, open.last()))
    } else {
        ended(open.drop_last(), c)
    }
}

/// The state behind a character that starts no token.
pub open spec fn after_break(c: char, scan: FilterScan) -> FilterScan {
    match ended(scan.open, c) {
        Some((left, last)) => FilterScan {
            open: scan.open.take(left as int),
            tokens: scan.tokens + 1,
            mode: if last != FilterDelimiter::Interpolation {
                FilterMode::Plain
            } else if c == '\\' {
                FilterMode::Escape
            } else {
                FilterMode::Text
            },
        },
        None => FilterScan {
            open: if is_closing(c) && scan.open.len() > 0 {
                scan.open.drop_last()
            } else {
                scan.open
            },
            tokens: scan.tokens + 1,
            mode: FilterMode::Plain,
        },
    }
}

/// How many backslashes stand at the end of the characters from `from` up to `to`.
pub open spec fn trailing_backslashes(s: Seq<char>, from: int, to: int) -> nat
    decreases to - from,
{
    if from < to && s[to - 1] == '\\' {
        trailing_backslashes(s, from, to - 1) + 1
    } else {
        0
    }
}

/// Where a line that ends at `end` is cut: a carriage return at its end does not count.
pub open spec fn line_cut(s: Seq<char>, from: int, end: int) -> int {
    if from < end && s[end - 1] == '\r' {
        end - 1
    } else {
        end
    }
}

/// Where a comment ends of which a line starts at `i`: behind the first line that does not end in
/// an odd number of backslashes.
pub open spec fn comment_end(s: Seq<char>, i: int) -> int
    decreases s.len() - i,
{
    let end = text::find_from(s, '\n', i);
    if i < 0 || end < i || end >= s.len() {
        s.len() as int
    } else if trailing_backslashes(s, i, line_cut(s, i, end)) % 2 == 0 {
        end + 1
    } else {
        comment_end(s, end + 1)
    }
}

pub open spec fn is_hex(c: char) -> bool {
    text::is_digit(c) || 'a' <= c <= 'f' || 'A' <= c <= 'F'
}

/// Whether four digits at index `i` give a character: all but the surrogates do.
pub open spec fn names_character(s: Seq<char>, i: int) -> bool {
    &&& i + 4 <= s.len()
    &&& is_hex(s[i]) && is_hex(s[i + 1]) && is_hex(s[i + 2]) && is_hex(s[i + 3])
    &&& !((s[i] == 'd' || s[i] == 'D') && !('0' <= s[i + 1] <= '7'))
}

/// Whether the character at index `i`, behind a backslash in a text, is an escape.
pub open spec fn is_escape(s: Seq<char>, i: int) -> bool {
    let c = s[i];
    ||| c == '\\' || c == '/' || c == '"' || c == 'b' || c == 'f' || c == 'n' || c == 'r' || c
        == 't'
    ||| c == 'u' && names_character(s, i + 1)
}

/// The state behind the character at index `i`, which stands behind a backslash in a text. One that
/// is no escape counts as a token, for it is kept as an error.
pub open spec fn after_escape(s: Seq<char>, i: int, scan: FilterScan) -> FilterScan {
    if s[i] == '(' {
        FilterScan {
            open: scan.open.push(FilterDelimiter::Interpolation),
            tokens: scan.tokens + 1,
            mode: FilterMode::Plain,
        }
    } else {
        FilterScan {
            open: scan.open,
            tokens: if is_escape(s, i) {
                scan.tokens
            } else {
                scan.tokens + 1
            },
            mode: FilterMode::Text,
        }
    }
}

/// What a state exceeds, in the order in which it is noticed.
pub open spec fn exceeded(scan: FilterScan) -> Option<FilterFault> {
    if scan.open.len() > MAX_JQ_FILTER_NESTING {
        Some(FilterFault::TooDeep)
    } else if scan.tokens > MAX_JQ_FILTER_SYNTAX_TOKENS {
        Some(FilterFault::TooComplex)
    } else {
        None
    }
}

pub proof fn lemma_token_goes_forward(s: Seq<char>, i: int)
    requires
        0 <= i < s.len(),
    ensures
        i < token_end(s, i) <= s.len(),
{
    lemma_ends(s, i + 1);
}

proof fn lemma_ends(s: Seq<char>, i: int)
    requires
        0 <= i <= s.len(),
    ensures
        i <= name_end(s, i) <= s.len(),
        i <= digits_end(s, i) <= s.len(),
    decreases s.len() - i,
{
    if i < s.len() {
        lemma_ends(s, i + 1);
    }
}

pub proof fn lemma_comment_goes_forward(s: Seq<char>, i: int)
    requires
        0 <= i <= s.len(),
    ensures
        i <= comment_end(s, i) <= s.len(),
    decreases s.len() - i,
{
    text::lemma_find_from(s, '\n', i);
    let end = text::find_from(s, '\n', i);
    if end < s.len() {
        lemma_comment_goes_forward(s, end + 1);
    }
}

/// The character or token at index `i`, and the state behind it: where the next one starts, and
/// whether something is exceeded.
pub open spec fn filter_step(s: Seq<char>, i: int, scan: FilterScan) -> (int, FilterScan) {
    match scan.mode {
        FilterMode::Escape => (i + 1, after_escape(s, i, scan)),
        FilterMode::Text => (
            i + 1,
            FilterScan {
                mode: if s[i] == '\\' {
                    FilterMode::Escape
                } else if s[i] == '"' {
                    FilterMode::Plain
                } else {
                    FilterMode::Text
                },
                ..scan
            },
        ),
        FilterMode::Plain => if text::is_space(s[i]) {
            (i + 1, scan)
        } else if s[i] == '#' {
            (comment_end(s, i + 1), scan)
        } else if starts_token(s[i]) {
            (token_end(s, i), after_token(s, i, scan))
        } else {
            (i + 1, after_break(s[i], scan))
        },
    }
}

/// What is exceeded first when the source is read from index `i` on.
pub open spec fn fault_from(s: Seq<char>, i: int, scan: FilterScan) -> Option<FilterFault>
    decreases s.len() - i,
{
    if i < 0 || i >= s.len() {
        None
    } else {
        let (j, next) = filter_step(s, i, scan);
        proof {
            lemma_token_goes_forward(s, i);
            lemma_comment_goes_forward(s, i + 1);
        }
        match exceeded(next) {
            Some(fault) => Some(fault),
            None => fault_from(s, j, next),
        }
    }
}

/// Why the source of a filter is refused, if it is.
pub open spec fn filter_fault(filter: Seq<char>) -> Option<FilterFault> {
    if text::byte_len(filter) > MAX_JQ_FILTER_SOURCE_BYTES {
        Some(FilterFault::TooLong)
    } else {
        fault_from(filter, 0, filter_start())
    }
}

/// What is said of a filter that is refused.
pub open spec fn fault_text(fault: FilterFault) -> Seq<char> {
    match fault {
        FilterFault::TooLong => "jq filter source exceeds maximum size 262144 bytes"@,
        FilterFault::TooDeep => "jq filter nesting exceeds maximum depth 512"@,
        FilterFault::TooComplex => "jq filter complexity exceeds maximum token count 1024"@,
    }
}

pub fn fault_message(fault: FilterFault) -> (r: &'static str)
    ensures
        r@ == fault_text(fault),
{
    match fault {
        FilterFault::TooLong => "jq filter source exceeds maximum size 262144 bytes",
        FilterFault::TooDeep => "jq filter nesting exceeds maximum depth 512",
        FilterFault::TooComplex => "jq filter complexity exceeds maximum token count 1024",
    }
}

pub fn is_jq_ident_start(c: char) -> (r: bool)
    ensures
        r == starts_name(c),
{
    text::alpha(c) || c == '_'
}

pub fn is_jq_ident_continue(c: char) -> (r: bool)
    ensures
        r == continues_name(c),
{
    is_jq_ident_start(c) || text::digit(c)
}

fn operator_char(c: char) -> (r: bool)
    ensures
        r == in_operators(c),
{
    c == '|' || c == '=' || c == '!' || c == '<' || c == '>' || c == '+' || c == '-' || c == '*'
        || c == '/' || c == '%'
}

fn opened_by(c: char) -> (r: Option<FilterDelimiter>)
    ensures
        r == opening(c),
{
    if c == '(' {
        Some(FilterDelimiter::Paren)
    } else if c == '[' {
        Some(FilterDelimiter::Bracket)
    } else if c == '{' {
        Some(FilterDelimiter::Brace)
    } else {
        None
    }
}

fn token_start(c: char) -> (r: bool)
    ensures
        r == starts_token(c),
{
    is_jq_ident_continue(c) || operator_char(c) || opened_by(c).is_some() || c == '"' || c == '$'
        || c == '@' || c == '.' || c == ':' || c == ';' || c == ',' || c == '?'
}

fn jq_operator_len(s: &Vec<char>, i: usize) -> (r: usize)
    requires
        i < s@.len(),
    ensures
        r == operator_len(s@, i as int),
        i + r <= s@.len(),
{
    if s.len() - i < 2 {
        return 1;
    }
    let first: char = s[i];
    let second: char = s[i + 1];
    if (first == '/' && second == '/') || (operator_char(first) && second == '=') {
        2
    } else {
        1
    }
}

fn find_token_end(s: &Vec<char>, i: usize) -> (r: usize)
    requires
        i < s@.len(),
    ensures
        r == token_end(s@, i as int),
        i < r <= s@.len(),
{
    let n: usize = s.len();
    let c: char = s[i];
    proof {
        lemma_token_goes_forward(s@, i as int);
        assert(i < n);
    }
    if c == '"' || opened_by(c).is_some() {
        return i + 1;
    }
    let mut j: usize = i + 1;
    if is_jq_ident_start(c) {
        while j < s.len() && is_jq_ident_continue(s[j])
            invariant
                i < j <= s@.len(),
                name_end(s@, i + 1) == name_end(s@, j as int),
            decreases s@.len() - j,
        {
            j = j + 1;
        }
        return j;
    }
    if text::digit(c) {
        while j < s.len() && text::digit(s[j])
            invariant
                i < j <= s@.len(),
                digits_end(s@, i + 1) == digits_end(s@, j as int),
            decreases s@.len() - j,
        {
            j = j + 1;
        }
        return j;
    }
    i + jq_operator_len(s, i)
}

fn ends_oddly(s: &Vec<char>, from: usize, end: usize) -> (r: bool)
    requires
        from <= end <= s@.len(),
    ensures
        r == (trailing_backslashes(s@, from as int, line_cut(s@, from as int, end as int)) % 2 != 0),
{
    let mut to: usize = end;
    if from < end && s[end - 1] == '\r' {
        to = end - 1;
    }
    let ghost cut = to as int;
    let mut odd = false;
    while from < to && s[to - 1] == '\\'
        invariant
            from <= to <= s@.len(),
            (trailing_backslashes(s@, from as int, cut) % 2 != 0) == (odd != (
            trailing_backslashes(s@, from as int, to as int) % 2 != 0)),
        decreases to,
    {
        odd = !odd;
        to = to - 1;
    }
    odd
}

fn find_comment_end(s: &Vec<char>, i: usize) -> (r: usize)
    requires
        i <= s@.len(),
    ensures
        r == comment_end(s@, i as int),
        i <= r <= s@.len(),
{
    let mut line: usize = i;
    let mut end: usize = i;
    proof {
        lemma_comment_goes_forward(s@, i as int);
    }
    while end < s.len()
        invariant
            i <= line <= end <= s@.len(),
            text::find_from(s@, '\n', line as int) == text::find_from(s@, '\n', end as int),
            comment_end(s@, line as int) == comment_end(s@, i as int),
            i <= comment_end(s@, i as int) <= s@.len(),
        decreases s@.len() - end,
    {
        if s[end] == '\n' {
            if !ends_oddly(s, line, end) {
                return end + 1;
            }
            line = end + 1;
        }
        end = end + 1;
    }
    s.len()
}

fn hex(c: char) -> (r: bool)
    ensures
        r == is_hex(c),
{
    text::digit(c) || ('a' <= c && c <= 'f') || ('A' <= c && c <= 'F')
}

fn escapes(s: &Vec<char>, i: usize) -> (r: bool)
    requires
        i < s@.len(),
    ensures
        r == is_escape(s@, i as int),
{
    let c: char = s[i];
    if c == 'u' {
        return s.len() - i > 4 && hex(s[i + 1]) && hex(s[i + 2]) && hex(s[i + 3]) && hex(s[i + 4])
            && !((s[i + 1] == 'd' || s[i + 1] == 'D') && !('0' <= s[i + 2] && s[i + 2] <= '7'));
    }
    c == '\\' || c == '/' || c == '"' || c == 'b' || c == 'f' || c == 'n' || c == 'r' || c == 't'
}

/// The delimiters that are open in what has been read of a filter.
struct OpenDelimiters {
    open: Vec<FilterDelimiter>,
    tokens: usize,
}

impl OpenDelimiters {
    spec fn scan(&self, mode: FilterMode) -> FilterScan {
        FilterScan { open: self.open@, tokens: self.tokens as nat, mode }
    }

    fn check(&self) -> (r: Option<FilterFault>)
        ensures
            forall|mode: FilterMode| r == exceeded(#[trigger] self.scan(mode)),
    {
        if self.open.len() > MAX_JQ_FILTER_NESTING {
            Some(FilterFault::TooDeep)
        } else if self.tokens > MAX_JQ_FILTER_SYNTAX_TOKENS {
            Some(FilterFault::TooComplex)
        } else {
            None
        }
    }

    /// Takes note of the token at index `i`, and tells what comes behind it.
    fn token(&mut self, s: &Vec<char>, i: usize) -> (r: FilterMode)
        requires
            i < s@.len(),
            old(self).tokens <= MAX_JQ_FILTER_SYNTAX_TOKENS,
        ensures
            final(self).scan(r) == after_token(s@, i as int, old(self).scan(FilterMode::Plain)),
    {
        self.tokens = self.tokens + 1;
        match opened_by(s[i]) {
            Some(delimiter) => self.open.push(delimiter),
            None => {},
        }
        if s[i] == '"' {
            FilterMode::Text
        } else {
            FilterMode::Plain
        }
    }

    /// Takes note of a character that starts no token, and tells what comes behind it.
    fn end(&mut self, c: char) -> (r: FilterMode)
        requires
            old(self).tokens <= MAX_JQ_FILTER_SYNTAX_TOKENS,
        ensures
            final(self).scan(r) == after_break(c, old(self).scan(FilterMode::Plain)),
    {
        let ghost before = self.open@;
        self.tokens = self.tokens + 1;
        let mut left: usize = self.open.len();
        proof {
            assert(before.take(before.len() as int) =~= before);
        }
        while left > 0
            invariant
                left <= self.open@.len(),
                self.open@ == before,
                self.tokens == old(self).tokens + 1,
                before == old(self).open@,
                ended(before, c) == ended(before.take(left as int), c),
            decreases left,
        {
            let delimiter = self.open[left - 1];
            let closing = match delimiter {
                FilterDelimiter::Bracket => ']',
                FilterDelimiter::Brace => '}',
                _ => ')',
            };
            proof {
                assert(before.take(left as int).last() == delimiter);
                assert(before.take(left as int).drop_last() =~= before.take(left - 1));
            }
            if delimiter == FilterDelimiter::Interpolation {
                self.open.truncate(left - 1);
                return if c == '\\' {
                    FilterMode::Escape
                } else {
                    FilterMode::Text
                };
            }
            if closing == c {
                self.open.truncate(left - 1);
                return FilterMode::Plain;
            }
            left = left - 1;
        }
        if (c == ')' || c == ']' || c == '}') && self.open.len() > 0 {
            let _ = self.open.pop();
            proof {
                assert(self.open@ =~= before.drop_last());
            }
        }
        FilterMode::Plain
    }

    /// Takes note of the character at index `i`, which stands behind a backslash in a text.
    fn escape(&mut self, s: &Vec<char>, i: usize) -> (r: FilterMode)
        requires
            i < s@.len(),
            old(self).tokens <= MAX_JQ_FILTER_SYNTAX_TOKENS,
        ensures
            final(self).scan(r) == after_escape(s@, i as int, old(self).scan(FilterMode::Escape)),
    {
        if s[i] == '(' {
            self.open.push(FilterDelimiter::Interpolation);
            self.tokens = self.tokens + 1;
            return FilterMode::Plain;
        }
        if !escapes(s, i) {
            self.tokens = self.tokens + 1;
        }
        FilterMode::Text
    }
}

/// Checks the source of a filter. The lexer behind it recurses on delimiters, and the parser on
/// prefix terms and operator chains too, so both the depth and the number of tokens are bounded.
/// The source is read as the lexer reads it, which goes on behind an error.
pub fn validate_filter_source(filter: &str) -> (r: Result<(), FilterFault>)
    ensures
        r == (match filter_fault(filter@) {
            Some(fault) => Err::<(), FilterFault>(fault),
            None => Ok(()),
        }),
{
    if text::str_bytes(filter) > MAX_JQ_FILTER_SOURCE_BYTES {
        return Err(FilterFault::TooLong);
    }
    let s = text::to_chars(filter);
    let mut read = OpenDelimiters { open: Vec::new(), tokens: 0 };
    let mut mode = FilterMode::Plain;
    let mut i: usize = 0;
    proof {
        assert(read.scan(mode) =~= filter_start());
    }
    while i < s.len()
        invariant
            s@ == filter@,
            text::byte_len(filter@) <= MAX_JQ_FILTER_SOURCE_BYTES,
            i <= s@.len(),
            read.tokens <= MAX_JQ_FILTER_SYNTAX_TOKENS,
            exceeded(read.scan(mode)) is None,
            fault_from(s@, i as int, read.scan(mode)) == fault_from(s@, 0, filter_start()),
        decreases s@.len() - i,
    {
        let ghost before = read.scan(mode);
        let ghost at = i as int;
        match mode {
            FilterMode::Escape => {
                mode = read.escape(&s, i);
                i = i + 1;
            },
            FilterMode::Text => {
                if s[i] == '\\' {
                    mode = FilterMode::Escape;
                } else if s[i] == '"' {
                    mode = FilterMode::Plain;
                }
                i = i + 1;
            },
            FilterMode::Plain => {
                if text::space(s[i]) {
                    i = i + 1;
                } else if s[i] == '#' {
                    i = find_comment_end(&s, i + 1);
                } else if token_start(s[i]) {
                    let end = find_token_end(&s, i);
                    mode = read.token(&s, i);
                    i = end;
                } else {
                    mode = read.end(s[i]);
                    i = i + 1;
                }
            },
        }
        proof {
            assert(filter_step(s@, at, before) == (i as int, read.scan(mode)));
        }
        match read.check() {
            Some(fault) => {
                return Err(fault);
            },
            None => {},
        }
    }
    Ok(())
}

/// Inside a text, everything up to the closing quote is passed over.
proof fn lemma_text_is_passed_over(s: Seq<char>, i: int, end: int, scan: FilterScan)
    requires
        0 <= i <= end <= s.len(),
        scan.mode == FilterMode::Text,
        exceeded(scan) is None,
        forall|j: int| i <= j < end ==> s[j] != '"' && s[j] != '\\',
    ensures
        fault_from(s, i, scan) == fault_from(s, end, scan),
    decreases end - i,
{
    if i < end {
        lemma_text_is_passed_over(s, i + 1, end, scan);
    }
}

/// What stands in a text does not count: a filter that is one text, without quotes or
/// backslashes in it, is accepted whatever delimiters it holds, unless it is too long.
pub proof fn law_delimiters_in_texts_do_not_count(inner: Seq<char>)
    requires
        forall|j: int| 0 <= j < inner.len() ==> inner[j] != '"' && inner[j] != '\\',
    ensures
        fault_from(seq!['"'] + inner + seq!['"'], 0, filter_start()) is None,
{
    let s = seq!['"'] + inner + seq!['"'];
    let scan = after_token(s, 0, filter_start());
    assert(s[0] == '"');
    assert(token_end(s, 0) == 1);
    assert(scan.mode == FilterMode::Text);
    let last = s.len() - 1;
    assert forall|j: int| 1 <= j < last implies s[j] != '"' && s[j] != '\\' by {
        assert(s[j] == inner[j - 1]);
    }
    lemma_text_is_passed_over(s, 1, last, scan);
    assert(s[last] == '"');
    reveal_with_fuel(fault_from, 3);
}

/// What stands in a comment does not count either. It ends with its line, unless that ends in a
/// backslash which no other backslash stands before.
pub proof fn law_comments_do_not_count(s: Seq<char>, i: int, end: int, scan: FilterScan)
    requires
        0 <= i < end < s.len(),
        scan.mode == FilterMode::Plain,
        exceeded(scan) is None,
        s[i] == '#',
        s[end] == '\n',
        forall|j: int| i < j < end ==> s[j] != '\n',
    ensures
        trailing_backslashes(s, i + 1, line_cut(s, i + 1, end)) % 2 == 0 ==> fault_from(s, i, scan)
            == fault_from(s, end + 1, scan),
        trailing_backslashes(s, i + 1, line_cut(s, i + 1, end)) == 1 ==> fault_from(s, i, scan)
            == fault_from(s, comment_end(s, end + 1), scan),
{
    lemma_newline_at(s, i + 1, end);
}

proof fn lemma_newline_at(s: Seq<char>, i: int, end: int)
    requires
        0 <= i <= end < s.len(),
        s[end] == '\n',
        forall|j: int| i <= j < end ==> s[j] != '\n',
    ensures
        text::find_from(s, '\n', i) == end,
    decreases end - i,
{
    if i < end {
        lemma_newline_at(s, i + 1, end);
    }
}

proof fn lemma_place_front(data: Seq<u8>, more: Seq<u8>, n: int)
    requires
        0 <= n <= data.len(),
    ensures
        json_place(data + more, n) == json_place(data, n),
        key_place(data + more, n) == key_place(data, n),
    decreases n,
{
    if n > 0 {
        lemma_place_front(data, more, n - 1);
        assert((data + more)[n - 1] == data[n - 1]);
    }
}

/// A bracket or a brace that opens goes one deeper, and one that closes comes back from there. Any
/// other byte that stands for itself changes nothing.
pub proof fn law_brackets_nest(data: Seq<u8>, byte: u8)
    requires
        json_place(data, data.len() as int).mode == Mode::Plain,
    ensures
        ({
            let n = data.len() as int;
            let depth = json_place(data, n).depth;
            let after = json_place(data.push(byte), n + 1);
            &&& byte == '[' as u8 || byte == '{' as u8 ==> after == (JsonPlace {
                depth: depth + 1,
                mode: Mode::Plain,
            })
            &&& (byte == ']' as u8 || byte == '}' as u8) && depth > 0 ==> after == (JsonPlace {
                depth: (depth - 1) as nat,
                mode: Mode::Plain,
            })
            &&& byte != '[' as u8 && byte != '{' as u8 && byte != ']' as u8 && byte != '}' as u8
                ==> after.depth == depth
            &&& after.mode == Mode::Plain <==> byte != '"' as u8 && byte != '#' as u8
        }),
{
    assert(data.push(byte) =~= data + seq![byte]);
    lemma_place_front(data, seq![byte], data.len() as int);
    assert(data.push(byte)[data.len() as int] == byte);
}

proof fn lemma_inside_text(data: Seq<u8>, t: Seq<u8>, n: int)
    requires
        0 <= n <= t.len(),
        json_place(data, data.len() as int).mode == Mode::Text,
        key_place(data, data.len() as int).mode == Mode::Text,
        forall|i: int| 0 <= i < t.len() ==> #[trigger] t[i] != 34 && t[i] != 92,
    ensures
        json_place(data + t, data.len() + n) == json_place(data, data.len() as int),
        key_place(data + t, data.len() + n) == key_place(data, data.len() as int),
    decreases n,
{
    if n == 0 {
        lemma_place_front(data, t, data.len() as int);
    } else {
        lemma_inside_text(data, t, n - 1);
        assert((data + t)[data.len() + n - 1] == t[n - 1]);
    }
}

/// What stands in a text does not nest, whatever it holds: behind a text the place is the one before
/// it.
pub proof fn law_texts_do_not_nest(data: Seq<u8>, t: Seq<u8>)
    requires
        json_place(data, data.len() as int).mode == Mode::Plain,
        forall|i: int| 0 <= i < t.len() ==> #[trigger] t[i] != '"' as u8 && t[i] != '\\' as u8,
    ensures
        ({
            let all = data + seq!['"' as u8] + t + seq!['"' as u8];
            json_place(all, all.len() as int) == json_place(data, data.len() as int)
        }),
{
    let n = data.len() as int;
    let opened = data + seq![34u8];
    let filled = opened + t;
    let all = filled + seq![34u8];
    lemma_place_front(data, seq![34u8], n);
    assert(opened[n] == 34);
    assert(json_place(opened, n + 1).mode == Mode::Text);
    lemma_modes_agree(opened, n + 1);
    lemma_inside_text(opened, t, t.len() as int);
    lemma_place_front(filled, seq![34u8], filled.len() as int);
    assert(all[filled.len() as int] == 34);
}

/// Nesting and keys are read alike.
proof fn lemma_modes_agree(data: Seq<u8>, n: int)
    requires
        0 <= n <= data.len(),
    ensures
        json_place(data, n).mode == key_place(data, n).mode,
    decreases n,
{
    if n > 0 {
        lemma_modes_agree(data, n - 1);
    }
}

/// The places of a text are within bounds exactly where none of its beginnings is too deep.
pub proof fn law_beginnings_nest_no_deeper(data: Seq<u8>, more: Seq<u8>)
    ensures
        nests_too_deep(data) ==> nests_too_deep(data + more),
        json_place(data, data.len() as int).depth > 1024 ==> nests_too_deep(data),
{
    if nests_too_deep(data) {
        let n = choose|n: int|
            0 <= n <= data.len() && (#[trigger] json_place(data, n)).depth > MAX_JQ_JSON_NESTING;
        lemma_place_front(data, more, n);
        assert(json_place(data + more, n).depth > MAX_JQ_JSON_NESTING);
    }
}

/// A colon behind an array or an object makes a key of it, with white space between or without; one
/// behind a text or behind anything else does not.
pub proof fn law_colons_end_keys(data: Seq<u8>, byte: u8, blanks: Seq<u8>)
    requires
        key_place(data, data.len() as int).mode == Mode::Plain,
        byte != '"' as u8,
        byte != '#' as u8,
        byte != ' ' as u8 && byte != '\t' as u8 && byte != '\n' as u8 && byte != '\r' as u8,
        forall|i: int|
            0 <= i < blanks.len() ==> #[trigger] blanks[i] == ' ' as u8 || blanks[i] == '\t' as u8
                || blanks[i] == '\n' as u8 || blanks[i] == '\r' as u8,
    ensures
        ({
            let front = data.push(byte) + blanks;
            let all = front.push(':' as u8);
            ends_composite_key(all, front.len() as int) <==> byte == ']' as u8 || byte == '}' as u8
        }),
{
    let n = data.len() as int;
    assert(data.push(byte) =~= data + seq![byte]);
    lemma_place_front(data, seq![byte], n);
    let ended = data.push(byte);
    assert(ended[n] == byte);
    let front = ended + blanks;
    lemma_key_blanks(ended, blanks, blanks.len() as int);
    let all = front.push(58u8);
    assert(all =~= front + seq![58u8]);
    lemma_place_front(front, seq![58u8], front.len() as int);
    assert(all[front.len() as int] == 58);
}

proof fn lemma_key_blanks(data: Seq<u8>, blanks: Seq<u8>, n: int)
    requires
        0 <= n <= blanks.len(),
        key_place(data, data.len() as int).mode == Mode::Plain,
        forall|i: int|
            0 <= i < blanks.len() ==> #[trigger] blanks[i] == 32 || blanks[i] == 9 || blanks[i] == 10
                || blanks[i] == 13,
    ensures
        key_place(data + blanks, data.len() + n) == key_place(data, data.len() as int),
    decreases n,
{
    if n == 0 {
        lemma_place_front(data, blanks, data.len() as int);
    } else {
        lemma_key_blanks(data, blanks, n - 1);
        assert((data + blanks)[data.len() + n - 1] == blanks[n - 1]);
    }
}

/// A name and a numeral are one token each, however long they are, and end where something else
/// starts.
pub proof fn law_words_are_one_token(word: Seq<char>, behind: Seq<char>)
    requires
        word.len() > 0,
        behind.len() > 0 ==> !('a' <= behind[0] <= 'z') && !('A' <= behind[0] <= 'Z') && !('0'
            <= behind[0] <= '9') && behind[0] != '_',
    ensures
        crate::shell::written::variable_name(word) ==> token_end(word + behind, 0) == word.len(),
        (forall|i: int| 0 <= i < word.len() ==> '0' <= #[trigger] word[i] <= '9') ==> token_end(
            word + behind,
            0,
        ) == word.len(),
{
    let s = word + behind;
    assert(s[0] == word[0]);
    if behind.len() > 0 {
        assert(s[word.len() as int] == behind[0]);
    }
    if crate::shell::written::variable_name(word) {
        assert forall|i: int| 0 <= i < word.len() implies continues_name(#[trigger] s[i]) by {
            assert(s[i] == word[i]);
        }
        lemma_name_until(s, 1, word.len() as int);
    }
    if forall|i: int| 0 <= i < word.len() ==> '0' <= #[trigger] word[i] <= '9' {
        assert forall|i: int| 0 <= i < word.len() implies text::is_digit(#[trigger] s[i]) by {
            assert(s[i] == word[i]);
        }
        assert(text::is_digit(s[0]));
        lemma_digits_until(s, 1, word.len() as int);
    }
}

proof fn lemma_name_until(s: Seq<char>, i: int, end: int)
    requires
        0 <= i <= end <= s.len(),
        forall|k: int| i <= k < end ==> continues_name(#[trigger] s[k]),
        end < s.len() ==> !continues_name(s[end]),
    ensures
        name_end(s, i) == end,
    decreases end - i,
{
    if i < end {
        assert(continues_name(s[i]));
        lemma_name_until(s, i + 1, end);
    }
}

proof fn lemma_digits_until(s: Seq<char>, i: int, end: int)
    requires
        0 <= i <= end <= s.len(),
        forall|k: int| i <= k < end ==> text::is_digit(#[trigger] s[k]),
        end < s.len() ==> !text::is_digit(s[end]),
    ensures
        digits_end(s, i) == end,
    decreases end - i,
{
    if i < end {
        assert(text::is_digit(s[i]));
        lemma_digits_until(s, i + 1, end);
    }
}

/// A delimiter in plain source opens one level more, and what closes it ends that level; each counts
/// as one token.
pub proof fn law_delimiters_open_and_close(scan: FilterScan, c: char, close: char)
    requires
        scan.mode == FilterMode::Plain,
        (c == '(' && close == ')') || (c == '[' && close == ']') || (c == '{' && close == '}'),
    ensures
        ({
            let (i, inside) = filter_step(seq![c, close], 0, scan);
            let (j, outside) = filter_step(seq![c, close], 1, inside);
            &&& i == 1 && j == 2
            &&& inside.open.len() == scan.open.len() + 1
            &&& inside.open.drop_last() == scan.open
            &&& inside.tokens == scan.tokens + 1
            &&& inside.mode == FilterMode::Plain
            &&& outside.open == scan.open
            &&& outside.tokens == scan.tokens + 2
            &&& outside.mode == FilterMode::Plain
        }),
{
    let s = seq![c, close];
    assert(s[0] == c && s[1] == close);
    let (_, inside) = filter_step(s, 0, scan);
    assert(inside.open.drop_last() =~= scan.open);
    assert(inside.open.take(scan.open.len() as int) =~= scan.open);
    assert(!text::is_space(c) && !text::is_space(close));
    assert(!starts_token(close));
    assert(ended(inside.open, close) == Some((scan.open.len(), inside.open.last())));
}

} // verus!
