//! Running a filter: what it is given, and what its outputs and failures come to.

use vstd::prelude::*;

use jaq_core::data::JustLut;
use jaq_core::load::{Arena, File, Loader};
use jaq_core::Exn;
use jaq_json::{Num, Val};

use crate::builtins;
use crate::builtins::StreamError;
use crate::bytes;
use crate::jq::bounds;
use crate::jq::options::{JqOptions, JqVariable, OptionsView, VariableView};
use crate::jq::policy;
use crate::text;
use crate::vfs::VfsError;

verus! {

// ---- the filter engine ----

/// A JSON value of the filter engine.
#[verifier::external_type_specification]
#[verifier::external_body]
pub struct ExVal(jaq_json::Val);

/// An error of the filter engine, which the arithmetic of its values can give.
#[verifier::external_type_specification]
#[verifier::external_body]
#[verifier::reject_recursive_types(V)]
pub struct ExJaqError<V>(jaq_core::Error<V>);

/// What reading a JSON text with `jaq_json::read::parse_many` gives: the values before the first
/// error, and what is said of that error.
pub uninterp spec fn json_reading(data: Seq<u8>) -> (Seq<Val>, Option<Seq<char>>);

/// Reads the values of a JSON text with `jaq_json::read::parse_many`, up to the first error. The
/// values and what the error says depend on the bytes alone. The parser recurses on arrays and
/// objects, so the text must not nest too deep. Where an object is a key, or lies in one, its entries
/// are sorted, which may fail where a key among them is no number: no array and no object may be a
/// key.
#[verifier::external_body]
fn parse_values(data: &[u8]) -> (r: (Vec<Val>, Option<String>))
    requires
        bounds::json_fault(data@) is None,
    ensures
        r.0@ == json_reading(data@).0,
        crate::host::code_view(r.1) == json_reading(data@).1,
{
    let mut values = Vec::new();
    for value in jaq_json::read::parse_many(data) {
        match value {
            Ok(value) => values.push(value),
            Err(err) => return (values, Some(err.to_string())),
        }
    }
    (values, None)
}

/// What reading a text that is to be one JSON value with `jaq_json::read::parse_single` gives: the
/// value, or what is said of the error.
pub uninterp spec fn json_single(data: Seq<u8>) -> Result<Val, Seq<char>>;

/// Reads exactly one JSON value with `jaq_json::read::parse_single`. The value, or what the error
/// says, depends on the bytes alone. The text must not nest too deep, and no array and no object may be a
/// key in it.
#[verifier::external_body]
fn parse_value(data: &[u8]) -> (r: Result<Val, String>)
    requires
        bounds::json_fault(data@) is None,
    ensures
        match r {
            Ok(value) => json_single(data@) == Ok::<Val, Seq<char>>(value),
            Err(message) => json_single(data@) == Err::<Val, Seq<char>>(message@),
        },
{
    jaq_json::read::parse_single(data).map_err(|err| err.to_string())
}

/// The text value that `jaq_json::Val::utf8_str` makes of a text.
pub uninterp spec fn text_val(value: Seq<char>) -> Val;

/// Makes a text value with `jaq_json::Val::utf8_str`: it depends on the text alone, and it is a
/// text with the bytes of that text.
#[verifier::external_body]
fn text_value(value: &str) -> (r: Val)
    ensures
        r == text_val(value@),
        value_kind(r) == ValueView::Text(vstd::utf8::encode_utf8(value@)),
{
    Val::utf8_str(value.to_owned())
}

/// What `jaq_core`'s loader and compiler say of a filter that does not compile, with the
/// definitions and functions of `jaq_core`, `jaq_std` and `jaq_json` and with these global
/// variables.
pub uninterp spec fn compiler_complaint(filter: Seq<char>, names: Seq<Seq<char>>) -> Option<Seq<char>>;

/// Loads a filter with `jaq_core::load::Loader::load` and compiles it with
/// `jaq_core::Compiler::compile`. Whether that fails, and with which words, depends on the filter
/// and the names alone. The lexer, the parser and the compiler recurse on the filter, so its source
/// must be bounded; the thread that compiles needs a stack for as many calls.
#[verifier::external_body]
fn compile(filter: &str, names: &Vec<String>) -> (r: Option<String>)
    requires
        bounds::filter_fault(filter@) is None,
    ensures
        crate::host::code_view(r) == compiler_complaint(filter@, text::texts(names@)),
{
    let defs = jaq_core::defs().chain(jaq_std::defs()).chain(jaq_json::defs());
    let arena = Arena::default();
    let file = File { code: filter, path: () };
    let modules = match Loader::new(defs).load(&arena, file) {
        Ok(modules) => modules,
        Err(errs) => return Some(format!("{errs:?}")),
    };
    let funs = jaq_core::funs::<JustLut<Val>>().chain(jaq_std::funs()).chain(jaq_json::funs());
    let compiler = jaq_core::Compiler::default().with_funs(funs);
    match compiler.with_global_vars(names.iter().map(String::as_str)).compile(modules) {
        Ok(_) => None,
        Err(errs) => Some(format!("{errs:?}")),
    }
}

/// A number of `jaq_json`.
#[derive(Debug, PartialEq, Eq)]
pub enum JqNumber {
    Int(i64),
    /// An integer of any size.
    Big,
    /// A number as it was written.
    Decimal(String),
    /// A number of the machine, as it is shown.
    Float(String),
}

pub enum NumberView {
    Int(i64),
    Big,
    Decimal(Seq<char>),
    Float(Seq<char>),
}

/// What a value of `jaq_json` holds.
#[derive(Debug, PartialEq, Eq)]
pub enum JqValue {
    Null,
    Bool(bool),
    Number(JqNumber),
    /// A text or byte string, with its bytes.
    Text(Vec<u8>),
    Array(Vec<Val>),
    Object(Vec<(Val, Val)>),
}

#[verifier::ext_equal]
pub enum ValueView {
    Null,
    Bool(bool),
    Number(NumberView),
    Text(Seq<u8>),
    Array(Seq<Val>),
    Object(Seq<(Val, Val)>),
}

impl JqNumber {
    pub open spec fn view(&self) -> NumberView {
        match self {
            JqNumber::Int(i) => NumberView::Int(*i),
            JqNumber::Big => NumberView::Big,
            JqNumber::Decimal(written) => NumberView::Decimal(written@),
            JqNumber::Float(shown) => NumberView::Float(shown@),
        }
    }
}

impl JqValue {
    pub open spec fn view(&self) -> ValueView {
        match self {
            JqValue::Null => ValueView::Null,
            JqValue::Bool(b) => ValueView::Bool(*b),
            JqValue::Number(number) => ValueView::Number(number@),
            JqValue::Text(bytes) => ValueView::Text(bytes@),
            JqValue::Array(items) => ValueView::Array(items@),
            JqValue::Object(entries) => ValueView::Object(entries@),
        }
    }
}

/// What a value of `jaq_json` is: its variant, with what the variant holds.
pub uninterp spec fn value_kind(value: Val) -> ValueView;

/// Tells the variants of `jaq_json::Val` and of `jaq_json::Num` apart, and hands out what they
/// hold. It depends on the value alone.
#[verifier::external_body]
fn kind_of(value: &Val) -> (r: JqValue)
    ensures
        r@ == value_kind(*value),
{
    match value {
        Val::Null => JqValue::Null,
        Val::Bool(b) => JqValue::Bool(*b),
        Val::Num(Num::Int(i)) => JqValue::Number(JqNumber::Int(*i as i64)),
        Val::Num(Num::BigInt(_)) => JqValue::Number(JqNumber::Big),
        Val::Num(Num::Dec(n)) => JqValue::Number(JqNumber::Decimal(n.to_string())),
        Val::Num(n) => JqValue::Number(JqNumber::Float(n.to_string())),
        Val::TStr(bytes) | Val::BStr(bytes) => JqValue::Text(bytes.to_vec()),
        Val::Arr(items) => JqValue::Array(items.to_vec()),
        Val::Obj(entries) => JqValue::Object((**entries).clone().into_iter().collect()),
    }
}

// ---- what can be printed ----

/// Whether no more than `n` arrays and objects lie in one another in a value.
pub open spec fn nests_within(value: Val, n: nat) -> bool
    decreases n,
{
    match value_kind(value) {
        ValueView::Array(items) => {
            &&& n > 0
            &&& forall|i: int|
            0 <= i < items.len() ==> nests_within(#[trigger] items[i], (n - 1) as nat)
        },
        ValueView::Object(entries) => {
            &&& n > 0
            &&& forall|i: int|
            0 <= i < entries.len() ==> nests_within(
                (#[trigger] entries[i]).0,
                (n - 1) as nat,
            ) && nests_within(entries[i].1, (n - 1) as nat)
        },
        _ => true,
    }
}

/// The largest integer up to which numbers of the machine hold every integer.
pub const MAX_EXACT_FLOAT: i64 = 9_007_199_254_740_992;

/// Whether a number that was written has a digit where it starts.
pub open spec fn starts_with_digit(written: Seq<char>) -> bool {
    if written.len() > 0 && (written[0] == '-' || written[0] == '+') {
        written.len() > 1 && text::is_digit(written[1])
    } else {
        written.len() > 0 && text::is_digit(written[0])
    }
}

/// Whether a number is ordered as an integer, or else as a number of the machine: what is not a
/// number has no place in an order, and large integers have none among numbers of the machine.
pub open spec fn ordered_as(number: NumberView, integers: bool) -> bool {
    match number {
        NumberView::Int(i) => integers || -MAX_EXACT_FLOAT <= i <= MAX_EXACT_FLOAT,
        NumberView::Big => integers,
        NumberView::Decimal(written) => !integers && starts_with_digit(written),
        NumberView::Float(shown) => !integers && shown != "NaN"@,
    }
}

/// Whether all numbers in a value, which nests `n` deep, are ordered alike.
pub open spec fn numbers_ordered(value: Val, n: nat, integers: bool) -> bool
    decreases n,
{
    match value_kind(value) {
        ValueView::Number(number) => ordered_as(number, integers),
        ValueView::Array(items) => {
            &&& n > 0
            &&& forall|i: int|
            0 <= i < items.len() ==> numbers_ordered(
                #[trigger] items[i],
                (n - 1) as nat,
                integers,
            )
        },
        ValueView::Object(entries) => {
            &&& n > 0
            &&& forall|i: int|
            0 <= i < entries.len() ==> numbers_ordered(
                (#[trigger] entries[i]).0,
                (n - 1) as nat,
                integers,
            ) && numbers_ordered(entries[i].1, (n - 1) as nat, integers)
        },
        _ => true,
    }
}

/// Whether the keys of an object, which nest `n` deep, are ordered alike.
pub open spec fn keys_ordered(entries: Seq<(Val, Val)>, n: nat, integers: bool) -> bool {
    forall|i: int|
        0 <= i < entries.len() ==> numbers_ordered((#[trigger] entries[i]).0, n, integers)
}

/// Whether the keys of all objects in a value, which nests `n` deep, can be sorted.
pub open spec fn sortable(value: Val, n: nat) -> bool
    decreases n,
{
    match value_kind(value) {
        ValueView::Array(items) => {
            &&& n > 0
            &&& forall|i: int|
            0 <= i < items.len() ==> sortable(#[trigger] items[i], (n - 1) as nat)
        },
        ValueView::Object(entries) => {
            &&& n > 0
            &&& keys_ordered(entries, (n - 1) as nat, true) || keys_ordered(
                entries,
                (n - 1) as nat,
                false,
            )
            &&& forall|i: int|
                0 <= i < entries.len() ==> sortable(
                    (#[trigger] entries[i]).0,
                    (n - 1) as nat,
                ) && sortable(entries[i].1, (n - 1) as nat)
        },
        _ => true,
    }
}

/// Checks how deep a value nests.
pub fn nesting_within(value: &Val, n: usize) -> (r: bool)
    ensures
        r == nests_within(*value, n as nat),
    decreases n,
{
    match kind_of(value) {
        JqValue::Array(items) => {
            if n == 0 {
                return false;
            }
            let mut i: usize = 0;
            while i < items.len()
                invariant
                    i <= items@.len(),
                    0 < n,
                    value_kind(*value) == ValueView::Array(items@),
                    forall|k: int|
                        0 <= k < i ==> nests_within(#[trigger] items@[k], (n - 1) as nat),
                decreases items@.len() - i,
            {
                if !nesting_within(&items[i], n - 1) {
                    assert(value_kind(*value)->Array_0[i as int] == items@[i as int]);
                    return false;
                }
                i = i + 1;
            }
            true
        },
        JqValue::Object(entries) => {
            if n == 0 {
                return false;
            }
            let mut i: usize = 0;
            while i < entries.len()
                invariant
                    i <= entries@.len(),
                    0 < n,
                    value_kind(*value) == ValueView::Object(entries@),
                    forall|k: int|
                        0 <= k < i ==> nests_within(
                            (#[trigger] entries@[k]).0,
                            (n - 1) as nat,
                        ) && nests_within(entries@[k].1, (n - 1) as nat),
                decreases entries@.len() - i,
            {
                if !nesting_within(&entries[i].0, n - 1) || !nesting_within(&entries[i].1, n - 1) {
                    assert(value_kind(*value)->Object_0[i as int] == entries@[i as int]);
                    return false;
                }
                i = i + 1;
            }
            true
        },
        _ => true,
    }
}

fn digit_first(written: &str) -> (r: bool)
    ensures
        r == starts_with_digit(written@),
{
    let chars = text::to_chars(written);
    if chars.len() > 0 && (chars[0] == '-' || chars[0] == '+') {
        chars.len() > 1 && text::digit(chars[1])
    } else {
        chars.len() > 0 && text::digit(chars[0])
    }
}

fn is_ordered_as(number: &JqNumber, integers: bool) -> (r: bool)
    ensures
        r == ordered_as(number@, integers),
{
    match number {
        JqNumber::Int(i) => integers || (-MAX_EXACT_FLOAT <= *i && *i <= MAX_EXACT_FLOAT),
        JqNumber::Big => integers,
        JqNumber::Decimal(written) => !integers && digit_first(written.as_str()),
        JqNumber::Float(shown) => !integers && !text::str_eq(shown.as_str(), "NaN"),
    }
}

fn has_ordered_numbers(value: &Val, n: usize, integers: bool) -> (r: bool)
    ensures
        r == numbers_ordered(*value, n as nat, integers),
    decreases n,
{
    match kind_of(value) {
        JqValue::Number(number) => is_ordered_as(&number, integers),
        JqValue::Array(items) => {
            if n == 0 {
                return false;
            }
            let mut i: usize = 0;
            while i < items.len()
                invariant
                    i <= items@.len(),
                    0 < n,
                    value_kind(*value) == ValueView::Array(items@),
                    forall|k: int|
                        0 <= k < i ==> numbers_ordered(
                            #[trigger] items@[k],
                            (n - 1) as nat,
                            integers,
                        ),
                decreases items@.len() - i,
            {
                if !has_ordered_numbers(&items[i], n - 1, integers) {
                    assert(value_kind(*value)->Array_0[i as int] == items@[i as int]);
                    return false;
                }
                i = i + 1;
            }
            true
        },
        JqValue::Object(entries) => {
            if n == 0 {
                return false;
            }
            let mut i: usize = 0;
            while i < entries.len()
                invariant
                    i <= entries@.len(),
                    0 < n,
                    value_kind(*value) == ValueView::Object(entries@),
                    forall|k: int|
                        0 <= k < i ==> numbers_ordered(
                            (#[trigger] entries@[k]).0,
                            (n - 1) as nat,
                            integers,
                        ) && numbers_ordered(entries@[k].1, (n - 1) as nat, integers),
                decreases entries@.len() - i,
            {
                if !has_ordered_numbers(&entries[i].0, n - 1, integers) || !has_ordered_numbers(
                    &entries[i].1,
                    n - 1,
                    integers,
                ) {
                    assert(value_kind(*value)->Object_0[i as int] == entries@[i as int]);
                    return false;
                }
                i = i + 1;
            }
            true
        },
        _ => true,
    }
}

fn has_ordered_keys(entries: &Vec<(Val, Val)>, n: usize, integers: bool) -> (r: bool)
    ensures
        r == keys_ordered(entries@, n as nat, integers),
{
    let mut i: usize = 0;
    while i < entries.len()
        invariant
            i <= entries@.len(),
            forall|k: int|
                0 <= k < i ==> numbers_ordered((#[trigger] entries@[k]).0, n as nat, integers),
        decreases entries@.len() - i,
    {
        if !has_ordered_numbers(&entries[i].0, n, integers) {
            return false;
        }
        i = i + 1;
    }
    true
}

/// Checks that the keys of all objects in a value can be sorted.
pub fn can_sort_keys(value: &Val, n: usize) -> (r: bool)
    ensures
        r == sortable(*value, n as nat),
    decreases n,
{
    match kind_of(value) {
        JqValue::Array(items) => {
            if n == 0 {
                return false;
            }
            let mut i: usize = 0;
            while i < items.len()
                invariant
                    i <= items@.len(),
                    0 < n,
                    value_kind(*value) == ValueView::Array(items@),
                    forall|k: int| 0 <= k < i ==> sortable(#[trigger] items@[k], (n - 1) as nat),
                decreases items@.len() - i,
            {
                if !can_sort_keys(&items[i], n - 1) {
                    assert(value_kind(*value)->Array_0[i as int] == items@[i as int]);
                    return false;
                }
                i = i + 1;
            }
            true
        },
        JqValue::Object(entries) => {
            if n == 0 {
                return false;
            }
            if !has_ordered_keys(&entries, n - 1, true) && !has_ordered_keys(
                &entries,
                n - 1,
                false,
            ) {
                return false;
            }
            let mut i: usize = 0;
            while i < entries.len()
                invariant
                    i <= entries@.len(),
                    0 < n,
                    value_kind(*value) == ValueView::Object(entries@),
                    keys_ordered(entries@, (n - 1) as nat, true) || keys_ordered(
                        entries@,
                        (n - 1) as nat,
                        false,
                    ),
                    forall|k: int|
                        0 <= k < i ==> sortable((#[trigger] entries@[k]).0, (n - 1) as nat)
                            && sortable(entries@[k].1, (n - 1) as nat),
                decreases entries@.len() - i,
            {
                if !can_sort_keys(&entries[i].0, n - 1) || !can_sort_keys(&entries[i].1, n - 1) {
                    assert(value_kind(*value)->Object_0[i as int] == entries@[i as int]);
                    return false;
                }
                i = i + 1;
            }
            true
        },
        _ => true,
    }
}

/// Why a value is not printed, if it is not.
pub open spec fn print_fault(value: Val, sort_keys: bool) -> Option<Seq<char>> {
    if !nests_within(value, bounds::MAX_JQ_OUTPUT_NESTING as nat) {
        Some("value nests too deep to be printed"@)
    } else if sort_keys && !sortable(value, bounds::MAX_JQ_OUTPUT_NESTING as nat) {
        Some("keys of an object cannot be sorted"@)
    } else {
        None
    }
}

/// Checks that a value can be printed.
pub fn check_printable(value: &Val, sort_keys: bool) -> (r: Result<(), &'static str>)
    ensures
        match print_fault(*value, sort_keys) {
            None => r is Ok,
            Some(text) => r matches Err(message) && message@ == text,
        },
{
    if !nesting_within(value, bounds::MAX_JQ_OUTPUT_NESTING) {
        return Err("value nests too deep to be printed");
    }
    if sort_keys && !can_sort_keys(value, bounds::MAX_JQ_OUTPUT_NESTING) {
        return Err("keys of an object cannot be sorted");
    }
    Ok(())
}

/// How values are printed.
#[derive(Debug, PartialEq, Eq)]
pub struct PrintStyle {
    /// What each level is indented by; nothing where all goes on one line.
    pub indent: Option<String>,
    pub sort_keys: bool,
    /// Whether a space stands behind a colon.
    pub sep_space: bool,
}

#[verifier::ext_equal]
pub struct StyleView {
    pub indent: Option<Seq<char>>,
    pub sort_keys: bool,
    pub sep_space: bool,
}

impl PrintStyle {
    pub open spec fn view(&self) -> StyleView {
        StyleView {
            indent: crate::host::code_view(self.indent),
            sort_keys: self.sort_keys,
            sep_space: self.sep_space,
        }
    }
}

/// The bytes that `jaq_json::write::write` prints for a value, without colours, or what is said of
/// the error.
pub uninterp spec fn printed_value(value: Val, style: StyleView) -> Result<Seq<u8>, Seq<char>>;

/// Prints a value with `jaq_json::write::write`, without colours. The bytes depend on the value
/// and the style alone. The printer recurses on arrays and objects, so the value must not nest too
/// deep; and where it sorts keys they must have an order, or else the sort may fail.
#[verifier::external_body]
fn print_value(value: &Val, style: &PrintStyle) -> (r: Result<Vec<u8>, String>)
    requires
        print_fault(*value, style.sort_keys) is None,
    ensures
        match r {
            Ok(bytes) => printed_value(*value, style@) == Ok::<Seq<u8>, Seq<char>>(bytes@),
            Err(message) => printed_value(*value, style@) == Err::<Seq<u8>, Seq<char>>(message@),
        },
{
    let mut out = Vec::new();
    let pp = jaq_json::write::Pp {
        indent: style.indent.clone(),
        sort_keys: style.sort_keys,
        sep_space: style.sep_space,
        styles: Default::default(),
    };
    match jaq_json::write::write(&mut out, &pp, 0, value) {
        Ok(()) => Ok(out),
        Err(err) => Err(err.to_string()),
    }
}

// ---- errors ----

/// Error returned while compiling or evaluating a jq filter.
#[derive(Debug, Clone, PartialEq, Eq)]
pub enum JqError {
    /// The filter failed to parse or compile.
    Compile(String),
    /// The filter failed while evaluating input.
    Runtime(String),
    /// The filter halted explicitly.
    Halt(i32),
}

pub enum ErrorView {
    Compile(Seq<char>),
    Runtime(Seq<char>),
    Halt(i32),
}

impl JqError {
    pub open spec fn view(&self) -> ErrorView {
        match self {
            JqError::Compile(message) => ErrorView::Compile(message@),
            JqError::Runtime(message) => ErrorView::Runtime(message@),
            JqError::Halt(code) => ErrorView::Halt(*code),
        }
    }

    pub fn message(&self) -> (r: String)
        ensures
            r@ == error_text(self@),
    {
        match self {
            JqError::Compile(message) => text::concat2("compile error: ", message.as_str()),
            JqError::Runtime(message) => text::concat2("runtime error: ", message.as_str()),
            JqError::Halt(code) => {
                let code = text::integer(*code as i64);
                text::concat2("halted with exit code ", code.as_str())
            },
        }
    }
}

pub open spec fn error_text(err: ErrorView) -> Seq<char> {
    match err {
        ErrorView::Compile(message) => "compile error: "@ + message,
        ErrorView::Runtime(message) => "runtime error: "@ + message,
        ErrorView::Halt(code) => "halted with exit code "@ + text::integer_text(code as int),
    }
}

/// An exception of the filter engine, which ends the outputs of a filter.
#[verifier::external_type_specification]
#[verifier::external_body]
#[verifier::reject_recursive_types(V)]
pub struct ExExn<'a, V>(jaq_core::Exn<'a, V>);

/// The error that `jaq_core::Exn::get_err` finds in an exception.
pub uninterp spec fn exception_error(exn: Exn<'_, Val>) -> Option<jaq_core::Error<Val>>;

/// The status that `jaq_core::Exn::get_halt` finds in an exception.
pub uninterp spec fn exception_halt(exn: Exn<'_, Val>) -> Option<i32>;

/// Asks `jaq_core::Exn::get_err` for the error in an exception; without one the exception comes
/// back.
#[verifier::external_body]
fn error_in(exn: Exn<'_, Val>) -> (r: Result<jaq_core::Error<Val>, Exn<'_, Val>>)
    ensures
        match r {
            Ok(err) => exception_error(exn) == Some(err),
            Err(same) => exception_error(exn) is None && same == exn,
        },
{
    exn.get_err()
}

/// Asks `jaq_core::Exn::get_halt` for the status in an exception; without one the exception comes
/// back.
#[verifier::external_body]
fn halt_in(exn: Exn<'_, Val>) -> (r: Result<i32, Exn<'_, Val>>)
    ensures
        match r {
            Ok(code) => exception_halt(exn) == Some(code),
            Err(same) => exception_halt(exn) is None && same == exn,
        },
{
    exn.get_halt()
}

/// What an exception is.
pub enum Exception<'a> {
    Error(jaq_core::Error<Val>),
    /// The filter halted with a status.
    Halt(i32),
    Other(Exn<'a, Val>),
}

/// Tells exceptions apart: an error comes before a status.
///
/// How an error is shown is not part of it: that recurses on the values in the error, which cannot
/// be looked into.
pub fn tell_apart(exn: Exn<'_, Val>) -> (r: Exception<'_>)
    ensures
        match exception_error(exn) {
            Some(err) => r == Exception::Error(err),
            None => match exception_halt(exn) {
                Some(code) => r == Exception::Halt(code),
                None => r == Exception::Other(exn),
            },
        },
{
    match error_in(exn) {
        Ok(err) => Exception::Error(err),
        Err(exn) => match halt_in(exn) {
            Ok(code) => Exception::Halt(code),
            Err(exn) => Exception::Other(exn),
        },
    }
}

/// An exception as it is shown.
#[derive(Debug, PartialEq, Eq)]
pub enum ShownException {
    /// An error, with what it says.
    Error(String),
    /// The filter halted with a status.
    Halt(i32),
    /// Anything else, as it is shown.
    Other(String),
}

pub enum ShownView {
    Error(Seq<char>),
    Halt(i32),
    Other(Seq<char>),
}

impl ShownException {
    pub open spec fn view(&self) -> ShownView {
        match self {
            ShownException::Error(message) => ShownView::Error(message@),
            ShownException::Halt(code) => ShownView::Halt(*code),
            ShownException::Other(shown) => ShownView::Other(shown@),
        }
    }
}

/// The failure that an exception is.
pub open spec fn exception_failure(exception: ShownView) -> ErrorView {
    match exception {
        ShownView::Error(message) => ErrorView::Runtime(message),
        ShownView::Halt(code) => ErrorView::Halt(code),
        ShownView::Other(shown) => ErrorView::Runtime(shown),
    }
}

/// The failure of a filter that ended with an exception.
pub fn jq_exception_to_error(exception: ShownException) -> (r: JqError)
    ensures
        r@ == exception_failure(exception@),
{
    match exception {
        ShownException::Error(message) => JqError::Runtime(message),
        ShownException::Halt(code) => JqError::Halt(code),
        ShownException::Other(shown) => JqError::Runtime(shown),
    }
}

/// How `jq` ends.
#[derive(Debug, PartialEq, Eq)]
pub struct JqRunDone {
    pub exit_code: i32,
    pub stderr: String,
}

#[verifier::ext_equal]
pub struct DoneView {
    pub exit_code: i32,
    pub stderr: Seq<char>,
}

impl JqRunDone {
    pub open spec fn view(&self) -> DoneView {
        DoneView { exit_code: self.exit_code, stderr: self.stderr@ }
    }
}

/// How `jq` ends when its filter fails: 3 if it does not compile, 5 if it fails on an input, and
/// with its own status if it halts.
pub open spec fn error_done(err: ErrorView) -> DoneView {
    DoneView {
        exit_code: match err {
            ErrorView::Compile(_) => 3,
            ErrorView::Runtime(_) => 5,
            ErrorView::Halt(code) => code,
        },
        stderr: "jq: "@ + error_text(err) + "\n"@,
    }
}

pub fn jq_error_outcome(err: &JqError) -> (r: JqRunDone)
    ensures
        r@ == error_done(err@),
{
    let exit_code: i32 = match err {
        JqError::Compile(_) => 3,
        JqError::Runtime(_) => 5,
        JqError::Halt(code) => *code,
    };
    let message = err.message();
    JqRunDone { exit_code, stderr: text::concat3("jq: ", message.as_str(), "\n") }
}

/// How `jq` ends when an input is not JSON.
pub open spec fn parse_error_done(path: Seq<char>, message: Seq<char>) -> DoneView {
    DoneView { exit_code: 5, stderr: "jq: "@ + path + ": parse error: "@ + message + "\n"@ }
}

pub fn jq_parse_error_outcome(path: &str, message: &str) -> (r: JqRunDone)
    ensures
        r@ == parse_error_done(path@, message@),
{
    JqRunDone {
        exit_code: 5,
        stderr: text::concat5("jq: ", path, ": parse error: ", message, "\n"),
    }
}

// ---- compiling ----

pub open spec fn user_defined_text() -> Seq<char> {
    "user-defined jq functions are not supported in tinysandbox"@
}

/// Why a filter is not run, if it is not.
pub open spec fn compile_failure(filter: Seq<char>, names: Seq<Seq<char>>) -> Option<Seq<char>> {
    match bounds::filter_fault(filter) {
        Some(fault) => Some(bounds::fault_text(fault)),
        None => if policy::filter_defines(filter) {
            Some(user_defined_text())
        } else {
            compiler_complaint(filter, names)
        },
    }
}

/// Checks that a filter may be run: its source is bounded, it defines no filters, and it
/// compiles with the given global variables.
pub fn compile_with_vars(filter: &str, names: &Vec<String>) -> (r: Result<(), JqError>)
    ensures
        match compile_failure(filter@, text::texts(names@)) {
            None => r is Ok,
            Some(message) => r matches Err(err) && err@ == ErrorView::Compile(message),
        },
{
    match bounds::validate_filter_source(filter) {
        Ok(()) => {},
        Err(fault) => {
            return Err(JqError::Compile(text::copy(bounds::fault_message(fault))));
        },
    }
    if policy::filter_contains_user_def(filter) {
        return Err(
            JqError::Compile(
                text::copy("user-defined jq functions are not supported in tinysandbox"),
            ),
        );
    }
    match compile(filter, names) {
        None => Ok(()),
        Some(message) => Err(JqError::Compile(message)),
    }
}

// ---- variables ----

/// A name without the dollar signs before it.
pub open spec fn undollared(name: Seq<char>, i: int) -> Seq<char>
    decreases name.len() - i,
{
    if 0 <= i < name.len() && name[i] == '$' {
        undollared(name, i + 1)
    } else {
        name.skip(i)
    }
}

/// What is said of a value that is not JSON.
pub open spec fn argjson_text(name: Seq<char>, message: Seq<char>) -> Seq<char> {
    "jq: invalid JSON for --argjson "@ + undollared(name, 0) + ": "@ + message + "\n"@
}

/// What is said of a variable whose value is not JSON.
pub fn argjson_error(name: &str, message: &str) -> (r: String)
    ensures
        r@ == argjson_text(name@, message@),
{
    let chars = text::to_chars(name);
    let mut i: usize = 0;
    while i < chars.len() && chars[i] == '$'
        invariant
            chars@ == name@,
            i <= chars@.len(),
            undollared(name@, 0) == undollared(name@, i as int),
        decreases chars@.len() - i,
    {
        i = i + 1;
    }
    let bare = text::from_range(&chars, i, chars.len());
    proof {
        assert(bare@ =~= name@.skip(i as int));
    }
    text::concat5("jq: invalid JSON for --argjson ", bare.as_str(), ": ", message, "\n")
}

/// The value of a variable, or why it is refused: the value of `--argjson` must be JSON that the
/// parser may be given.
pub open spec fn variable_reading(var: VariableView) -> Result<Val, Seq<char>> {
    let data = vstd::utf8::encode_utf8(var.value);
    if !var.json {
        Ok(text_val(var.value))
    } else {
        match bounds::json_fault(data) {
            Some(message) => Err(argjson_text(var.name, message)),
            None => match json_single(data) {
                Ok(value) => Ok(value),
                Err(message) => Err(argjson_text(var.name, message)),
            },
        }
    }
}

/// The first of the variables from `i` on that is refused, or their number.
pub open spec fn first_refused(vars: Seq<VariableView>, i: int) -> int
    decreases vars.len() - i,
{
    if 0 <= i < vars.len() && variable_reading(vars[i]) is Ok {
        first_refused(vars, i + 1)
    } else {
        i
    }
}

fn variable_value(var: &JqVariable) -> (r: Result<Val, String>)
    ensures
        match variable_reading(var@) {
            Ok(value) => r == Ok::<Val, String>(value),
            Err(message) => r matches Err(m) && m@ == message,
        },
{
    if !var.json {
        return Ok(text_value(var.value.as_str()));
    }
    let data = var.value.as_str().as_bytes();
    match bounds::validate_jq_json(data) {
        Err(message) => Err(argjson_error(var.name.as_str(), message)),
        Ok(()) => match parse_value(data) {
            Ok(value) => Ok(value),
            Err(message) => Err(argjson_error(var.name.as_str(), message.as_str())),
        },
    }
}

/// The values of the variables that were given on the command line.
pub fn parse_variables(vars: &Vec<JqVariable>) -> (r: Result<Vec<Val>, String>)
    ensures
        ({
            let all = crate::jq::options::variables_view(vars@);
            let n = first_refused(all, 0);
            if n >= all.len() {
                r matches Ok(values) && values@.len() == all.len() && forall|i: int|
                    0 <= i < all.len() ==> variable_reading(#[trigger] all[i]) == Ok::<
                        Val,
                        Seq<char>,
                    >(values@[i])
            } else {
                r matches Err(message) && variable_reading(all[n]) == Err::<Val, Seq<char>>(
                    message@,
                )
            }
        }),
{
    let ghost all = crate::jq::options::variables_view(vars@);
    let mut values: Vec<Val> = Vec::new();
    let mut i: usize = 0;
    while i < vars.len()
        invariant
            i <= vars@.len(),
            all == crate::jq::options::variables_view(vars@),
            first_refused(all, 0) == first_refused(all, i as int),
            values@.len() == i,
            forall|j: int|
                0 <= j < i ==> variable_reading(#[trigger] all[j]) == Ok::<Val, Seq<char>>(
                    values@[j],
                ),
        decreases vars@.len() - i,
    {
        proof {
            assert(all[i as int] == vars@[i as int]@);
        }
        match variable_value(&vars[i]) {
            Ok(value) => {
                values.push(value);
            },
            Err(message) => {
                return Err(message);
            },
        }
        i = i + 1;
    }
    Ok(values)
}

/// The names of variables.
pub open spec fn variable_names(vars: Seq<VariableView>) -> Seq<Seq<char>> {
    vars.map_values(|var: VariableView| var.name)
}

fn names_of(vars: &Vec<JqVariable>) -> (r: Vec<String>)
    ensures
        text::texts(r@) == variable_names(crate::jq::options::variables_view(vars@)),
{
    let ghost all = variable_names(crate::jq::options::variables_view(vars@));
    let mut r: Vec<String> = Vec::new();
    let mut i: usize = 0;
    proof {
        assert(text::texts(r@) =~= all.take(0));
    }
    while i < vars.len()
        invariant
            i <= vars@.len(),
            all == variable_names(crate::jq::options::variables_view(vars@)),
            text::texts(r@) == all.take(i as int),
        decreases vars@.len() - i,
    {
        let ghost before = r@;
        let name = vars[i].name.clone();
        r.push(name);
        proof {
            assert(crate::jq::options::variables_view(vars@)[i as int] == vars@[i as int]@);
            assert(text::texts(r@) =~= text::texts(before).push(name@));
            assert(all.take(i + 1) =~= all.take(i as int).push(all[i as int]));
        }
        i = i + 1;
    }
    proof {
        assert(all.take(i as int) =~= all);
    }
    r
}

/// How `jq` ends before its filter runs, if it does: with status 2 where the value of a variable
/// is refused, and only behind that where the filter does not compile.
pub open spec fn preparation_failure(options: OptionsView) -> Option<DoneView> {
    let n = first_refused(options.vars, 0);
    if n < options.vars.len() {
        match variable_reading(options.vars[n]) {
            Err(message) => Some(DoneView { exit_code: 2, stderr: message }),
            Ok(_) => None,
        }
    } else {
        match compile_failure(options.filter, variable_names(options.vars)) {
            Some(message) => Some(error_done(ErrorView::Compile(message))),
            None => None,
        }
    }
}

/// Makes a run ready: gives the values of the variables, once it is known that the filter
/// compiles with them.
pub fn prepare_run(options: &JqOptions) -> (r: Result<Vec<Val>, JqRunDone>)
    ensures
        match preparation_failure(options@) {
            Some(done) => r matches Err(d) && d@ == done,
            None => {
                &&& r matches Ok(values)
                &&& values@.len() == options@.vars.len()
                &&& forall|i: int|
                    0 <= i < values@.len() ==> variable_reading(#[trigger] options@.vars[i])
                        == Ok::<Val, Seq<char>>(values@[i])
            },
        },
{
    let values = match parse_variables(&options.vars) {
        Ok(values) => values,
        Err(stderr) => {
            return Err(JqRunDone { exit_code: 2, stderr });
        },
    };
    let names = names_of(&options.vars);
    match compile_with_vars(options.filter.as_str(), &names) {
        Ok(()) => Ok(values),
        Err(err) => Err(jq_error_outcome(&err)),
    }
}

// ---- inputs ----

/// What is read for `jq`: a file, or `-` for what comes in.
#[derive(Debug, PartialEq, Eq)]
pub struct JqInputSource {
    pub path: String,
    pub data: Vec<u8>,
}

/// Why the inputs of `jq` could not be read.
#[derive(Debug, PartialEq, Eq)]
pub enum JqInputError {
    Vfs { path: String, err: VfsError },
    JsonDepth { path: String },
    JsonKey { path: String },
    TooLarge { path: String },
    Read { path: String, cause: StreamError },
}

/// What is said when the inputs of `jq` could not be read.
pub open spec fn input_error_text(err: JqInputError) -> Seq<char> {
    match err {
        JqInputError::Vfs { path, err } => builtins::vfs_error_text("jq"@, path@, err.errno),
        JqInputError::JsonDepth { path } => "jq: "@ + path@ + ": "@ + bounds::depth_message()
            + "\n"@,
        JqInputError::JsonKey { path } => "jq: "@ + path@ + ": "@ + bounds::key_message() + "\n"@,
        JqInputError::TooLarge { path } => "jq: "@ + path@
            + ": input too large for tinysandbox jq\n"@,
        JqInputError::Read { path, cause } => match builtins::stream_error_text(
            "jq"@,
            path@,
            cause,
        ) {
            Some(message) => message,
            None => "jq: read error\n"@,
        },
    }
}

pub fn input_error_message(err: &JqInputError) -> (r: String)
    ensures
        r@ == input_error_text(*err),
{
    match err {
        JqInputError::Vfs { path, err } => builtins::vfs_error_message("jq", path.as_str(), *err),
        JqInputError::JsonDepth { path } => text::concat5(
            "jq: ",
            path.as_str(),
            ": ",
            "JSON nesting exceeds maximum depth 1024",
            "\n",
        ),
        JqInputError::JsonKey { path } => text::concat5(
            "jq: ",
            path.as_str(),
            ": ",
            "JSON object keys cannot be arrays or objects beside numbers that are not whole",
            "\n",
        ),
        JqInputError::TooLarge { path } => text::concat3(
            "jq: ",
            path.as_str(),
            ": input too large for tinysandbox jq\n",
        ),
        JqInputError::Read { path, cause } => match builtins::report_stream_error(
            "jq",
            path.as_str(),
            *cause,
        ) {
            Some(message) => message,
            None => text::copy("jq: read error\n"),
        },
    }
}

/// Adds the bytes of a read to what one input has so far. All inputs together are limited.
pub fn take_input(total: usize, limit: usize, input: &mut Vec<u8>, chunk: &[u8]) -> (r: Option<
    usize,
>)
    ensures
        if total + chunk@.len() <= limit {
            r == Some((total + chunk@.len()) as usize) && final(input)@ == old(input)@ + chunk@
        } else {
            r is None && final(input)@ == old(input)@
        },
{
    if total > limit || chunk.len() > limit - total {
        return None;
    }
    bytes::extend(input, chunk);
    Some(total + chunk.len())
}

/// Checks an input that was read as a whole.
pub fn push_jq_input(inputs: &mut Vec<JqInputSource>, path: String, data: Vec<u8>) -> (r: Result<
    (),
    JqInputError,
>)
    ensures
        if bounds::nests_too_deep(data@) {
            (r matches Err(JqInputError::JsonDepth { path: p }) && p@ == path@) && final(inputs)@
                == old(inputs)@
        } else if bounds::has_unordered_key(data@) {
            (r matches Err(JqInputError::JsonKey { path: p }) && p@ == path@) && final(inputs)@
                == old(inputs)@
        } else {
            r is Ok && final(inputs)@ == old(inputs)@.push(JqInputSource { path, data })
        },
{
    match bounds::validate_jq_json_nesting(data.as_slice()) {
        Err(_) => Err(JqInputError::JsonDepth { path }),
        Ok(()) => match bounds::validate_jq_json_keys(data.as_slice()) {
            Err(_) => Err(JqInputError::JsonKey { path }),
            Ok(()) => {
                inputs.push(JqInputSource { path, data });
                Ok(())
            },
        },
    }
}

/// The files that `jq` reads: what comes in where none are given.
pub fn input_paths(options: &JqOptions) -> (r: Vec<String>)
    ensures
        text::texts(r@) == (if options@.null_input {
            Seq::empty()
        } else if options@.files.len() == 0 {
            seq!["-"@]
        } else {
            options@.files
        }),
{
    let mut r: Vec<String> = Vec::new();
    if options.null_input {
        proof {
            assert(text::texts(r@) =~= Seq::empty());
        }
        return r;
    }
    if options.files.len() == 0 {
        r.push(text::copy("-"));
        proof {
            assert(text::texts(r@) =~= seq!["-"@]);
        }
        return r;
    }
    crate::jq::options::rest_of(&options.files, 0)
}

/// Whether every input may be handed to the parser.
pub open spec fn sources_allowed(sources: Seq<JqInputSource>) -> bool {
    forall|i: int|
        0 <= i < sources.len() ==> bounds::json_fault((#[trigger] sources[i]).data@) is None
}

/// The first of the sources from `i` on that is not JSON throughout, or their number.
pub open spec fn first_invalid(sources: Seq<JqInputSource>, i: int) -> int
    decreases sources.len() - i,
{
    if 0 <= i < sources.len() && json_reading(sources[i].data@).1 is None {
        first_invalid(sources, i + 1)
    } else {
        i
    }
}

/// The values in the first `n` sources.
pub open spec fn values_in(sources: Seq<JqInputSource>, n: int) -> Seq<Val>
    decreases n,
{
    if n <= 0 {
        Seq::empty()
    } else {
        values_in(sources, n - 1) + json_reading(sources[n - 1].data@).0
    }
}

/// How a failure that comes with the values is reported.
pub open spec fn reading_failure(sources: Seq<JqInputSource>) -> Option<DoneView> {
    let n = first_invalid(sources, 0);
    if n < sources.len() {
        match json_reading(sources[n].data@).1 {
            Some(message) => Some(parse_error_done(sources[n].path@, message)),
            None => None,
        }
    } else {
        None
    }
}

/// The values before the first failure.
pub open spec fn values_read(sources: Seq<JqInputSource>) -> Seq<Val> {
    let n = first_invalid(sources, 0);
    if n < sources.len() {
        values_in(sources, n + 1)
    } else {
        values_in(sources, n)
    }
}

pub open spec fn done_view(done: Option<JqRunDone>) -> Option<DoneView> {
    match done {
        Some(done) => Some(done@),
        None => None,
    }
}

/// Reads the values of all sources, in order, up to the first failure.
pub fn read_values(sources: &Vec<JqInputSource>) -> (r: (Vec<Val>, Option<JqRunDone>))
    requires
        sources_allowed(sources@),
    ensures
        r.0@ == values_read(sources@),
        done_view(r.1) == reading_failure(sources@),
{
    let mut values: Vec<Val> = Vec::new();
    let mut i: usize = 0;
    while i < sources.len()
        invariant
            i <= sources@.len(),
            sources_allowed(sources@),
            first_invalid(sources@, 0) == first_invalid(sources@, i as int),
            values@ == values_in(sources@, i as int),
        decreases sources@.len() - i,
    {
        let (mut more, failure) = parse_values(sources[i].data.as_slice());
        values.append(&mut more);
        match failure {
            Some(message) => {
                let done = jq_parse_error_outcome(sources[i].path.as_str(), message.as_str());
                return (values, Some(done));
            },
            None => {},
        }
        i = i + 1;
    }
    (values, None)
}

/// What a filter is run on.
pub enum JqInputs {
    /// Once, on `null`.
    Null,
    /// Once, on all values as one array.
    Slurped(Vec<Val>),
    /// On each value; a failure to read comes after those before it.
    Each(Vec<Val>, Option<JqRunDone>),
    /// Not at all.
    Refused(JqRunDone),
}

/// Decides what a filter is run on.
pub fn plan_inputs(options: &JqOptions, sources: &Vec<JqInputSource>) -> (r: JqInputs)
    requires
        sources_allowed(sources@),
    ensures
        if options.null_input {
            r is Null
        } else if options.slurp {
            match reading_failure(sources@) {
                Some(done) => r matches JqInputs::Refused(d) && d@ == done,
                None => r matches JqInputs::Slurped(values) && values@ == values_read(sources@),
            }
        } else {
            r matches JqInputs::Each(values, failure) && values@ == values_read(sources@)
                && done_view(failure) == reading_failure(sources@)
        },
{
    if options.null_input {
        return JqInputs::Null;
    }
    let (values, failure) = read_values(sources);
    if !options.slurp {
        return JqInputs::Each(values, failure);
    }
    match failure {
        Some(done) => JqInputs::Refused(done),
        None => JqInputs::Slurped(values),
    }
}

// ---- outputs ----

/// Whether a value counts as true.
pub open spec fn truthy(value: ValueView) -> bool {
    !(value is Null) && value != ValueView::Bool(false)
}

pub fn jq_truthy(value: &JqValue) -> (r: bool)
    ensures
        r == truthy(value@),
{
    match value {
        JqValue::Null => false,
        JqValue::Bool(b) => *b,
        _ => true,
    }
}

/// The status of `jq`: with `-e` it tells of the last output.
pub open spec fn exit_code(exit_status: bool, last_output: Option<bool>) -> i32 {
    if !exit_status {
        0
    } else {
        match last_output {
            Some(true) => 0,
            Some(false) => 1,
            None => 4,
        }
    }
}

pub fn jq_exit_code(exit_status: bool, last_output: Option<bool>) -> (r: i32)
    ensures
        r == exit_code(exit_status, last_output),
{
    if !exit_status {
        return 0;
    }
    match last_output {
        Some(true) => 0,
        Some(false) => 1,
        None => 4,
    }
}

/// How values are printed with these options.
pub open spec fn style_of(options: OptionsView) -> StyleView {
    StyleView {
        indent: if options.compact_output {
            None
        } else {
            Some(options.indent)
        },
        sort_keys: options.sort_keys,
        sep_space: !options.compact_output,
    }
}

pub fn print_style(options: &JqOptions) -> (r: PrintStyle)
    ensures
        r@ == style_of(options@),
{
    let indent = if options.compact_output {
        None
    } else {
        Some(options.indent.clone())
    };
    PrintStyle { indent, sort_keys: options.sort_keys, sep_space: !options.compact_output }
}

/// The bytes that stand for an output: with `-r` a text is printed as it is, and without `-j` a
/// newline follows.
pub open spec fn output_bytes(value: ValueView, printed: Seq<u8>, options: OptionsView) -> Seq<u8> {
    let body = match value {
        ValueView::Text(bytes) => if options.raw_output {
            bytes
        } else {
            printed
        },
        _ => printed,
    };
    if options.join_output {
        body
    } else {
        body.push(10u8)
    }
}

pub fn format_value(value: &JqValue, printed: &Vec<u8>, options: &JqOptions) -> (r: Vec<u8>)
    ensures
        r@ == output_bytes(value@, printed@, options@),
{
    let mut out = match value {
        JqValue::Text(text) => {
            if options.raw_output {
                bytes::copy(text.as_slice())
            } else {
                bytes::copy(printed.as_slice())
            }
        },
        _ => bytes::copy(printed.as_slice()),
    };
    if !options.join_output {
        out.push(10u8);
    }
    out
}

/// What is written for an output, or what is said of the error if it cannot be printed.
pub open spec fn output_of(value: Val, options: OptionsView) -> Result<Seq<u8>, Seq<char>> {
    let kind = value_kind(value);
    if kind is Text && options.raw_output {
        Ok(output_bytes(kind, Seq::empty(), options))
    } else {
        match print_fault(value, options.sort_keys) {
            Some(message) => Err(message),
            None => match printed_value(value, style_of(options)) {
                Ok(printed) => Ok(output_bytes(kind, printed, options)),
                Err(message) => Err(message),
            },
        }
    }
}

/// How `jq` ends when an output cannot be printed.
pub open spec fn output_error_done(message: Seq<char>) -> DoneView {
    DoneView { exit_code: 5, stderr: "jq: output error: "@ + message + "\n"@ }
}

pub fn jq_output_error_outcome(message: &str) -> (r: JqRunDone)
    ensures
        r@ == output_error_done(message@),
{
    JqRunDone { exit_code: 5, stderr: text::concat3("jq: output error: ", message, "\n") }
}

/// The outputs of a filter so far, as far as the status depends on them.
#[derive(Debug, Clone, Copy, PartialEq, Eq, Structural)]
pub struct JqRun {
    pub last_output: Option<bool>,
}

impl JqRun {
    pub fn new() -> (r: Self)
        ensures
            r.last_output is None,
    {
        JqRun { last_output: None }
    }

    /// Takes note of an output of a known kind.
    pub fn note(&mut self, value: &JqValue)
        ensures
            final(self).last_output == Some(truthy(value@)),
    {
        self.last_output = Some(jq_truthy(value));
    }

    /// Takes an output: the bytes to write, or how `jq` ends because it cannot be printed.
    pub fn output(&mut self, value: &Val, options: &JqOptions) -> (r: Result<Vec<u8>, JqRunDone>)
        ensures
            final(self).last_output == Some(truthy(value_kind(*value))),
            match output_of(*value, options@) {
                Ok(written) => r matches Ok(bytes) && bytes@ == written,
                Err(message) => r matches Err(done) && done@ == output_error_done(message),
            },
    {
        let kind = kind_of(value);
        self.note(&kind);
        let as_it_is = match &kind {
            JqValue::Text(_) => options.raw_output,
            _ => false,
        };
        if as_it_is {
            return Ok(format_value(&kind, &Vec::new(), options));
        }
        let style = print_style(options);
        match check_printable(value, options.sort_keys) {
            Ok(()) => {},
            Err(message) => {
                return Err(jq_output_error_outcome(message));
            },
        }
        match print_value(value, &style) {
            Ok(printed) => Ok(format_value(&kind, &printed, options)),
            Err(message) => Err(jq_output_error_outcome(message.as_str())),
        }
    }

    /// How `jq` ends when all inputs were run.
    pub fn finish(&self, options: &JqOptions) -> (r: JqRunDone)
        ensures
            r@ == (DoneView {
                exit_code: exit_code(options@.exit_status, self.last_output),
                stderr: Seq::empty(),
            }),
    {
        let r = JqRunDone {
            exit_code: jq_exit_code(options.exit_status, self.last_output),
            stderr: String::new(),
        };
        proof {
            assert(r.stderr@ =~= Seq::<char>::empty());
        }
        r
    }
}

/// An output is followed by a newline unless outputs are joined, and a text is printed as it is
/// where that is asked for; nothing else changes what is printed.
pub proof fn law_outputs_are_printed_in_turn(
    value: ValueView,
    printed: Seq<u8>,
    options: OptionsView,
)
    ensures
        ({
            let joined = OptionsView { join_output: true, ..options };
            let apart = OptionsView { join_output: false, ..options };
            &&& output_bytes(value, printed, apart) == output_bytes(value, printed, joined).push(
                0x0a,
            )
            &&& !(value is Text) || !options.raw_output ==> output_bytes(value, printed, joined)
                == printed
            &&& value is Text && options.raw_output ==> output_bytes(value, printed, joined)
                == value->Text_0
        }),
{
}

/// With `-e` the status is zero exactly where the last output counts as true, and without it always.
/// Everything but `null` and `false` counts as true.
pub proof fn law_the_status_tells_of_the_last_output(value: ValueView)
    ensures
        exit_code(false, Some(truthy(value))) == 0,
        exit_code(false, None) == 0,
        exit_code(true, Some(truthy(value))) == 0 <==> value != ValueView::Null && value
            != ValueView::Bool(false),
        exit_code(true, Some(false)) == 1,
        exit_code(true, None) == 4,
{
}

/// The values of the inputs come in the order of the inputs: those of two rows of inputs are those
/// of the first and then those of the second.
pub proof fn law_inputs_are_read_in_turn(a: Seq<JqInputSource>, b: Seq<JqInputSource>)
    ensures
        values_in(a + b, (a + b).len() as int) == values_in(a, a.len() as int) + values_in(
            b,
            b.len() as int,
        ),
        a.len() == 1 ==> values_in(a, 1) == json_reading(a[0].data@).0,
{
    lemma_values_in(a, b, b.len() as int);
    if a.len() == 1 {
        reveal_with_fuel(values_in, 2);
        assert(Seq::<Val>::empty() + json_reading(a[0].data@).0 =~= json_reading(a[0].data@).0);
    }
}

proof fn lemma_values_front(a: Seq<JqInputSource>, b: Seq<JqInputSource>, n: int)
    requires
        0 <= n <= a.len(),
    ensures
        values_in(a + b, n) == values_in(a, n),
    decreases n,
{
    if n > 0 {
        lemma_values_front(a, b, n - 1);
        assert((a + b)[n - 1] == a[n - 1]);
    }
}

proof fn lemma_values_in(a: Seq<JqInputSource>, b: Seq<JqInputSource>, n: int)
    requires
        0 <= n <= b.len(),
    ensures
        values_in(a + b, a.len() + n) == values_in(a, a.len() as int) + values_in(b, n),
    decreases n,
{
    let front = values_in(a, a.len() as int);
    if n == 0 {
        lemma_values_front(a, b, a.len() as int);
        assert(front + values_in(b, 0) =~= front);
    } else {
        lemma_values_in(a, b, n - 1);
        assert((a + b)[a.len() + n - 1] == b[n - 1]);
        let own = json_reading(b[n - 1].data@).0;
        assert((front + values_in(b, n - 1)) + own =~= front + (values_in(b, n - 1) + own));
    }
}

/// The first input that is not JSON is the one that is reported: all before it are read whole, and
/// none behind it is read.
pub proof fn law_the_first_invalid_input_is_reported(sources: Seq<JqInputSource>)
    ensures
        ({
            let n = first_invalid(sources, 0);
            &&& 0 <= n <= sources.len()
            &&& forall|i: int|
                0 <= i < n ==> json_reading((#[trigger] sources[i]).data@).1 is None
            &&& n < sources.len() ==> json_reading(sources[n].data@).1 is Some
            &&& reading_failure(sources) is Some <==> n < sources.len()
            &&& n == sources.len() ==> values_read(sources) == values_in(sources, n)
            &&& n < sources.len() ==> values_read(sources) == values_in(sources, n) + json_reading(
                sources[n].data@,
            ).0
        }),
{
    lemma_first_invalid(sources, 0);
}

proof fn lemma_first_invalid(sources: Seq<JqInputSource>, i: int)
    requires
        0 <= i <= sources.len(),
    ensures
        ({
            let n = first_invalid(sources, i);
            &&& i <= n <= sources.len()
            &&& forall|k: int|
                i <= k < n ==> json_reading((#[trigger] sources[k]).data@).1 is None
            &&& n < sources.len() ==> json_reading(sources[n].data@).1 is Some
        }),
    decreases sources.len() - i,
{
    if i < sources.len() && json_reading(sources[i].data@).1 is None {
        lemma_first_invalid(sources, i + 1);
    }
}

/// A name is shown without the dollar signs before it.
pub proof fn law_names_are_shown_without_dollars(name: Seq<char>)
    requires
        name.len() == 0 || name[0] != '$',
    ensures
        undollared(seq!['$'] + name, 0) == name,
        undollared(name, 0) == name,
{
    reveal_with_fuel(undollared, 2);
    let whole = seq!['$'] + name;
    assert(whole.skip(1) =~= name);
    if name.len() > 0 {
        assert(whole[1] == name[0]);
    }
    assert(name.skip(0) =~= name);
}

/// Compact output has neither indentation nor spaces behind separators; other output has both.
pub proof fn law_compact_output_has_no_blanks(options: OptionsView)
    ensures
        options.compact_output ==> style_of(options).indent is None && !style_of(options).sep_space,
        !options.compact_output ==> style_of(options).indent == Some(options.indent)
            && style_of(options).sep_space,
        style_of(options).sort_keys == options.sort_keys,
{
}

} // verus!
