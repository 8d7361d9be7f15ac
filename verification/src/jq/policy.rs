//! Which filters are accepted: those that define no filters of their own.

use jaq_core::load::lex::StrPart;
use jaq_core::load::parse::{BinaryOp, Def, Pattern, Term};
use jaq_core::ops::{Cmp, Math};
use jaq_core::path::{Opt, Part, Path};
use vstd::prelude::*;

use crate::jq::bounds;

verus! {

// ---- the terms of the filter engine ----

/// A term of a filter.
#[verifier::external_type_specification]
pub struct ExTerm<S>(Term<S>);

/// A pattern that binds variables.
#[verifier::external_type_specification]
pub struct ExPattern<S>(Pattern<S>);

/// An operator between two terms.
#[verifier::external_type_specification]
pub struct ExBinaryOp<S>(BinaryOp<S>);

/// A piece of a text, which may be an interpolated term.
#[verifier::external_type_specification]
pub struct ExStrPart<S, T>(StrPart<S, T>);

/// The definition of a filter.
#[verifier::external_type_specification]
pub struct ExDef<S, F>(Def<S, F>);

/// A path into a value.
#[verifier::external_type_specification]
pub struct ExPath<F>(Path<F>);

/// A part of a path.
#[verifier::external_type_specification]
pub struct ExPart<I>(Part<I>);

/// Whether a part of a path may fail.
#[verifier::external_type_specification]
#[verifier::external_body]
pub struct ExOpt(Opt);

/// An arithmetic operator.
#[verifier::external_type_specification]
#[verifier::external_body]
pub struct ExMath(Math);

/// A comparison operator.
#[verifier::external_type_specification]
#[verifier::external_body]
pub struct ExCmp(Cmp);

/// The term that `jaq_core::load::parse` reads from a filter, if there is one.
pub uninterp spec fn parsed_term(filter: Seq<char>) -> Option<Term<&'static str>>;

/// Reads the term that a filter is with `jaq_core::load::parse` and `Parser::term`; there is none
/// where the filter does not parse. Which term it is depends on the filter alone. The lexer and the
/// parser recurse on the filter, so its source must be bounded; the thread that parses needs a
/// stack for as many calls.
#[verifier::external_body]
fn parse_term<'a>(filter: &'a str) -> (r: Option<Term<&'a str>>)
    requires
        bounds::filter_fault(filter@) is None,
    ensures
        r == parsed_term(filter@),
{
    jaq_core::load::parse(filter, |parser| parser.term())
}

// ---- what they define ----

/// Whether a filter is defined anywhere in a term.
pub open spec fn defines(term: Term<&str>) -> bool
    decreases term,
{
    match term {
        Term::Id => false,
        Term::Recurse => false,
        Term::Num(_) => false,
        Term::Break(_) => false,
        Term::Var(_) => false,
        Term::Def(_, _) => true,
        Term::Str(_, pieces) => exists|i: int|
            0 <= i < pieces@.len() && (match #[trigger] pieces@[i] {
                StrPart::Term(inner) => defines(inner),
                _ => false,
            }),
        Term::Call(_, args) => terms_define(args@),
        Term::Arr(None) => false,
        Term::Arr(Some(inner)) => defines(*inner),
        Term::Obj(entries) => exists|i: int|
            0 <= i < entries@.len() && (defines((#[trigger] entries@[i]).0) || (match entries@[i].1 {
                Some(value) => defines(value),
                None => false,
            })),
        Term::Neg(inner) => defines(*inner),
        Term::Label(_, inner) => defines(*inner),
        Term::BinOp(left, op, right) => defines(*left) || op_defines(op) || defines(*right),
        Term::Fold(_, input, pattern, args) => defines(*input) || pattern_defines(pattern)
            || terms_define(args@),
        Term::TryCatch(body, None) => defines(*body),
        Term::TryCatch(body, Some(handler)) => defines(*body) || defines(*handler),
        Term::IfThenElse(branches, fallback) => (exists|i: int|
            0 <= i < branches@.len() && (defines((#[trigger] branches@[i]).0) || defines(
                branches@[i].1,
            ))) || (match fallback {
            Some(inner) => defines(*inner),
            None => false,
        }),
        Term::Path(head, path) => defines(*head) || parts_define(path.0@),
    }
}

/// Whether a filter is defined anywhere in some terms.
pub open spec fn terms_define(terms: Seq<Term<&str>>) -> bool
    decreases terms,
{
    exists|i: int| 0 <= i < terms.len() && defines(#[trigger] terms[i])
}

/// Whether a filter is defined anywhere in an operator: `as` binds a pattern.
pub open spec fn op_defines(op: BinaryOp<&str>) -> bool
    decreases op,
{
    match op {
        BinaryOp::Pipe(Some(pattern)) => pattern_defines(pattern),
        _ => false,
    }
}

/// Whether a filter is defined anywhere in a pattern.
pub open spec fn pattern_defines(pattern: Pattern<&str>) -> bool
    decreases pattern,
{
    match pattern {
        Pattern::Var(_) => false,
        Pattern::Arr(patterns) => exists|i: int|
            0 <= i < patterns@.len() && pattern_defines(#[trigger] patterns@[i]),
        Pattern::Obj(entries) => exists|i: int|
            0 <= i < entries@.len() && (defines((#[trigger] entries@[i]).0) || pattern_defines(
                entries@[i].1,
            )),
    }
}

/// Whether a filter is defined anywhere in a part of a path.
pub open spec fn part_defines(part: Part<Term<&str>>) -> bool
    decreases part,
{
    match part {
        Part::Index(term) => defines(term),
        Part::Range(from, to) => (match from {
            Some(term) => defines(term),
            None => false,
        }) || (match to {
            Some(term) => defines(term),
            None => false,
        }),
    }
}

/// Whether a filter is defined anywhere in the parts of a path.
pub open spec fn parts_define(parts: Seq<(Part<Term<&str>>, Opt)>) -> bool
    decreases parts,
{
    exists|i: int| 0 <= i < parts.len() && part_defines((#[trigger] parts[i]).0)
}

fn any_defines(terms: &Vec<Term<&str>>) -> (r: bool)
    ensures
        r == terms_define(terms@),
    decreases terms,
{
    let mut i: usize = 0;
    while i < terms.len()
        invariant
            i <= terms@.len(),
            forall|j: int| 0 <= j < i ==> !defines(#[trigger] terms@[j]),
        decreases terms@.len() - i,
    {
        if term_contains_user_def(&terms[i]) {
            return true;
        }
        i = i + 1;
    }
    false
}

/// Whether a term defines a filter anywhere in it.
pub fn term_contains_user_def(term: &Term<&str>) -> (r: bool)
    ensures
        r == defines(*term),
    decreases term,
{
    match term {
        Term::Id => false,
        Term::Recurse => false,
        Term::Num(_) => false,
        Term::Break(_) => false,
        Term::Var(_) => false,
        Term::Def(_, _) => true,
        Term::Str(_, pieces) => pieces_define(pieces),
        Term::Call(_, args) => any_defines(args),
        Term::Arr(None) => false,
        Term::Arr(Some(inner)) => term_contains_user_def(inner),
        Term::Obj(entries) => entries_define(entries),
        Term::Neg(inner) => term_contains_user_def(inner),
        Term::Label(_, inner) => term_contains_user_def(inner),
        Term::BinOp(left, op, right) => term_contains_user_def(left)
            || binary_op_contains_user_def(op) || term_contains_user_def(right),
        Term::Fold(_, input, pattern, args) => term_contains_user_def(input)
            || pattern_contains_user_def(pattern) || any_defines(args),
        Term::TryCatch(body, None) => term_contains_user_def(body),
        Term::TryCatch(body, Some(handler)) => term_contains_user_def(body)
            || term_contains_user_def(handler),
        Term::IfThenElse(branches, None) => branches_define(branches),
        Term::IfThenElse(branches, Some(fallback)) => branches_define(branches)
            || term_contains_user_def(fallback),
        Term::Path(head, path) => term_contains_user_def(head) || path_contains_user_def(path),
    }
}

fn pieces_define(pieces: &Vec<StrPart<&str, Term<&str>>>) -> (r: bool)
    ensures
        r == (exists|i: int|
            0 <= i < pieces@.len() && (match #[trigger] pieces@[i] {
                StrPart::Term(inner) => defines(inner),
                _ => false,
            })),
    decreases pieces,
{
    let mut i: usize = 0;
    while i < pieces.len()
        invariant
            i <= pieces@.len(),
            forall|j: int|
                0 <= j < i ==> !(match #[trigger] pieces@[j] {
                    StrPart::Term(inner) => defines(inner),
                    _ => false,
                }),
        decreases pieces@.len() - i,
    {
        match &pieces[i] {
            StrPart::Term(inner) => {
                if term_contains_user_def(inner) {
                    return true;
                }
            },
            _ => {},
        }
        i = i + 1;
    }
    false
}

/// Whether an operator defines a filter anywhere in it.
pub fn binary_op_contains_user_def(op: &BinaryOp<&str>) -> (r: bool)
    ensures
        r == op_defines(*op),
    decreases op,
{
    match op {
        BinaryOp::Pipe(Some(pattern)) => pattern_contains_user_def(pattern),
        _ => false,
    }
}

fn entries_define(entries: &Vec<(Term<&str>, Option<Term<&str>>)>) -> (r: bool)
    ensures
        r == (exists|i: int|
            0 <= i < entries@.len() && (defines((#[trigger] entries@[i]).0) || (match entries@[i].1 {
                Some(value) => defines(value),
                None => false,
            }))),
    decreases entries,
{
    let mut i: usize = 0;
    while i < entries.len()
        invariant
            i <= entries@.len(),
            forall|j: int|
                0 <= j < i ==> !(defines((#[trigger] entries@[j]).0) || (match entries@[j].1 {
                    Some(value) => defines(value),
                    None => false,
                })),
        decreases entries@.len() - i,
    {
        let entry = &entries[i];
        if term_contains_user_def(&entry.0) {
            return true;
        }
        match &entry.1 {
            Some(value) => {
                if term_contains_user_def(value) {
                    return true;
                }
            },
            None => {},
        }
        i = i + 1;
    }
    false
}

fn branches_define(branches: &Vec<(Term<&str>, Term<&str>)>) -> (r: bool)
    ensures
        r == (exists|i: int|
            0 <= i < branches@.len() && (defines((#[trigger] branches@[i]).0) || defines(
                branches@[i].1,
            ))),
    decreases branches,
{
    let mut i: usize = 0;
    while i < branches.len()
        invariant
            i <= branches@.len(),
            forall|j: int|
                0 <= j < i ==> !(defines((#[trigger] branches@[j]).0) || defines(branches@[j].1)),
        decreases branches@.len() - i,
    {
        if term_contains_user_def(&branches[i].0) || term_contains_user_def(&branches[i].1) {
            return true;
        }
        i = i + 1;
    }
    false
}

fn patterns_define_any(patterns: &Vec<Pattern<&str>>) -> (r: bool)
    ensures
        r == (exists|i: int| 0 <= i < patterns@.len() && pattern_defines(#[trigger] patterns@[i])),
    decreases patterns,
{
    let mut i: usize = 0;
    while i < patterns.len()
        invariant
            i <= patterns@.len(),
            forall|j: int| 0 <= j < i ==> !pattern_defines(#[trigger] patterns@[j]),
        decreases patterns@.len() - i,
    {
        if pattern_contains_user_def(&patterns[i]) {
            return true;
        }
        i = i + 1;
    }
    false
}

fn fields_define(entries: &Vec<(Term<&str>, Pattern<&str>)>) -> (r: bool)
    ensures
        r == (exists|i: int|
            0 <= i < entries@.len() && (defines((#[trigger] entries@[i]).0) || pattern_defines(
                entries@[i].1,
            ))),
    decreases entries,
{
    let mut i: usize = 0;
    while i < entries.len()
        invariant
            i <= entries@.len(),
            forall|j: int|
                0 <= j < i ==> !(defines((#[trigger] entries@[j]).0) || pattern_defines(
                    entries@[j].1,
                )),
        decreases entries@.len() - i,
    {
        if term_contains_user_def(&entries[i].0) || pattern_contains_user_def(&entries[i].1) {
            return true;
        }
        i = i + 1;
    }
    false
}

/// Whether a pattern defines a filter anywhere in it.
pub fn pattern_contains_user_def(pattern: &Pattern<&str>) -> (r: bool)
    ensures
        r == pattern_defines(*pattern),
    decreases pattern,
{
    match pattern {
        Pattern::Var(_) => false,
        Pattern::Arr(patterns) => patterns_define_any(patterns),
        Pattern::Obj(entries) => fields_define(entries),
    }
}

/// Whether a path defines a filter anywhere in it.
pub fn path_contains_user_def(path: &Path<Term<&str>>) -> (r: bool)
    ensures
        r == parts_define(path.0@),
    decreases path,
{
    let parts = &path.0;
    let mut i: usize = 0;
    while i < parts.len()
        invariant
            i <= parts@.len(),
            parts == path.0,
            forall|j: int| 0 <= j < i ==> !part_defines((#[trigger] parts@[j]).0),
        decreases parts@.len() - i,
    {
        match &parts[i].0 {
            Part::Index(term) => {
                if term_contains_user_def(term) {
                    return true;
                }
            },
            Part::Range(from, to) => {
                match from {
                    Some(term) => {
                        if term_contains_user_def(term) {
                            return true;
                        }
                    },
                    None => {},
                }
                match to {
                    Some(term) => {
                        if term_contains_user_def(term) {
                            return true;
                        }
                    },
                    None => {},
                }
            },
        }
        i = i + 1;
    }
    false
}

/// Whether a filter defines filters of its own, as far as it parses.
pub open spec fn filter_defines(filter: Seq<char>) -> bool {
    match parsed_term(filter) {
        Some(term) => defines(term),
        None => false,
    }
}

/// Whether a filter whose source is bounded defines filters of its own.
pub fn filter_contains_user_def(filter: &str) -> (r: bool)
    requires
        bounds::filter_fault(filter@) is None,
    ensures
        r == filter_defines(filter@),
{
    match parse_term(filter) {
        Some(term) => term_contains_user_def(&term),
        None => false,
    }
}

} // verus!
