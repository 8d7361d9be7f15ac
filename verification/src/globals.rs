//! The host functions that are bound into the JavaScript global scope, by their dotted paths.

use vstd::prelude::*;

use crate::host::JsGlobalError;
use crate::order;
use crate::path;
use crate::text;
use crate::textmap;
use crate::textmap::TextMap;

verus! {

/// The names that the JavaScript runtime provides itself.
pub open spec fn reserved_names() -> Seq<Seq<char>> {
    seq![
        "Buffer"@,
        "Headers"@,
        "Response"@,
        "__dirname"@,
        "__filename"@,
        "console"@,
        "exports"@,
        "fetch"@,
        "globalThis"@,
        "module"@,
        "process"@,
        "require"@,
    ]
}

/// Whether a path is made of segments that could each name a shell variable.
pub open spec fn global_name(name: Seq<char>) -> bool {
    &&& name.len() > 0
    &&& forall|i: int|
        0 <= i < path::split(name, '.').len() ==> crate::shell::parse::assignment_name(
            #[trigger] path::split(name, '.')[i],
        )
}

/// The first segment of a path.
pub open spec fn root_of(name: Seq<char>) -> Seq<char> {
    path::split(name, '.')[0]
}

/// Whether a path lies in a namespace.
pub open spec fn inside(namespace: Seq<char>, name: Seq<char>) -> bool {
    text::starts_with(name, namespace + "."@)
}

/// Whether two paths cannot both be bound: they are the same, or one is a namespace of the other.
pub open spec fn conflict(a: Seq<char>, b: Seq<char>) -> bool {
    a == b || inside(a, b) || inside(b, a)
}

/// Whether a name is the first, in the order of names, that conflicts with another.
pub open spec fn is_first_conflict(
    names: Set<Seq<char>>,
    name: Seq<char>,
    other: Seq<char>,
) -> bool {
    &&& names.contains(other)
    &&& conflict(other, name)
    &&& forall|k: Seq<char>|
        #[trigger] names.contains(k) && conflict(k, name) ==> k == other || order::text_lt(other, k)
}

/// Whether a name conflicts with one of those that are bound.
pub open spec fn conflicts(names: Set<Seq<char>>, name: Seq<char>) -> bool {
    exists|k: Seq<char>| #[trigger] names.contains(k) && conflict(k, name)
}

pub open spec fn first_conflict(names: Set<Seq<char>>, name: Seq<char>) -> Seq<char> {
    choose|other: Seq<char>| is_first_conflict(names, name, other)
}

/// Why a name cannot be bound, if it cannot.
pub open spec fn name_refusal(name: Seq<char>) -> Option<Seq<char>> {
    if !global_name(name) {
        Some(
            "cannot register invalid name '"@ + name
                + "'; names are dot-separated paths of [A-Za-z_][A-Za-z0-9_]* segments"@,
        )
    } else if reserved_names().contains(root_of(name)) {
        Some(
            "cannot register reserved name '"@ + name + "'; '"@ + root_of(name)
                + "' is provided by the JavaScript runtime"@,
        )
    } else {
        None
    }
}

/// Whether one of the first `n` entries has a name.
pub open spec fn named_before<V>(
    entries: Seq<(Seq<char>, V)>,
    n: int,
    name: Seq<char>,
) -> bool {
    exists|j: int| 0 <= j < n && (#[trigger] entries[j]).0 == name
}

/// Why an entry cannot be added to what is bound, if it cannot.
pub open spec fn refusal<V>(
    bound: Map<Seq<char>, V>,
    entries: Seq<(Seq<char>, V)>,
    i: int,
) -> Option<Seq<char>> {
    let name = entries[i].0;
    let others = bound.remove(name).dom();
    match name_refusal(name) {
        Some(text) => Some(text),
        None => if named_before(entries, i, name) {
            Some("cannot register duplicate name '"@ + name + "'"@)
        } else if conflicts(others, name) {
            Some(
                "cannot register '"@ + name + "'; it conflicts with '"@ + first_conflict(
                    others,
                    name,
                ) + "'"@,
            )
        } else {
            None
        },
    }
}

/// What is bound when the entries from `i` on are added, or why they are refused.
pub open spec fn merged<V>(
    bound: Map<Seq<char>, V>,
    entries: Seq<(Seq<char>, V)>,
    i: int,
) -> Result<Map<Seq<char>, V>, Seq<char>>
    decreases entries.len() - i,
{
    if i < 0 || i >= entries.len() {
        Ok(bound)
    } else {
        match refusal(bound, entries, i) {
            Some(text) => Err(text),
            None => merged(bound.insert(entries[i].0, entries[i].1), entries, i + 1),
        }
    }
}

/// Whether no two of the names conflict.
pub open spec fn conflict_free(names: Set<Seq<char>>) -> bool {
    forall|a: Seq<char>, b: Seq<char>|
        #[trigger] names.contains(a) && #[trigger] names.contains(b) && a != b ==> !conflict(a, b)
}

/// Whether every name may be bound.
pub open spec fn all_allowed(names: Set<Seq<char>>) -> bool {
    forall|a: Seq<char>| #[trigger] names.contains(a) ==> name_refusal(a) is None
}

/// Two paths conflict whichever of them comes first.
pub proof fn law_conflict_is_symmetric(a: Seq<char>, b: Seq<char>)
    ensures
        conflict(a, b) == conflict(b, a),
{
}

/// What is bound after a change that was accepted is free of conflicts, if it was before.
pub proof fn law_merging_keeps_names_apart<V>(
    bound: Map<Seq<char>, V>,
    entries: Seq<(Seq<char>, V)>,
    i: int,
)
    requires
        0 <= i,
        conflict_free(bound.dom()),
        all_allowed(bound.dom()),
        merged(bound, entries, i) is Ok,
    ensures
        conflict_free(merged(bound, entries, i)->Ok_0.dom()),
        all_allowed(merged(bound, entries, i)->Ok_0.dom()),
    decreases entries.len() - i,
{
    if i < entries.len() {
        let name = entries[i].0;
        let next = bound.insert(name, entries[i].1);
        let others = bound.remove(name).dom();
        assert(conflict_free(next.dom())) by {
            assert forall|a: Seq<char>, b: Seq<char>|
                #[trigger] next.dom().contains(a) && #[trigger] next.dom().contains(b) && a
                    != b implies !conflict(a, b) by {
                if a == name {
                    assert(others.contains(b));
                } else if b == name {
                    assert(others.contains(a));
                } else {
                    assert(bound.dom().contains(a) && bound.dom().contains(b));
                }
            }
        }
        assert(all_allowed(next.dom())) by {
            assert forall|a: Seq<char>| #[trigger] next.dom().contains(a) implies name_refusal(
                a,
            ) is None by {
                if a != name {
                    assert(bound.dom().contains(a));
                }
            }
        }
        law_merging_keeps_names_apart(next, entries, i + 1);
    }
}

/// Whether the first `n` entries can be bound together: their names are allowed, and no two of
/// them are the same or one in the namespace of the other.
pub open spec fn acceptable<V>(entries: Seq<(Seq<char>, V)>, n: int) -> bool {
    &&& forall|i: int| 0 <= i < n ==> name_refusal((#[trigger] entries[i]).0) is None
    &&& forall|i: int, j: int|
        0 <= i < j < n ==> !conflict((#[trigger] entries[i]).0, (#[trigger] entries[j]).0)
}

/// Whether exactly the first `n` entries are bound.
pub open spec fn binds<V>(
    bound: Map<Seq<char>, V>,
    entries: Seq<(Seq<char>, V)>,
    n: int,
) -> bool {
    &&& forall|k: Seq<char>| #[trigger] bound.dom().contains(k) <==> named_before(entries, n, k)
    &&& forall|i: int|
        0 <= i < n ==> bound.dom().contains((#[trigger] entries[i]).0) && bound[entries[i].0]
            == entries[i].1
}

proof fn lemma_merged_from<V>(
    bound: Map<Seq<char>, V>,
    entries: Seq<(Seq<char>, V)>,
    i: int,
)
    requires
        0 <= i <= entries.len(),
        acceptable(entries, i),
        binds(bound, entries, i),
    ensures
        match merged(bound, entries, i) {
            Ok(all) => acceptable(entries, entries.len() as int) && binds(
                all,
                entries,
                entries.len() as int,
            ),
            Err(_) => !acceptable(entries, entries.len() as int),
        },
    decreases entries.len() - i,
{
    if i < entries.len() {
        let name = entries[i].0;
        let others = bound.remove(name).dom();
        let n = entries.len() as int;
        if refusal(bound, entries, i) is Some {
            if name_refusal(name) is None {
                if named_before(entries, i, name) {
                    let j = choose|j: int| 0 <= j < i && (#[trigger] entries[j]).0 == name;
                    assert(conflict(entries[j].0, entries[i].0));
                } else {
                    let k = choose|k: Seq<char>| #[trigger] others.contains(k) && conflict(k, name);
                    assert(bound.dom().contains(k));
                    let j = choose|j: int| 0 <= j < i && (#[trigger] entries[j]).0 == k;
                    assert(conflict(entries[j].0, entries[i].0));
                }
            }
        } else {
            let next = bound.insert(name, entries[i].1);
            assert(acceptable(entries, i + 1)) by {
                assert forall|a: int, b: int| 0 <= a < b < i + 1 implies !conflict(
                    (#[trigger] entries[a]).0,
                    (#[trigger] entries[b]).0,
                ) by {
                    if b == i {
                        assert(bound.dom().contains(entries[a].0));
                        assert(entries[a].0 != name) by {
                            if entries[a].0 == name {
                                assert(named_before(entries, i, name));
                            }
                        }
                        assert(others.contains(entries[a].0));
                    }
                }
            }
            assert(binds(next, entries, i + 1)) by {
                assert forall|k: Seq<char>| #[trigger]
                    next.dom().contains(k) <==> named_before(entries, i + 1, k) by {
                    if next.dom().contains(k) {
                        if k == name {
                            assert(entries[i].0 == k);
                        } else {
                            assert(bound.dom().contains(k));
                            let j = choose|j: int| 0 <= j < i && (#[trigger] entries[j]).0 == k;
                            assert(entries[j].0 == k);
                        }
                    }
                    if named_before(entries, i + 1, k) {
                        let j = choose|j: int| 0 <= j < i + 1 && (#[trigger] entries[j]).0 == k;
                        if j < i {
                            assert(bound.dom().contains(entries[j].0));
                        }
                    }
                }
                assert forall|j: int| 0 <= j < i + 1 implies next.dom().contains(
                    (#[trigger] entries[j]).0,
                ) && next[entries[j].0] == entries[j].1 by {
                    if j < i {
                        assert(entries[j].0 != name) by {
                            if entries[j].0 == name {
                                assert(named_before(entries, i, name));
                            }
                        }
                    }
                }
            }
            lemma_merged_from(next, entries, i + 1);
        }
    }
}

/// Replacing the globals is refused exactly where a name may not be bound, comes twice, or lies in
/// the namespace of another; else exactly the new ones are bound, whatever was bound before.
pub proof fn law_replaced_globals_are_the_new_ones<V>(entries: Seq<(Seq<char>, V)>)
    ensures
        match merged(Map::<Seq<char>, V>::empty(), entries, 0) {
            Ok(all) => acceptable(entries, entries.len() as int) && binds(
                all,
                entries,
                entries.len() as int,
            ),
            Err(_) => !acceptable(entries, entries.len() as int),
        },
{
    lemma_merged_from(Map::<Seq<char>, V>::empty(), entries, 0);
}

pub fn is_js_global_name(name: &str) -> (r: bool)
    ensures
        r == global_name(name@),
{
    if name.is_empty() {
        return false;
    }
    let segments = path::split_char(name, '.');
    let ghost all = path::split(name@, '.');
    let mut i: usize = 0;
    while i < segments.len()
        invariant
            i <= segments@.len(),
            all == path::split(name@, '.'),
            all == text::texts(segments@),
            forall|j: int|
                0 <= j < i ==> crate::shell::parse::assignment_name(#[trigger] all[j]),
        decreases segments@.len() - i,
    {
        proof {
            assert(all[i as int] == segments@[i as int]@);
        }
        if !crate::shell::parse::is_assignment_name(segments[i].as_str()) {
            return false;
        }
        i = i + 1;
    }
    true
}

fn is_reserved(root: &str) -> (r: bool)
    ensures
        r == reserved_names().contains(root@),
{
    let names: Vec<&'static str> = vec![
        "Buffer",
        "Headers",
        "Response",
        "__dirname",
        "__filename",
        "console",
        "exports",
        "fetch",
        "globalThis",
        "module",
        "process",
        "require",
    ];
    let ghost all = reserved_names();
    let mut i: usize = 0;
    while i < names.len()
        invariant
            i <= names@.len(),
            all == reserved_names(),
            all.len() == names@.len(),
            forall|j: int| 0 <= j < names@.len() ==> (#[trigger] names@[j])@ == all[j],
            forall|j: int| 0 <= j < i ==> #[trigger] all[j] != root@,
        decreases names@.len() - i,
    {
        if text::str_eq(names[i], root) {
            proof {
                assert(all[i as int] == root@);
            }
            return true;
        }
        i = i + 1;
    }
    false
}

/// Reports whether one global path is the other or a namespace of it, so that `tools` and
/// `tools.search` cannot both be registered.
pub fn paths_conflict(left: &str, right: &str) -> (r: bool)
    ensures
        r == conflict(left@, right@),
{
    let a = text::concat2(left, ".");
    let b = text::concat2(right, ".");
    text::str_eq(left, right) || text::has_prefix(right, a.as_str()) || text::has_prefix(
        left,
        b.as_str(),
    )
}

/// Checks that a name may be bound.
pub fn check_js_global_name(name: &str) -> (r: Result<(), JsGlobalError>)
    ensures
        match name_refusal(name@) {
            None => r is Ok,
            Some(text) => r matches Err(err) && err@ == text,
        },
{
    if !is_js_global_name(name) {
        let message = text::concat3(
            "cannot register invalid name '",
            name,
            "'; names are dot-separated paths of [A-Za-z_][A-Za-z0-9_]* segments",
        );
        return Err(JsGlobalError::new(message));
    }
    let segments = path::split_char(name, '.');
    proof {
        assert(root_of(name@) == segments@[0]@) by {
            path::lemma_split_not_empty(name@, '.');
            assert(text::texts(segments@)[0] == segments@[0]@);
        }
    }
    let root = segments[0].as_str();
    if is_reserved(root) {
        let message = text::concat5(
            "cannot register reserved name '",
            name,
            "'; '",
            root,
            "' is provided by the JavaScript runtime",
        );
        return Err(JsGlobalError::new(message));
    }
    Ok(())
}

proof fn lemma_first_conflict_is_unique(names: Set<Seq<char>>, name: Seq<char>, other: Seq<char>)
    requires
        is_first_conflict(names, name, other),
    ensures
        conflicts(names, name),
        first_conflict(names, name) == other,
{
    let chosen = first_conflict(names, name);
    assert(is_first_conflict(names, name, chosen));
    assert(names.contains(chosen) && names.contains(other));
    if chosen != other {
        order::law_text_order_is_transitive(chosen, other, chosen);
        order::law_text_order_is_irreflexive(chosen);
    }
}

/// The first of the names that conflicts with another, which is not one of them.
fn find_conflict<V>(bound: &TextMap<V>, name: &str) -> (r: Option<String>)
    requires
        !bound@.dom().contains(name@),
    ensures
        match r {
            None => !conflicts(bound@.dom(), name@),
            Some(other) => conflicts(bound@.dom(), name@) && other@ == first_conflict(
                bound@.dom(),
                name@,
            ),
        },
{
    let entries = bound.entries();
    let ghost p = bound.pairs();
    let mut i: usize = 0;
    while i < entries.len()
        invariant
            i <= entries@.len(),
            p == bound.pairs(),
            p == textmap::pairs_view(entries@),
            textmap::sorted_pairs(p),
            forall|j: int| 0 <= j < i ==> !conflict((#[trigger] p[j]).0, name@),
        decreases entries@.len() - i,
    {
        proof {
            assert(p[i as int].0 == entries@[i as int].0@);
        }
        if paths_conflict(entries[i].0.as_str(), name) {
            proof {
                let other = entries@[i as int].0@;
                textmap::lemma_pairs_map(p, i as int);
                assert forall|k: Seq<char>| #[trigger]
                    bound@.dom().contains(k) && conflict(k, name@) implies k == other
                    || order::text_lt(other, k) by {
                    let j = choose|j: int| 0 <= j < p.len() && (#[trigger] p[j]).0 == k;
                    if j > i {
                        assert(order::text_lt(p[i as int].0, p[j].0));
                    }
                }
                lemma_first_conflict_is_unique(bound@.dom(), name@, other);
            }
            return Some(entries[i].0.clone());
        }
        i = i + 1;
    }
    proof {
        assert forall|k: Seq<char>| #[trigger] bound@.dom().contains(k) implies !conflict(
            k,
            name@,
        ) by {
            let j = choose|j: int| 0 <= j < p.len() && (#[trigger] p[j]).0 == k;
            assert(!conflict(p[j].0, name@));
        }
    }
    None
}

fn named_earlier<V>(entries: &Vec<(String, V)>, n: usize, name: &str) -> (r: bool)
    requires
        n <= entries@.len(),
    ensures
        r == named_before(textmap::pairs_view(entries@), n as int, name@),
{
    let ghost p = textmap::pairs_view(entries@);
    let mut i: usize = 0;
    while i < n
        invariant
            i <= n <= entries@.len(),
            p == textmap::pairs_view(entries@),
            forall|j: int| 0 <= j < i ==> (#[trigger] p[j]).0 != name@,
        decreases n - i,
    {
        proof {
            assert(p[i as int].0 == entries@[i as int].0@);
        }
        if text::str_eq(entries[i].0.as_str(), name) {
            return true;
        }
        i = i + 1;
    }
    false
}

/// Adds entries to what is bound, and checks the result: a name that is bound already is
/// replaced, a name that is repeated among the entries is an error.
pub fn merge_js_globals<V: Copy>(bound: TextMap<V>, entries: &Vec<(String, V)>) -> (r: Result<
    TextMap<V>,
    JsGlobalError,
>)
    ensures
        match merged(bound@, textmap::pairs_view(entries@), 0) {
            Ok(all) => r matches Ok(map) && map@ == all,
            Err(text) => r matches Err(err) && err@ == text,
        },
{
    let ghost p = textmap::pairs_view(entries@);
    let ghost start = bound@;
    let mut all = bound;
    let mut i: usize = 0;
    while i < entries.len()
        invariant
            i <= entries@.len(),
            p == textmap::pairs_view(entries@),
            start == bound@,
            merged(all@, p, i as int) == merged(start, p, 0),
        decreases entries@.len() - i,
    {
        let name = entries[i].0.as_str();
        let ghost before = all@;
        proof {
            assert(p[i as int] == (name@, entries@[i as int].1));
        }
        match check_js_global_name(name) {
            Ok(()) => {},
            Err(err) => {
                return Err(err);
            },
        }
        if named_earlier(entries, i, name) {
            return Err(
                JsGlobalError::new(
                    text::concat3("cannot register duplicate name '", name, "'"),
                ),
            );
        }
        all.remove(name);
        match find_conflict(&all, name) {
            Some(other) => {
                return Err(
                    JsGlobalError::new(
                        text::concat5(
                            "cannot register '",
                            name,
                            "'; it conflicts with '",
                            other.as_str(),
                            "'",
                        ),
                    ),
                );
            },
            None => {},
        }
        all.insert(text::copy(name), entries[i].1);
        proof {
            assert(all@ =~= before.insert(name@, entries@[i as int].1));
        }
        i = i + 1;
    }
    Ok(all)
}

/// The host functions that are bound at present.
#[derive(Debug)]
pub struct JsGlobalRegistry<V> {
    bound: TextMap<V>,
}

impl<V> JsGlobalRegistry<V> {
    #[verifier::type_invariant]
    spec fn wf(self) -> bool {
        conflict_free(self.bound@.dom()) && all_allowed(self.bound@.dom())
    }

    pub closed spec fn view(&self) -> Map<Seq<char>, V> {
        self.bound@
    }
}

impl<V: Copy> JsGlobalRegistry<V> {
    pub fn new() -> (r: Self)
        ensures
            r@ == Map::<Seq<char>, V>::empty(),
    {
        JsGlobalRegistry { bound: TextMap::new() }
    }

    /// Adds a set of host globals to the ones already bound, replacing any that share an exact
    /// name and leaving the rest untouched. A set that is refused changes nothing.
    pub fn extend_js_globals(&mut self, entries: &Vec<(String, V)>) -> (r: Result<
        (),
        JsGlobalError,
    >)
        ensures
            match merged(old(self)@, textmap::pairs_view(entries@), 0) {
                Ok(all) => r is Ok && final(self)@ == all,
                Err(text) => (r matches Err(err) && err@ == text) && final(self)@ == old(self)@,
            },
    {
        proof {
            use_type_invariant(&*self);
        }
        let current = self.bound.copy();
        let ghost p = textmap::pairs_view(entries@);
        match merge_js_globals(current, entries) {
            Ok(next) => {
                proof {
                    law_merging_keeps_names_apart(self.bound@, p, 0);
                }
                *self = JsGlobalRegistry { bound: next };
                Ok(())
            },
            Err(err) => Err(err),
        }
    }

    /// Replaces every host global with the given set in one swap. A set that is refused changes
    /// nothing.
    pub fn replace_js_globals(&mut self, entries: &Vec<(String, V)>) -> (r: Result<
        (),
        JsGlobalError,
    >)
        ensures
            match merged(Map::<Seq<char>, V>::empty(), textmap::pairs_view(entries@), 0) {
                Ok(all) => r is Ok && final(self)@ == all,
                Err(text) => (r matches Err(err) && err@ == text) && final(self)@ == old(self)@,
            },
    {
        let mut next = JsGlobalRegistry::new();
        match next.extend_js_globals(entries) {
            Ok(()) => {
                *self = next;
                Ok(())
            },
            Err(err) => Err(err),
        }
    }

    /// Binds a host function at a dotted global path, replacing any global already registered
    /// under that exact name.
    pub fn set_js_global(&mut self, name: &str, global: V) -> (r: Result<(), JsGlobalError>)
        ensures
            match merged(old(self)@, seq![(name@, global)], 0) {
                Ok(all) => r is Ok && final(self)@ == all,
                Err(text) => (r matches Err(err) && err@ == text) && final(self)@ == old(self)@,
            },
    {
        let mut entries: Vec<(String, V)> = Vec::new();
        entries.push((text::copy(name), global));
        proof {
            assert(textmap::pairs_view(entries@) =~= seq![(name@, global)]);
        }
        self.extend_js_globals(&entries)
    }

    /// Removes a host global, reporting whether it was registered.
    pub fn remove_js_global(&mut self, name: &str) -> (r: bool)
        ensures
            r == old(self)@.dom().contains(name@),
            final(self)@ == old(self)@.remove(name@),
    {
        proof {
            use_type_invariant(&*self);
        }
        let ghost before = self.bound@;
        match self.bound.get(name) {
            Some(_) => {},
            None => {
                proof {
                    assert(before =~= before.remove(name@));
                }
                return false;
            },
        }
        let mut next = self.bound.copy();
        next.remove(name);
        proof {
            assert forall|a: Seq<char>| #[trigger] next@.dom().contains(a) implies before.dom().contains(
                a,
            ) by {}
        }
        *self = JsGlobalRegistry { bound: next };
        true
    }

    /// What is bound to a name.
    pub fn get(&self, name: &str) -> (r: Option<V>)
        ensures
            r == (if self@.dom().contains(name@) {
                Some(self@[name@])
            } else {
                None
            }),
    {
        match self.bound.get(name) {
            Some(value) => Some(*value),
            None => None,
        }
    }

    /// The globals as they are now: later changes do not show in them.
    pub fn snapshot(&self) -> (r: Self)
        ensures
            r@ == self@,
    {
        proof {
            use_type_invariant(self);
        }
        JsGlobalRegistry { bound: self.bound.copy() }
    }

    /// Returns the names currently bound as host globals, in sorted order.
    pub fn js_global_names(&self) -> (r: Vec<String>)
        ensures
            forall|i: int, j: int|
                0 <= i < j < r@.len() ==> order::text_lt(#[trigger] r@[i]@, #[trigger] r@[j]@),
            forall|k: Seq<char>| #[trigger]
                self@.dom().contains(k) <==> text::texts(r@).contains(k),
    {
        let entries = self.bound.entries();
        let ghost p = self.bound.pairs();
        let mut r: Vec<String> = Vec::new();
        let mut i: usize = 0;
        while i < entries.len()
            invariant
                i <= entries@.len(),
                p == self.bound.pairs(),
                p == textmap::pairs_view(entries@),
                textmap::sorted_pairs(p),
                r@.len() == i,
                forall|j: int| 0 <= j < i ==> (#[trigger] r@[j])@ == p[j].0,
            decreases entries@.len() - i,
        {
            proof {
                assert(p[i as int].0 == entries@[i as int].0@);
            }
            r.push(entries[i].0.clone());
            i = i + 1;
        }
        proof {
            assert forall|k: Seq<char>| #[trigger]
                self@.dom().contains(k) <==> text::texts(r@).contains(k) by {
                if self@.dom().contains(k) {
                    let j = choose|j: int| 0 <= j < p.len() && (#[trigger] p[j]).0 == k;
                    assert(text::texts(r@)[j] == r@[j]@);
                    assert(text::texts(r@)[j] == k);
                }
                if text::texts(r@).contains(k) {
                    let j = choose|j: int| 0 <= j < r@.len() && text::texts(r@)[j] == k;
                    assert(r@[j]@ == k);
                    textmap::lemma_pairs_map(p, j);
                }
            }
            assert forall|i: int, j: int| 0 <= i < j < r@.len() implies order::text_lt(
                #[trigger] r@[i]@,
                #[trigger] r@[j]@,
            ) by {
                assert(order::text_lt(p[i].0, p[j].0));
            }
        }
        r
    }
}

/// A path in a namespace has the namespace in front and a dot between, and its first segment is
/// that of the namespace. It may be bound where both of its parts could be names.
pub proof fn law_namespaces_stand_in_front(namespace: Seq<char>, name: Seq<char>)
    ensures
        ({
            let whole = namespace + seq!['.'] + name;
            &&& inside(namespace, whole)
            &&& conflict(namespace, whole)
            &&& root_of(whole) == root_of(namespace)
            &&& global_name(whole) <==> global_name(namespace) && global_name(name)
            &&& !namespace.contains('.') ==> root_of(whole) == namespace
            &&& !inside(namespace, namespace)
        }),
{
    reveal_strlit(".");
    let whole = namespace + seq!['.'] + name;
    let front = namespace + "."@;
    assert(front =~= namespace + seq!['.']);
    assert(whole.take(front.len() as int) =~= front);
    path::law_texts_are_split_at_a_character(namespace, name, '.');
    path::lemma_split_not_empty(namespace, '.');
    path::lemma_split_not_empty(name, '.');
    let x = path::split(namespace, '.');
    let y = path::split(name, '.');
    let all = path::split(whole, '.');
    assert(all == x + y);
    assert(all[0] == x[0]);
    if global_name(whole) {
        assert forall|i: int| 0 <= i < x.len() implies crate::shell::parse::assignment_name(
            #[trigger] x[i],
        ) by {
            assert(all[i] == x[i]);
        }
        assert forall|i: int| 0 <= i < y.len() implies crate::shell::parse::assignment_name(
            #[trigger] y[i],
        ) by {
            assert(all[x.len() + i] == y[i]);
        }
        assert(namespace.len() > 0) by {
            if namespace.len() == 0 {
                assert(!namespace.contains('.'));
                assert(x[0].len() == 0);
                assert(crate::shell::parse::assignment_name(x[0]));
            }
        }
        assert(name.len() > 0) by {
            if name.len() == 0 {
                path::law_texts_are_split_at_a_character(name, seq![], '.');
                assert(!name.contains('.'));
                assert(y[0].len() == 0);
                assert(crate::shell::parse::assignment_name(y[0]));
            }
        }
    }
    if global_name(namespace) && global_name(name) {
        assert forall|i: int| 0 <= i < all.len() implies crate::shell::parse::assignment_name(
            #[trigger] all[i],
        ) by {
            if i < x.len() {
                assert(all[i] == x[i]);
            } else {
                assert(all[i] == y[i - x.len()]);
            }
        }
    }
}

/// A name of letters, digits and underscores that does not start with a digit may be bound, unless
/// the runtime provides it.
pub proof fn law_plain_names_may_be_bound(name: Seq<char>)
    requires
        crate::shell::written::variable_name(name),
    ensures
        global_name(name),
        root_of(name) == name,
        name_refusal(name) is None <==> !reserved_names().contains(name),
{
    assert(!name.contains('.')) by {
        if name.contains('.') {
            let i = name.index_of('.');
            assert(name[i] == '.');
        }
    }
    path::law_texts_are_split_at_a_character(name, seq![], '.');
    assert forall|i: int| 0 <= i < name.len() implies crate::shell::lex::name_char(
        #[trigger] name[i],
    ) by {}
    assert(crate::shell::lex::name_start_char(name[0]));
}

} // verus!
