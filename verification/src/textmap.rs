//! Maps from texts to values, kept in the order of the texts.

use vstd::prelude::*;

use crate::order;
use crate::order::Order;
use crate::text;

verus! {

pub open spec fn pairs_view<V>(v: Seq<(String, V)>) -> Seq<(Seq<char>, V)> {
    v.map_values(|p: (String, V)| (p.0@, p.1))
}

/// Pairs in strictly increasing order of their names, so that no name occurs twice.
pub open spec fn sorted_pairs<V>(p: Seq<(Seq<char>, V)>) -> bool {
    forall|i: int, j: int|
        0 <= i < j < p.len() ==> order::text_lt((#[trigger] p[i]).0, (#[trigger] p[j]).0)
}

pub open spec fn names<V>(p: Seq<(Seq<char>, V)>, name: Seq<char>) -> bool {
    exists|i: int| 0 <= i < p.len() && (#[trigger] p[i]).0 == name
}

/// The map that sorted pairs hold.
pub open spec fn pairs_map<V>(p: Seq<(Seq<char>, V)>) -> Map<Seq<char>, V> {
    Map::new(
        |name: Seq<char>| names(p, name),
        |name: Seq<char>| p[choose|i: int| 0 <= i < p.len() && (#[trigger] p[i]).0 == name].1,
    )
}

pub proof fn lemma_pairs_map<V>(p: Seq<(Seq<char>, V)>, i: int)
    requires
        sorted_pairs(p),
        0 <= i < p.len(),
    ensures
        pairs_map(p).dom().contains(p[i].0),
        pairs_map(p)[p[i].0] == p[i].1,
        forall|j: int| 0 <= j < p.len() && (#[trigger] p[j]).0 == p[i].0 ==> j == i,
{
    let name = p[i].0;
    assert(names(p, name));
    assert forall|j: int| 0 <= j < p.len() && (#[trigger] p[j]).0 == name implies j == i by {
        order::law_text_order_is_irreflexive(name);
        if j < i {
            assert(order::text_lt(p[j].0, p[i].0));
        } else if i < j {
            assert(order::text_lt(p[i].0, p[j].0));
        }
    }
}

/// A map from names to values, kept in the order of the names.
#[derive(Debug, PartialEq, Eq)]
pub struct TextMap<V> {
    entries: Vec<(String, V)>,
}

impl<V> TextMap<V> {
    #[verifier::type_invariant]
    spec fn ordered(&self) -> bool {
        sorted_pairs(pairs_view(self.entries@))
    }

    /// The names with their values, in the order of the names.
    pub closed spec fn pairs(&self) -> Seq<(Seq<char>, V)> {
        pairs_view(self.entries@)
    }

    pub open spec fn view(&self) -> Map<Seq<char>, V> {
        pairs_map(self.pairs())
    }

    /// A map without entries.
    pub fn new() -> (r: Self)
        ensures
            r@ == Map::<Seq<char>, V>::empty(),
    {
        let r = TextMap { entries: Vec::new() };
        proof {
            assert(r@ =~= Map::<Seq<char>, V>::empty());
        }
        r
    }

    /// The names with their values, in the order of the names.
    pub fn entries(&self) -> (r: &Vec<(String, V)>)
        ensures
            pairs_view(r@) == self.pairs(),
            sorted_pairs(self.pairs()),
    {
        proof {
            use_type_invariant(self);
        }
        &self.entries
    }

    /// The index of the first entry whose name does not come before `name`.
    fn position(&self, name: &str) -> (i: usize)
        ensures
            i <= self.entries@.len(),
            forall|k: int| 0 <= k < i ==> order::text_lt((#[trigger] self.pairs()[k]).0, name@),
            i < self.entries@.len() ==> order::text_le(name@, self.pairs()[i as int].0),
    {
        proof {
            use_type_invariant(self);
        }
        let mut low: usize = 0;
        let mut high: usize = self.entries.len();
        while low < high
            invariant
                low <= high <= self.entries@.len(),
                sorted_pairs(self.pairs()),
                forall|k: int|
                    0 <= k < low ==> order::text_lt((#[trigger] self.pairs()[k]).0, name@),
                high < self.entries@.len() ==> order::text_le(name@, self.pairs()[high as int].0),
            decreases high - low,
        {
            let middle: usize = low + (high - low) / 2;
            proof {
                assert(self.pairs()[middle as int].0 == self.entries@[middle as int].0@);
                order::law_text_order_is_total(self.pairs()[middle as int].0, name@);
            }
            match order::order_texts(self.entries[middle].0.as_str(), name) {
                Order::Less => {
                    proof {
                        assert forall|k: int| 0 <= k < middle + 1 implies order::text_lt(
                            (#[trigger] self.pairs()[k]).0,
                            name@,
                        ) by {
                            if k < middle {
                                assert(order::text_lt(
                                    self.pairs()[k].0,
                                    self.pairs()[middle as int].0,
                                ));
                                order::law_text_order_is_transitive(
                                    self.pairs()[k].0,
                                    self.pairs()[middle as int].0,
                                    name@,
                                );
                            }
                        }
                    }
                    low = middle + 1;
                },
                _ => {
                    high = middle;
                },
            }
        }
        low
    }

    proof fn lemma_absent(p: Seq<(Seq<char>, V)>, name: Seq<char>, i: int)
        requires
            sorted_pairs(p),
            0 <= i <= p.len(),
            forall|k: int| 0 <= k < i ==> order::text_lt((#[trigger] p[k]).0, name),
            i < p.len() ==> order::text_lt(name, p[i].0),
        ensures
            forall|k: int| 0 <= k < p.len() ==> (#[trigger] p[k]).0 != name,
            forall|k: int| i <= k < p.len() ==> order::text_lt(name, (#[trigger] p[k]).0),
    {
        order::law_text_order_is_irreflexive(name);
        assert forall|k: int| i <= k < p.len() implies order::text_lt(
            name,
            (#[trigger] p[k]).0,
        ) by {
            if k > i {
                assert(order::text_lt(p[i].0, p[k].0));
                order::law_text_order_is_transitive(name, p[i].0, p[k].0);
            }
        }
    }

    /// The value of a name.
    pub fn get(&self, name: &str) -> (r: Option<&V>)
        ensures
            match r {
                Some(value) => self@.dom().contains(name@) && self@[name@] == *value,
                None => !self@.dom().contains(name@),
            },
    {
        proof {
            use_type_invariant(self);
        }
        let i = self.position(name);
        if i < self.entries.len() {
            proof {
                assert(self.pairs()[i as int].0 == self.entries@[i as int].0@);
            }
            if text::str_eq(self.entries[i].0.as_str(), name) {
                proof {
                    lemma_pairs_map(self.pairs(), i as int);
                }
                return Some(&self.entries[i].1);
            }
        }
        proof {
            Self::lemma_absent(self.pairs(), name@, i as int);
        }
        None
    }

    /// Sets the value of a name.
    pub fn insert(&mut self, name: String, value: V)
        ensures
            final(self)@ == old(self)@.insert(name@, value),
    {
        proof {
            use_type_invariant(&*self);
        }
        let ghost p = self.pairs();
        let i = self.position(name.as_str());
        let mut entries: Vec<(String, V)> = Vec::new();
        std::mem::swap(&mut entries, &mut self.entries);
        let ghost name_view = name@;
        let ghost value_view = value;
        let ghost pair = (name_view, value_view);
        let present = i < entries.len() && text::str_eq(entries[i].0.as_str(), name.as_str());
        proof {
            if i < entries@.len() {
                assert(p[i as int].0 == entries@[i as int].0@);
            }
        }
        if present {
            entries[i] = (name, value);
            proof {
                assert(pairs_view(entries@) =~= p.update(i as int, pair));
                assert forall|a: int, b: int| 0 <= a < b < p.len() implies order::text_lt(
                    (#[trigger] pairs_view(entries@)[a]).0,
                    (#[trigger] pairs_view(entries@)[b]).0,
                ) by {
                    assert(order::text_lt(p[a].0, p[b].0));
                }
            }
        } else {
            proof {
                Self::lemma_absent(p, name_view, i as int);
            }
            entries.insert(i, (name, value));
            proof {
                let q = p.insert(i as int, pair);
                assert(pairs_view(entries@) =~= q);
                assert forall|a: int, b: int| 0 <= a < b < q.len() implies order::text_lt(
                    (#[trigger] q[a]).0,
                    (#[trigger] q[b]).0,
                ) by {
                    let a0 = if a < i { a } else { a - 1 };
                    let b0 = if b < i { b } else { b - 1 };
                    if a != i && b != i {
                        assert(order::text_lt(p[a0].0, p[b0].0));
                    } else if a == i {
                        assert(order::text_lt(name_view, p[b0].0));
                    } else {
                        assert(order::text_lt(p[a0].0, name_view));
                    }
                }
            }
        }
        let ghost q = pairs_view(entries@);
        self.entries = entries;
        proof {
            let before = pairs_map(p);
            let after = pairs_map(q);
            lemma_pairs_map(q, i as int);
            assert forall|k: Seq<char>| after.dom().contains(k) == (before.dom().contains(k) || k
                == name_view) by {
                if names(q, k) {
                    let j = choose|j: int| 0 <= j < q.len() && (#[trigger] q[j]).0 == k;
                    if j != i {
                        let j0 = if present || j < i { j } else { j - 1 };
                        assert(p[j0].0 == k);
                    }
                }
                if names(p, k) {
                    let j = choose|j: int| 0 <= j < p.len() && (#[trigger] p[j]).0 == k;
                    let j1 = if present || j < i { j } else { j + 1 };
                    assert(q[j1].0 == k);
                }
            }
            assert forall|k: Seq<char>| before.dom().contains(k) && k != name_view implies after[k]
                == before[k] by {
                let j = choose|j: int| 0 <= j < p.len() && (#[trigger] p[j]).0 == k;
                lemma_pairs_map(p, j);
                let j1 = if present || j < i { j } else { j + 1 };
                assert(q[j1] == p[j]);
                lemma_pairs_map(q, j1);
            }
            assert(after =~= before.insert(name_view, value_view));
        }
    }

    /// Removes a name.
    pub fn remove(&mut self, name: &str)
        ensures
            final(self)@ == old(self)@.remove(name@),
    {
        proof {
            use_type_invariant(&*self);
        }
        let ghost p = self.pairs();
        let i = self.position(name);
        proof {
            if i < self.entries@.len() {
                assert(p[i as int].0 == self.entries@[i as int].0@);
            }
        }
        if i < self.entries.len() && text::str_eq(self.entries[i].0.as_str(), name) {
            let mut entries: Vec<(String, V)> = Vec::new();
            std::mem::swap(&mut entries, &mut self.entries);
            let _ = entries.remove(i);
            let ghost q = pairs_view(entries@);
            proof {
                assert(q =~= p.remove(i as int));
                assert forall|a: int, b: int| 0 <= a < b < q.len() implies order::text_lt(
                    (#[trigger] q[a]).0,
                    (#[trigger] q[b]).0,
                ) by {
                    let a0 = if a < i { a } else { a + 1 };
                    let b0 = if b < i { b } else { b + 1 };
                    assert(order::text_lt(p[a0].0, p[b0].0));
                }
            }
            self.entries = entries;
            proof {
                let before = pairs_map(p);
                let after = pairs_map(q);
                lemma_pairs_map(p, i as int);
                assert forall|k: Seq<char>| after.dom().contains(k) == (before.dom().contains(k)
                    && k != name@) by {
                    if names(q, k) {
                        let j = choose|j: int| 0 <= j < q.len() && (#[trigger] q[j]).0 == k;
                        let j0 = if j < i { j } else { j + 1 };
                        assert(p[j0].0 == k);
                    }
                    if names(p, k) && k != name@ {
                        let j = choose|j: int| 0 <= j < p.len() && (#[trigger] p[j]).0 == k;
                        let j1 = if j < i { j } else { j - 1 };
                        assert(q[j1].0 == k);
                    }
                }
                assert forall|k: Seq<char>| before.dom().contains(k) && k != name@ implies after[k]
                    == before[k] by {
                    let j = choose|j: int| 0 <= j < p.len() && (#[trigger] p[j]).0 == k;
                    lemma_pairs_map(p, j);
                    let j1 = if j < i { j } else { j - 1 };
                    assert(q[j1] == p[j]);
                    lemma_pairs_map(q, j1);
                }
                assert(after =~= before.remove(name@));
            }
        } else {
            proof {
                Self::lemma_absent(p, name@, i as int);
                assert(pairs_map(p) =~= pairs_map(p).remove(name@));
            }
        }
    }
}

impl<V: Copy> TextMap<V> {
    /// Another map with the same entries.
    pub fn copy(&self) -> (r: Self)
        ensures
            r@ == self@,
    {
        let entries = self.entries();
        let ghost p = self.pairs();
        let mut r = TextMap::new();
        let mut i: usize = 0;
        while i < entries.len()
            invariant
                i <= entries@.len(),
                p == self.pairs(),
                p == pairs_view(entries@),
                sorted_pairs(p),
                forall|k: Seq<char>| #[trigger]
                    r@.dom().contains(k) ==> self@.dom().contains(k) && r@[k] == self@[k],
                forall|j: int| 0 <= j < i ==> r@.dom().contains((#[trigger] p[j]).0),
            decreases entries@.len() - i,
        {
            proof {
                lemma_pairs_map(p, i as int);
                assert(p[i as int] == (entries@[i as int].0@, entries@[i as int].1));
            }
            r.insert(entries[i].0.clone(), entries[i].1);
            i = i + 1;
        }
        proof {
            assert forall|k: Seq<char>| self@.dom().contains(k) implies r@.dom().contains(k) by {
                let j = choose|j: int| 0 <= j < p.len() && (#[trigger] p[j]).0 == k;
                assert(r@.dom().contains(p[j].0));
            }
            assert(r@ =~= self@);
        }
        r
    }
}

} // verus!
