//! The environment: variables and their values, in the order of their names.

use vstd::prelude::*;

use crate::textmap;
use crate::textmap::TextMap;

verus! {

/// Names with the texts that they stand for.
pub open spec fn values_view(p: Seq<(Seq<char>, String)>) -> Seq<(Seq<char>, Seq<char>)> {
    p.map_values(|e: (Seq<char>, String)| (e.0, e.1@))
}

/// The variables that a command sees.
#[derive(Debug, PartialEq, Eq)]
pub struct Env {
    map: TextMap<String>,
}

impl Env {
    /// The variables with their values, in the order of the names.
    pub closed spec fn pairs(&self) -> Seq<(Seq<char>, Seq<char>)> {
        values_view(self.map.pairs())
    }

    pub open spec fn view(&self) -> Map<Seq<char>, Seq<char>> {
        textmap::pairs_map(self.pairs())
    }

    proof fn lemma_view(&self)
        ensures
            self@.dom() == self.map@.dom(),
            textmap::sorted_pairs(self.map.pairs()) ==> forall|k: Seq<char>|
                self.map@.dom().contains(k) ==> #[trigger] self@[k] == self.map@[k]@,
    {
        let p = self.map.pairs();
        let q = self.pairs();
        assert forall|k: Seq<char>| textmap::names(p, k) == textmap::names(q, k) by {
            if textmap::names(p, k) {
                let i = choose|i: int| 0 <= i < p.len() && (#[trigger] p[i]).0 == k;
                assert(q[i].0 == k);
            }
            if textmap::names(q, k) {
                let i = choose|i: int| 0 <= i < q.len() && (#[trigger] q[i]).0 == k;
                assert(p[i].0 == k);
            }
        }
        assert(self@.dom() =~= self.map@.dom());
        if textmap::sorted_pairs(p) {
            assert(textmap::sorted_pairs(q)) by {
                assert forall|i: int, j: int| 0 <= i < j < q.len() implies crate::order::text_lt(
                    (#[trigger] q[i]).0,
                    (#[trigger] q[j]).0,
                ) by {
                    assert(crate::order::text_lt(p[i].0, p[j].0));
                }
            }
            assert forall|k: Seq<char>| self.map@.dom().contains(k) implies #[trigger] self@[k]
                == self.map@[k]@ by {
                let i = choose|i: int| 0 <= i < p.len() && (#[trigger] p[i]).0 == k;
                textmap::lemma_pairs_map(p, i);
                textmap::lemma_pairs_map(q, i);
            }
        }
    }

    /// An environment without variables.
    pub fn new() -> (r: Env)
        ensures
            r@ == Map::<Seq<char>, Seq<char>>::empty(),
    {
        let r = Env { map: TextMap::new() };
        proof {
            r.lemma_view();
            assert(r@ =~= Map::<Seq<char>, Seq<char>>::empty());
        }
        r
    }

    /// The variables with their values, in the order of the names.
    pub fn entries(&self) -> (r: &Vec<(String, String)>)
        ensures
            values_view(textmap::pairs_view(r@)) == self.pairs(),
            textmap::sorted_pairs(self.pairs()),
    {
        let r = self.map.entries();
        proof {
            let p = self.map.pairs();
            let q = self.pairs();
            assert forall|i: int, j: int| 0 <= i < j < q.len() implies crate::order::text_lt(
                (#[trigger] q[i]).0,
                (#[trigger] q[j]).0,
            ) by {
                assert(crate::order::text_lt(p[i].0, p[j].0));
            }
        }
        r
    }

    /// The value of a variable.
    pub fn get(&self, name: &str) -> (r: Option<&String>)
        ensures
            match r {
                Some(value) => self@.dom().contains(name@) && self@[name@] == value@,
                None => !self@.dom().contains(name@),
            },
    {
        let _ = self.map.entries();
        proof {
            self.lemma_view();
        }
        self.map.get(name)
    }

    /// Sets a variable.
    pub fn insert(&mut self, name: String, value: String)
        ensures
            final(self)@ == old(self)@.insert(name@, value@),
    {
        let ghost before = *self;
        let _ = self.map.entries();
        proof {
            self.lemma_view();
        }
        self.map.insert(name, value);
        let _ = self.map.entries();
        proof {
            self.lemma_view();
            assert(self@ =~= before@.insert(name@, value@));
        }
    }

    /// Removes a variable.
    pub fn remove(&mut self, name: &str)
        ensures
            final(self)@ == old(self)@.remove(name@),
    {
        let ghost before = *self;
        let _ = self.map.entries();
        proof {
            self.lemma_view();
        }
        self.map.remove(name);
        let _ = self.map.entries();
        proof {
            self.lemma_view();
            assert(self@ =~= before@.remove(name@));
        }
    }
}

impl Clone for Env {
    fn clone(&self) -> (r: Self)
        ensures
            r@ == self@,
    {
        let entries = self.map.entries();
        let ghost p = self.map.pairs();
        proof {
            self.lemma_view();
        }
        let mut r = Env::new();
        let mut i: usize = 0;
        while i < entries.len()
            invariant
                i <= entries@.len(),
                p == self.map.pairs(),
                p == textmap::pairs_view(entries@),
                textmap::sorted_pairs(p),
                forall|k: Seq<char>| self.map@.dom().contains(k) ==> #[trigger] self@[k] == self.map@[k]@,
                forall|k: Seq<char>| #[trigger] r@.dom().contains(k) ==> self.map@.dom().contains(k) && r@[k] == self@[k],
                forall|j: int| 0 <= j < i ==> r@.dom().contains((#[trigger] p[j]).0),
            decreases entries@.len() - i,
        {
            proof {
                textmap::lemma_pairs_map(p, i as int);
                assert(p[i as int] == (entries@[i as int].0@, entries@[i as int].1));
            }
            r.insert(entries[i].0.clone(), entries[i].1.clone());
            i = i + 1;
        }
        proof {
            assert forall|k: Seq<char>| self@.dom().contains(k) implies r@.dom().contains(k) by {
                assert(self.map@.dom().contains(k));
                let j = choose|j: int| 0 <= j < p.len() && (#[trigger] p[j]).0 == k;
                assert(r@.dom().contains(p[j].0));
            }
            assert(r@ =~= self@);
        }
        r
    }
}

} // verus!
