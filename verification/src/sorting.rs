//! Stable sorting: the order in which items come by a number and a text.

use vstd::prelude::*;

use crate::order;
use crate::order::Order;

verus! {

/// What an item is ordered by: a number first, then a text.
#[derive(Debug, PartialEq, Eq)]
pub struct SortKey {
    pub number: i64,
    pub text: String,
}

pub open spec fn key_lt(a: SortKey, b: SortKey) -> bool {
    a.number < b.number || (a.number == b.number && order::text_lt(a.text@, b.text@))
}

pub open spec fn key_same(a: SortKey, b: SortKey) -> bool {
    a.number == b.number && a.text@ == b.text@
}

/// Whether the item with index `i` comes before the one with index `j`: by its key, and among
/// equal keys by its place.
pub open spec fn before(keys: Seq<SortKey>, i: int, j: int) -> bool {
    key_lt(keys[i], keys[j]) || (key_same(keys[i], keys[j]) && i < j)
}

/// Whether `p` lists the indices of all the items in their order. No two lists do.
pub open spec fn orders(keys: Seq<SortKey>, p: Seq<int>) -> bool {
    &&& p.len() == keys.len()
    &&& forall|i: int| 0 <= i < p.len() ==> 0 <= #[trigger] p[i] < keys.len()
    &&& forall|i: int, j: int|
        0 <= i < j < p.len() ==> before(keys, #[trigger] p[i], #[trigger] p[j])
}

proof fn lemma_key_transitive(a: SortKey, b: SortKey, c: SortKey)
    requires
        key_lt(a, b),
        key_lt(b, c),
    ensures
        key_lt(a, c),
{
    if a.number == b.number && b.number == c.number {
        order::law_text_order_is_transitive(a.text@, b.text@, c.text@);
    }
}

proof fn lemma_before_transitive(keys: Seq<SortKey>, i: int, j: int, k: int)
    requires
        before(keys, i, j),
        before(keys, j, k),
    ensures
        before(keys, i, k),
{
    if key_lt(keys[i], keys[j]) && key_lt(keys[j], keys[k]) {
        lemma_key_transitive(keys[i], keys[j], keys[k]);
    }
}

proof fn lemma_before_total(keys: Seq<SortKey>, i: int, j: int)
    requires
        i != j,
    ensures
        before(keys, i, j) || before(keys, j, i),
{
    order::law_text_order_is_total(keys[i].text@, keys[j].text@);
}

proof fn lemma_before_irreflexive(keys: Seq<SortKey>, i: int)
    ensures
        !before(keys, i, i),
{
    order::law_text_order_is_irreflexive(keys[i].text@);
}

fn comes_before(keys: &Vec<SortKey>, i: usize, j: usize) -> (r: bool)
    requires
        i < keys@.len(),
        j < keys@.len(),
    ensures
        r == before(keys@, i as int, j as int),
{
    let a = &keys[i];
    let b = &keys[j];
    if a.number != b.number {
        return a.number < b.number;
    }
    proof {
        order::law_text_order_is_irreflexive(a.text@);
    }
    match order::order_texts(a.text.as_str(), b.text.as_str()) {
        Order::Less => true,
        Order::Equal => i < j,
        Order::Greater => false,
    }
}

/// The items from `from` to `to` in their order.
spec fn ordered_range(keys: Seq<SortKey>, p: Seq<usize>, from: int, to: int) -> bool {
    &&& p.len() == to - from
    &&& forall|i: int| 0 <= i < p.len() ==> from <= #[trigger] p[i] < to
    &&& forall|i: int, j: int|
        0 <= i < j < p.len() ==> before(keys, (#[trigger] p[i]) as int, (#[trigger] p[j]) as int)
}

fn merge(keys: &Vec<SortKey>, left: &Vec<usize>, right: &Vec<usize>, Ghost(from): Ghost<int>, Ghost(
    middle,
): Ghost<int>, Ghost(to): Ghost<int>) -> (r: Vec<usize>)
    requires
        0 <= from <= middle <= to <= keys@.len(),
        ordered_range(keys@, left@, from, middle),
        ordered_range(keys@, right@, middle, to),
    ensures
        ordered_range(keys@, r@, from, to),
{
    let mut out: Vec<usize> = Vec::new();
    let mut i: usize = 0;
    let mut j: usize = 0;
    while i < left.len() || j < right.len()
        invariant
            0 <= from <= middle <= to <= keys@.len(),
            ordered_range(keys@, left@, from, middle),
            ordered_range(keys@, right@, middle, to),
            i <= left@.len(),
            j <= right@.len(),
            out@.len() == i + j,
            forall|k: int| 0 <= k < out@.len() ==> from <= #[trigger] out@[k] < to,
            forall|a: int, b: int|
                0 <= a < b < out@.len() ==> before(
                    keys@,
                    (#[trigger] out@[a]) as int,
                    (#[trigger] out@[b]) as int,
                ),
            forall|a: int, b: int|
                0 <= a < out@.len() && i <= b < left@.len() ==> before(
                    keys@,
                    (#[trigger] out@[a]) as int,
                    (#[trigger] left@[b]) as int,
                ),
            forall|a: int, b: int|
                0 <= a < out@.len() && j <= b < right@.len() ==> before(
                    keys@,
                    (#[trigger] out@[a]) as int,
                    (#[trigger] right@[b]) as int,
                ),
        decreases left@.len() - i + right@.len() - j,
    {
        let take_left = if i >= left.len() {
            false
        } else if j >= right.len() {
            true
        } else {
            comes_before(keys, left[i], right[j])
        };
        let ghost previous = out@;
        if take_left {
            let next = left[i];
            out.push(next);
            proof {
                assert forall|b: int| j <= b < right@.len() implies before(
                    keys@,
                    next as int,
                    (#[trigger] right@[b]) as int,
                ) by {
                    if b > j {
                        lemma_before_transitive(
                            keys@,
                            next as int,
                            right@[j as int] as int,
                            right@[b] as int,
                        );
                    }
                }
            }
            i = i + 1;
        } else {
            let next = right[j];
            out.push(next);
            proof {
                assert forall|b: int| i <= b < left@.len() implies before(
                    keys@,
                    next as int,
                    (#[trigger] left@[b]) as int,
                ) by {
                    lemma_before_total(keys@, left@[i as int] as int, next as int);
                    if b > i {
                        lemma_before_transitive(
                            keys@,
                            next as int,
                            left@[i as int] as int,
                            left@[b] as int,
                        );
                    }
                }
            }
            j = j + 1;
        }
        proof {
            assert forall|a: int, b: int| 0 <= a < b < out@.len() implies before(
                keys@,
                (#[trigger] out@[a]) as int,
                (#[trigger] out@[b]) as int,
            ) by {
                assert(out@[a] == previous[a]);
                if b < previous.len() {
                    assert(out@[b] == previous[b]);
                }
            }
            assert forall|a: int, b: int|
                0 <= a < out@.len() && i <= b < left@.len() implies before(
                keys@,
                (#[trigger] out@[a]) as int,
                (#[trigger] left@[b]) as int,
            ) by {
                if a < previous.len() {
                    assert(out@[a] == previous[a]);
                }
            }
            assert forall|a: int, b: int|
                0 <= a < out@.len() && j <= b < right@.len() implies before(
                keys@,
                (#[trigger] out@[a]) as int,
                (#[trigger] right@[b]) as int,
            ) by {
                if a < previous.len() {
                    assert(out@[a] == previous[a]);
                }
            }
        }
    }
    out
}

fn sort_range(keys: &Vec<SortKey>, from: usize, to: usize) -> (r: Vec<usize>)
    requires
        from <= to <= keys@.len(),
    ensures
        ordered_range(keys@, r@, from as int, to as int),
    decreases to - from,
{
    let mut r: Vec<usize> = Vec::new();
    if to - from == 0 {
        return r;
    }
    if to - from == 1 {
        r.push(from);
        return r;
    }
    let middle: usize = from + (to - from) / 2;
    let left = sort_range(keys, from, middle);
    let right = sort_range(keys, middle, to);
    merge(
        keys,
        &left,
        &right,
        Ghost(from as int),
        Ghost(middle as int),
        Ghost(to as int),
    )
}

pub open spec fn indices(v: Seq<usize>) -> Seq<int> {
    v.map_values(|i: usize| i as int)
}

/// The indices of the items in their order; items with equal keys keep their places.
pub fn sort_order(keys: &Vec<SortKey>) -> (r: Vec<usize>)
    ensures
        orders(keys@, indices(r@)),
        forall|i: int| 0 <= i < r@.len() ==> #[trigger] r@[i] < keys@.len(),
        r@.len() == keys@.len(),
{
    let r = sort_range(keys, 0, keys.len());
    proof {
        let p = indices(r@);
        assert forall|i: int, j: int| 0 <= i < j < p.len() implies before(
            keys@,
            #[trigger] p[i],
            #[trigger] p[j],
        ) by {
            assert(before(keys@, r@[i] as int, r@[j] as int));
        }
        assert forall|i: int| 0 <= i < p.len() implies 0 <= #[trigger] p[i] < keys@.len() by {
            assert(r@[i] < keys@.len());
        }
    }
    r
}

/// An order lists no item twice.
pub proof fn lemma_order_repeats_nothing(keys: Seq<SortKey>, p: Seq<int>)
    requires
        orders(keys, p),
    ensures
        p.no_duplicates(),
{
    assert forall|i: int, j: int| 0 <= i < p.len() && 0 <= j < p.len() && i != j implies p[i]
        != p[j] by {
        lemma_before_irreflexive(keys, p[i]);
        if i < j {
            assert(before(keys, p[i], p[j]));
        } else {
            assert(before(keys, p[j], p[i]));
        }
    }
}

/// An order lists every item.
pub proof fn law_order_covers_every_item(keys: Seq<SortKey>, p: Seq<int>)
    requires
        orders(keys, p),
    ensures
        forall|k: int| 0 <= k < keys.len() ==> p.contains(k),
{
    let n = keys.len() as int;
    lemma_order_repeats_nothing(keys, p);
    p.unique_seq_to_set();
    vstd::set_lib::lemma_int_range(0, n);
    let range = vstd::set_lib::set_int_range(0, n);
    assert(p.to_set().subset_of(range)) by {
        assert forall|k: int| p.to_set().contains(k) implies range.contains(k) by {
            let i = choose|i: int| 0 <= i < p.len() && p[i] == k;
            assert(0 <= p[i] < n);
        }
    }
    vstd::set_lib::lemma_subset_equality(p.to_set(), range);
    assert forall|k: int| 0 <= k < n implies p.contains(k) by {
        assert(range.contains(k));
        assert(p.to_set().contains(k));
    }
}

/// Two lists that order the same items are the same: the order leaves nothing open.
pub proof fn law_order_is_unique(keys: Seq<SortKey>, p: Seq<int>, q: Seq<int>)
    requires
        orders(keys, p),
        orders(keys, q),
    ensures
        p == q,
{
    law_order_covers_every_item(keys, p);
    law_order_covers_every_item(keys, q);
    assert forall|n: int| 0 <= n <= p.len() implies p.take(n) == q.take(n) by {
        lemma_same_prefix(keys, p, q, n);
    }
    assert(p.take(p.len() as int) =~= p);
    assert(q.take(q.len() as int) =~= q);
}

proof fn lemma_same_prefix(keys: Seq<SortKey>, p: Seq<int>, q: Seq<int>, n: int)
    requires
        orders(keys, p),
        orders(keys, q),
        forall|k: int| 0 <= k < keys.len() ==> p.contains(k),
        forall|k: int| 0 <= k < keys.len() ==> q.contains(k),
        0 <= n <= p.len(),
    ensures
        p.take(n) == q.take(n),
    decreases n,
{
    if n > 0 {
        lemma_same_prefix(keys, p, q, n - 1);
        let a = p[n - 1];
        let b = q[n - 1];
        if a != b {
            assert(q.contains(a));
            assert(p.contains(b));
            let i = choose|i: int| 0 <= i < q.len() && q[i] == a;
            let j = choose|j: int| 0 <= j < p.len() && p[j] == b;
            lemma_before_irreflexive(keys, a);
            lemma_before_irreflexive(keys, b);
            if i < n - 1 {
                assert(q.take(n - 1)[i] == p.take(n - 1)[i]);
                assert(before(keys, p[i], p[n - 1]));
            }
            if j < n - 1 {
                assert(q.take(n - 1)[j] == p.take(n - 1)[j]);
                assert(before(keys, q[j], q[n - 1]));
            }
            assert(before(keys, b, a));
            assert(before(keys, a, b));
            lemma_before_transitive(keys, a, b, a);
        }
        assert(p.take(n) =~= p.take(n - 1).push(a));
        assert(q.take(n) =~= q.take(n - 1).push(b));
    } else {
        assert(p.take(0) =~= q.take(0));
    }
}

} // verus!
