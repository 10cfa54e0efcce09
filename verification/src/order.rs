//! Stable sorting by an integer key.

use vstd::prelude::*;
use vstd::set_lib::lemma_subset_equality;

verus! {

/// Items that are ordered by an integer.
pub trait Keyed: Sized {
    spec fn key(self) -> int;

    /// Whether this item goes strictly before the other.
    fn before(&self, other: &Self) -> (r: bool)
        ensures
            r == (self.key() < other.key()),
    ;
}

/// Whether an item of key `k` that stood at `i` goes before one of key `l` that stood at
/// `j`.
pub open spec fn precedes(k: int, i: int, l: int, j: int) -> bool {
    k < l || (k == l && i < j)
}

/// `after` holds the items of `before` by rising key, those of equal key in their old
/// order; item `i` of `after` stood at `from[i]`.
pub open spec fn sorted_from<T: Keyed>(before: Seq<T>, after: Seq<T>, from: Seq<int>) -> bool {
    &&& after.len() == before.len()
    &&& from.len() == before.len()
    &&& forall|i: int|
        #![trigger from[i]]
        0 <= i < from.len() ==> 0 <= from[i] < before.len() && after[i] == before[from[i]]
    &&& forall|i: int, j: int|
        #![trigger from[i], from[j]]
        0 <= i < j < from.len() ==> precedes(after[i].key(), from[i], after[j].key(), from[j])
}

/// `after` is `before`, stably sorted.
pub open spec fn stably_sorted<T: Keyed>(before: Seq<T>, after: Seq<T>) -> bool {
    exists|from: Seq<int>| sorted_from(before, after, from)
}

pub open spec fn rising<T: Keyed>(items: Seq<T>) -> bool {
    forall|i: int, j: int|
        #![trigger items[i], items[j]]
        0 <= i < j < items.len() ==> items[i].key() <= items[j].key()
}

/// Every place of the old order is taken up in the new one.
pub proof fn lemma_onto<T: Keyed>(before: Seq<T>, after: Seq<T>, from: Seq<int>, v: int)
    requires
        sorted_from(before, after, from),
        0 <= v < before.len(),
    ensures
        exists|j: int| 0 <= j < from.len() && from[j] == v,
{
    let n = before.len() as int;
    assert(from.no_duplicates());
    from.unique_seq_to_set();
    let all = vstd::set_lib::set_int_range(0, n);
    vstd::set_lib::lemma_int_range(0, n);
    assert forall|x: int| from.to_set().contains(x) implies all.contains(x) by {
        let i = choose|i: int| 0 <= i < from.len() && from[i] == x;
        assert(0 <= from[i] < n);
    }
    assert(from.to_set().subset_of(all));
    lemma_subset_equality(from.to_set(), all);
    assert(from.to_set().contains(v));
}

proof fn lemma_same_order<T: Keyed>(
    before: Seq<T>,
    a: Seq<T>,
    b: Seq<T>,
    fa: Seq<int>,
    fb: Seq<int>,
    i: int,
)
    requires
        sorted_from(before, a, fa),
        sorted_from(before, b, fb),
        0 <= i < before.len(),
    ensures
        fa[i] == fb[i],
    decreases i,
{
    assert forall|k: int| 0 <= k < i implies fa[k] == fb[k] by {
        lemma_same_order(before, a, b, fa, fb, k);
    }
    if fa[i] != fb[i] {
        lemma_onto(before, b, fb, fa[i]);
        let j = choose|j: int| 0 <= j < fb.len() && fb[j] == fa[i];
        lemma_onto(before, a, fa, fb[i]);
        let k = choose|k: int| 0 <= k < fa.len() && fa[k] == fb[i];
        assert(fb[j] == fa[i] && fa[k] == fb[i]);
        if j < i {
            assert(fa[j] == fa[i]);
        }
        if k < i {
            assert(fb[k] == fb[i]);
        }
        assert(i < j && i < k);
    }
}

/// A sequence has one stably sorted order only.
pub proof fn lemma_sort_unique<T: Keyed>(before: Seq<T>, a: Seq<T>, b: Seq<T>)
    requires
        stably_sorted(before, a),
        stably_sorted(before, b),
    ensures
        a == b,
{
    let fa = choose|from: Seq<int>| sorted_from(before, a, from);
    let fb = choose|from: Seq<int>| sorted_from(before, b, from);
    assert forall|i: int| 0 <= i < before.len() implies a[i] == b[i] by {
        lemma_same_order(before, a, b, fa, fb, i);
        assert(fa[i] == fb[i]);
    }
    assert(a =~= b);
}

/// What is in order already stays as it is.
pub proof fn lemma_sort_keeps_order<T: Keyed>(before: Seq<T>, after: Seq<T>)
    requires
        stably_sorted(before, after),
        rising(before),
    ensures
        after == before,
{
    let same = Seq::new(before.len(), |i: int| i);
    assert(sorted_from(before, before, same));
    lemma_sort_unique(before, before, after);
}

/// Sorting yields rising keys and loses or adds nothing.
pub proof fn lemma_sort_rises<T: Keyed>(before: Seq<T>, after: Seq<T>)
    requires
        stably_sorted(before, after),
    ensures
        rising(after),
        forall|i: int| 0 <= i < after.len() ==> before.contains(#[trigger] after[i]),
        forall|i: int| 0 <= i < before.len() ==> after.contains(#[trigger] before[i]),
{
    let from = choose|from: Seq<int>| sorted_from(before, after, from);
    assert forall|i: int, j: int|
        #![trigger after[i], after[j]]
        0 <= i < j < after.len() implies after[i].key() <= after[j].key() by {
        assert(0 <= from[i] && 0 <= from[j]);
    }
    assert forall|i: int| 0 <= i < after.len() implies before.contains(#[trigger] after[i]) by {
        assert(after[i] == before[from[i]]);
    }
    assert forall|i: int| 0 <= i < before.len() implies after.contains(#[trigger] before[i]) by {
        lemma_onto(before, after, from, i);
        let j = choose|j: int| 0 <= j < from.len() && from[j] == i;
        assert(after[j] == before[from[j]]);
    }
}

/// Putting one more item behind all those that do not go after it keeps the order.
proof fn lemma_insert<T: Keyed>(before: Seq<T>, after: Seq<T>, from: Seq<int>, item: T, k: int)
    requires
        sorted_from(before, after, from),
        0 <= k <= after.len(),
        forall|j: int| k <= j < after.len() ==> item.key() < (#[trigger] after[j]).key(),
        k > 0 ==> after[k - 1].key() <= item.key(),
    ensures
        sorted_from(before.push(item), after.insert(k, item), from.insert(k, before.len() as int)),
{
    let n = before.len() as int;
    let now = before.push(item);
    let a2 = after.insert(k, item);
    let f2 = from.insert(k, n);
    assert forall|i: int|
        #![trigger f2[i]]
        0 <= i < f2.len() implies 0 <= f2[i] < now.len() && a2[i] == now[f2[i]] by {
        if i < k {
            assert(f2[i] == from[i]);
        } else if i > k {
            assert(f2[i] == from[i - 1]);
        }
    }
    assert forall|i: int, j: int|
        #![trigger f2[i], f2[j]]
        0 <= i < j < f2.len() implies precedes(a2[i].key(), f2[i], a2[j].key(), f2[j]) by {
        if i == k {
            assert(a2[j] == after[j - 1]);
        } else if j == k {
            assert(a2[i] == after[i]);
            assert(0 <= from[i] < n);
            assert(f2[i] == from[i]);
            if i < k - 1 {
                assert(0 <= from[i] && 0 <= from[k - 1]);
            }
        } else {
            let oi = if i < k {
                i
            } else {
                i - 1
            };
            let oj = if j < k {
                j
            } else {
                j - 1
            };
            assert(f2[i] == from[oi] && f2[j] == from[oj]);
            assert(a2[i] == after[oi] && a2[j] == after[oj]);
        }
    }
}

/// Sorts stably by key.
pub fn stable_sort<T: Keyed>(items: Vec<T>) -> (r: Vec<T>)
    ensures
        stably_sorted(items@, r@),
{
    let mut r: Vec<T> = Vec::new();
    let ghost mut from: Seq<int> = Seq::empty();
    let ghost all = items@;
    for item in it: items
        invariant
            it.seq() == all,
            sorted_from(all.take(it.index()), r@, from),
    {
        let ghost n = it.index();
        let mut k: usize = r.len();
        while k > 0 && item.before(&r[k - 1])
            invariant
                k <= r.len(),
                forall|j: int| k <= j < r.len() ==> item.key() < (#[trigger] r@[j]).key(),
            decreases k,
        {
            k = k - 1;
        }
        proof {
            lemma_insert(all.take(n), r@, from, item, k as int);
            assert(all.take(n + 1) == all.take(n).push(item));
            from = from.insert(k as int, n);
        }
        r.insert(k, item);
    }
    assert(all.take(all.len() as int) == all);
    r
}

/// Items of equal key come out in the order in which they went in, and every item comes out
/// as often as it went in: each comes from a place of its own.
pub proof fn law_sorting_is_stable<T: Keyed>(before: Seq<T>, after: Seq<T>) -> (from: Seq<int>)
    requires
        stably_sorted(before, after),
    ensures
        from.len() == before.len(),
        after.len() == before.len(),
        forall|i: int|
            #![trigger from[i]]
            0 <= i < from.len() ==> 0 <= from[i] < before.len() && after[i] == before[from[i]],
        forall|i: int, j: int|
            #![trigger from[i], from[j]]
            0 <= i < j < from.len() ==> from[i] != from[j] && after[i].key() <= after[j].key(),
        forall|i: int, j: int|
            #![trigger from[i], from[j]]
            0 <= i < j < from.len() && after[i].key() == after[j].key() ==> from[i] < from[j],
        forall|v: int| 0 <= v < before.len() ==> #[trigger] from.contains(v),
{
    let from = choose|from: Seq<int>| sorted_from(before, after, from);
    assert forall|v: int| 0 <= v < before.len() implies #[trigger] from.contains(v) by {
        lemma_onto(before, after, from, v);
    }
    assert forall|i: int, j: int|
        #![trigger from[i], from[j]]
        0 <= i < j < from.len() implies from[i] != from[j] && after[i].key() <= after[j].key() by {
        assert(precedes(after[i].key(), from[i], after[j].key(), from[j]));
        assert(after[i] == before[from[i]] && after[j] == before[from[j]]);
    }
    assert forall|i: int, j: int|
        #![trigger from[i], from[j]]
        0 <= i < j < from.len() && after[i].key() == after[j].key() implies from[i] < from[j] by {
        assert(precedes(after[i].key(), from[i], after[j].key(), from[j]));
    }
    from
}

} // verus!
