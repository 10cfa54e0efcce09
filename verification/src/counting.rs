//! Counting by sets: how many of the first integers have a property.

use vstd::prelude::*;
use vstd::set_lib::{lemma_int_range, set_int_range};

verus! {

/// Those of the integers from zero up to `n` that have a property.
pub open spec fn chosen(n: int, p: spec_fn(int) -> bool) -> Set<int> {
    set_int_range(0, n).filter(p)
}

/// Going one farther adds one, or nothing.
pub proof fn lemma_chosen_step(n: int, p: spec_fn(int) -> bool)
    requires
        n > 0,
    ensures
        chosen(n, p).finite(),
        chosen(n - 1, p).finite(),
        chosen(n, p).len() == chosen(n - 1, p).len() + if p(n - 1) {
            1nat
        } else {
            0nat
        },
{
    lemma_chosen_finite(n, p);
    lemma_chosen_finite(n - 1, p);
    if p(n - 1) {
        assert(chosen(n, p) =~= chosen(n - 1, p).insert(n - 1));
    } else {
        assert(chosen(n, p) =~= chosen(n - 1, p));
    }
}

pub proof fn lemma_chosen_finite(n: int, p: spec_fn(int) -> bool)
    requires
        n >= 0,
    ensures
        chosen(n, p).finite(),
        chosen(n, p).len() <= n,
        n == 0 ==> chosen(n, p).len() == 0,
{
    lemma_int_range(0, n);
    set_int_range(0, n).lemma_len_filter(p);
}

/// Nothing is chosen exactly if the count is zero.
pub proof fn lemma_none_chosen(n: int, p: spec_fn(int) -> bool)
    requires
        n >= 0,
    ensures
        chosen(n, p).len() == 0 <==> forall|i: int| 0 <= i < n ==> !(#[trigger] p(i)),
{
    lemma_chosen_finite(n, p);
    let s = chosen(n, p);
    if s.len() == 0 {
        assert(s =~= Set::empty());
        assert forall|i: int| 0 <= i < n implies !(#[trigger] p(i)) by {
            assert(!s.contains(i));
        }
    } else {
        let i = s.choose();
        assert(s.contains(i));
        assert(p(i));
    }
}

/// Properties that agree on the integers in question choose the same.
pub proof fn lemma_same_choice(n: int, p: spec_fn(int) -> bool, q: spec_fn(int) -> bool)
    requires
        forall|i: int| 0 <= i < n ==> #[trigger] p(i) == q(i),
    ensures
        chosen(n, p) == chosen(n, q),
{
    assert forall|i: int| chosen(n, p).contains(i) == chosen(n, q).contains(i) by {
        if 0 <= i < n {
            assert(p(i) == q(i));
        }
    }
    assert(chosen(n, p) =~= chosen(n, q));
}

} // verus!
