//! How many numbers below a bound have a property.

use vstd::prelude::*;
use vstd::set_lib::set_int_range;

verus! {

/// No number is below 0.
pub proof fn lemma_count_none(f: spec_fn(int) -> bool)
    ensures
        set_int_range(0, 0).filter(f).finite(),
        set_int_range(0, 0).filter(f).len() == 0,
{
    assert(set_int_range(0, 0).filter(f) =~= Set::<int>::empty());
}

/// One number more counts just when it has the property.
pub proof fn lemma_count_next(n: int, f: spec_fn(int) -> bool)
    requires
        n >= 0,
    ensures
        set_int_range(0, n).filter(f).finite(),
        set_int_range(0, n + 1).filter(f).len() == set_int_range(0, n).filter(f).len() + (if f(n) {
            1int
        } else {
            0int
        }),
{
    lemma_count_finite(n, f);
    let less = set_int_range(0, n).filter(f);
    let more = set_int_range(0, n + 1).filter(f);
    if f(n) {
        assert(more =~= less.insert(n));
    } else {
        assert(more =~= less);
    }
}

/// The numbers below a bound are finitely many, and no more than the bound.
pub proof fn lemma_count_finite(n: int, f: spec_fn(int) -> bool)
    requires
        n >= 0,
    ensures
        set_int_range(0, n).filter(f).finite(),
        set_int_range(0, n).filter(f).len() <= n,
{
    vstd::set_lib::lemma_int_range(0, n);
    set_int_range(0, n).lemma_len_filter(f);
}

/// Properties that agree below the bound hold of equally many.
pub proof fn lemma_count_same(n: int, f: spec_fn(int) -> bool, g: spec_fn(int) -> bool)
    requires
        forall|i: int| 0 <= i < n ==> #[trigger] f(i) == g(i),
    ensures
        set_int_range(0, n).filter(f) == set_int_range(0, n).filter(g),
{
    assert(set_int_range(0, n).filter(f) =~= set_int_range(0, n).filter(g));
}

} // verus!
