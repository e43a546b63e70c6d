//! Sums over sequences, for termination arguments.

use vstd::prelude::*;

verus! {

/// The sum of a sequence of naturals.
pub open spec fn total(s: Seq<nat>) -> nat
    decreases s.len(),
{
    if s.len() == 0 {
        0
    } else {
        total(s.drop_last()) + s.last()
    }
}

/// Pointwise smaller sequences have smaller sums.
pub proof fn lemma_total_le(a: Seq<nat>, b: Seq<nat>)
    requires
        a.len() == b.len(),
        forall|i: int| 0 <= i < a.len() ==> #[trigger] a[i] <= b[i],
    ensures
        total(a) <= total(b),
    decreases a.len(),
{
    if a.len() > 0 {
        assert forall|i: int| 0 <= i < a.drop_last().len() implies #[trigger] a.drop_last()[i]
            <= b.drop_last()[i] by {
            assert(a[i] <= b[i]);
        }
        lemma_total_le(a.drop_last(), b.drop_last());
        assert(a[a.len() - 1] <= b[b.len() - 1]);
    }
}

/// Strictly smaller somewhere, smaller nowhere: a strictly smaller sum.
pub proof fn lemma_total_lt(a: Seq<nat>, b: Seq<nat>, k: int)
    requires
        a.len() == b.len(),
        forall|i: int| 0 <= i < a.len() ==> #[trigger] a[i] <= b[i],
        0 <= k < a.len(),
        a[k] < b[k],
    ensures
        total(a) < total(b),
    decreases a.len(),
{
    let x = a.drop_last();
    let y = b.drop_last();
    assert forall|i: int| 0 <= i < x.len() implies #[trigger] x[i] <= y[i] by {
        assert(a[i] <= b[i]);
    }
    assert(a[a.len() - 1] <= b[b.len() - 1]);
    if k == a.len() - 1 {
        lemma_total_le(x, y);
    } else {
        lemma_total_lt(x, y, k);
    }
}

} // verus!
