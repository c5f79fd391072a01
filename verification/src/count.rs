//! Counting the indices below a bound at which a predicate holds.
//!
//! Every tally of the board (flooded cells of a row, cells of a region in a
//! column, undecided cells of the whole grid) is an instance of [`count`].
use vstd::prelude::*;

verus! {

/// The number of indices `k` with `0 <= k < n` at which `p` holds.
pub open spec fn count(n: int, p: spec_fn(int) -> bool) -> nat
    decreases n,
{
    if n <= 0 {
        0
    } else {
        count(n - 1, p) + if p(n - 1) {
            1nat
        } else {
            0nat
        }
    }
}

/// A count never exceeds its bound.
pub proof fn lemma_count_bound(n: int, p: spec_fn(int) -> bool)
    requires
        0 <= n,
    ensures
        count(n, p) <= n,
    decreases n,
{
    if n > 0 {
        lemma_count_bound(n - 1, p);
    }
}

/// A predicate that implies another counts no more than it.
pub proof fn lemma_count_implies(n: int, p: spec_fn(int) -> bool, q: spec_fn(int) -> bool)
    requires
        forall|k: int| 0 <= k < n && #[trigger] p(k) ==> #[trigger] q(k),
    ensures
        count(n, p) <= count(n, q),
    decreases n,
{
    if n > 0 {
        lemma_count_implies(n - 1, p, q);
    }
}

/// A predicate that implies another, and fails at an index where the other
/// holds, counts strictly less.
pub proof fn lemma_count_strict(
    n: int,
    p: spec_fn(int) -> bool,
    q: spec_fn(int) -> bool,
    at: int,
)
    requires
        forall|k: int| 0 <= k < n && #[trigger] p(k) ==> #[trigger] q(k),
        0 <= at < n,
        q(at),
        !p(at),
    ensures
        count(n, p) < count(n, q),
    decreases n,
{
    if at == n - 1 {
        lemma_count_implies(n - 1, p, q);
    } else {
        lemma_count_strict(n - 1, p, q, at);
    }
}

/// The count is zero exactly when the predicate holds nowhere below the bound.
pub proof fn lemma_count_zero(n: int, p: spec_fn(int) -> bool)
    ensures
        count(n, p) == 0 <==> forall|k: int| 0 <= k < n ==> !#[trigger] p(k),
    decreases n,
{
    if n > 0 {
        lemma_count_zero(n - 1, p);
        if count(n, p) == 0 {
            assert forall|k: int| 0 <= k < n implies !#[trigger] p(k) by {
                if k < n - 1 {
                }
            }
        }
    }
}

} // verus!
