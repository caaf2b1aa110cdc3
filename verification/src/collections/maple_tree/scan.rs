//! The first index of a slot range at which a condition holds, the shape of
//! every linear search over a leaf's fixed-size arrays.
use vstd::prelude::*;

verus! {

/// The least `j` with `i <= j < n` at which `stop(j)` holds, or `n` when there
/// is none.
pub open spec fn first_from(i: int, n: int, stop: spec_fn(int) -> bool) -> int
    decreases n - i,
{
    if i >= n {
        n
    } else if stop(i) {
        i
    } else {
        first_from(i + 1, n, stop)
    }
}

/// `first_from` lies in `[i, n]`, stops at a position where the condition holds,
/// and skips only positions where it does not.
pub proof fn lemma_first_from(i: int, n: int, stop: spec_fn(int) -> bool)
    requires
        i <= n,
    ensures
        i <= first_from(i, n, stop) <= n,
        first_from(i, n, stop) < n ==> stop(first_from(i, n, stop)),
        forall|j: int| i <= j < first_from(i, n, stop) ==> !#[trigger] stop(j),
    decreases n - i,
{
    if i < n && !stop(i) {
        lemma_first_from(i + 1, n, stop);
    }
}

/// Any `r` in `[i, n]` at which the scan would stop, with no earlier stop, is
/// `first_from(i, n, stop)`.
pub proof fn lemma_first_from_is(i: int, n: int, stop: spec_fn(int) -> bool, r: int)
    requires
        i <= r <= n,
        r < n ==> stop(r),
        forall|j: int| i <= j < r ==> !#[trigger] stop(j),
    ensures
        first_from(i, n, stop) == r,
    decreases n - i,
{
    if i < r {
        lemma_first_from_is(i + 1, n, stop, r);
    }
}

} // verus!
