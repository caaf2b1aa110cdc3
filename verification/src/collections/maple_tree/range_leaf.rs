//! A leaf that maps ranges of keys to values. Up to `R_CAPACITY` pivots split
//! the node's key span `[min, max]` into `CAPACITY` ranges: range 0 runs from
//! `min` to the first pivot, range `i` from pivot `i - 1` to pivot `i`, and the
//! last from the last pivot to `max`. `value[i]` belongs to range `i`. Used
//! pivots sit in front; an unused pivot slot is `None`.
use vstd::prelude::*;
use super::{CAPACITY, R_CAPACITY};
use super::scan::{first_from, lemma_first_from, lemma_first_from_is};
use super::laws::{law_insert_range_maps_range, lemma_ordered_count};

verus! {

/// A range leaf: `pivot[i]` is the upper bound of range `i` and the lower bound
/// of range `i + 1`; `value[i]` is the value of range `i`.
#[derive(Debug)]
pub struct RangeLeaf<V> {
    pub pivot: [Option<usize>; R_CAPACITY],
    pub value: [Option<V>; CAPACITY],
}

/// The condition "pivot slot `j` is unused".
pub open spec fn is_unused(p: Seq<Option<usize>>) -> spec_fn(int) -> bool {
    |j: int| p[j] is None
}

/// Number of used pivots before the first unused pivot slot.
pub open spec fn pivot_count(p: Seq<Option<usize>>) -> int {
    first_from(0, R_CAPACITY as int, is_unused(p))
}

/// No pivot slot after the first unused one is used.
pub open spec fn pivots_compact(p: Seq<Option<usize>>) -> bool {
    forall|j: int| pivot_count(p) <= j < R_CAPACITY ==> #[trigger] p[j] is None
}

/// The pivots are compact and strictly increasing.
pub open spec fn pivots_ordered(p: Seq<Option<usize>>) -> bool {
    &&& pivots_compact(p)
    &&& forall|i: int, j: int|
        0 <= i < j < pivot_count(p) ==> #[trigger] p[i]->0 < #[trigger] p[j]->0
}

/// The condition "pivot slot `j` is unused or its pivot is above `lo`".
pub open spec fn passes_lower(p: Seq<Option<usize>>, lo: usize) -> spec_fn(int) -> bool {
    |j: int| p[j] is None || lo < p[j]->0
}

/// The condition "pivot slot `j` is unused or its pivot is at least `hi`".
pub open spec fn reaches_upper(p: Seq<Option<usize>>, hi: usize) -> spec_fn(int) -> bool {
    |j: int| p[j] is None || hi <= p[j]->0
}

/// The first pivot slot, scanning from the front, that is unused or whose pivot
/// is above `lo`: the number of the range in which `lo` lies.
pub open spec fn lower_stop(p: Seq<Option<usize>>, lo: usize) -> int {
    first_from(0, R_CAPACITY as int, passes_lower(p, lo))
}

/// The first pivot slot from `lower_stop` on that is unused or whose pivot is
/// at least `hi`: the number of the range in which the range ending at `hi`
/// ends.
pub open spec fn upper_stop(p: Seq<Option<usize>>, lo: usize, hi: usize) -> int {
    first_from(lower_stop(p, lo), R_CAPACITY as int, reaches_upper(p, hi))
}

/// The pivot index below the range `[lo, hi)`, `-1` when that bound is `min`.
pub open spec fn range_start(p: Seq<Option<usize>>, lo: usize) -> int {
    lower_stop(p, lo) - 1
}

/// The pivot index above the range `[lo, hi)`, `R_CAPACITY` when that bound is
/// `max`.
pub open spec fn range_end(p: Seq<Option<usize>>, lo: usize, hi: usize) -> int {
    upper_stop(p, lo, hi)
}

/// `move_pivots_left` accepts the move.
pub open spec fn move_left_fits(pivot_index: int, places: int) -> bool {
    pivot_index < R_CAPACITY && places <= R_CAPACITY && pivot_index - places >= 0
}

/// The slots from `from` up to `upto` moved `places` to the left, each slot at
/// or above `from` that nothing moved into left empty. Slots at or above `upto`
/// are untouched.
pub open spec fn moved_left<T>(s: Seq<Option<T>>, from: int, places: int, upto: int) -> Seq<Option<T>> {
    Seq::new(
        s.len(),
        |k: int|
            if from - places <= k < upto - places {
                s[k + places]
            } else if from <= k < upto {
                None
            } else {
                s[k]
            },
    )
}

/// `move_pivots_right` accepts the move.
pub open spec fn move_right_fits(p: Seq<Option<usize>>, pivot_index: int, places: int) -> bool {
    places == 0 || (R_CAPACITY - pivot_count(p) >= places && pivot_index < R_CAPACITY - 1
        && pivot_index + places <= R_CAPACITY)
}

/// What a right move leaves in the vacated slot `j - 1`: moving the slots below
/// `n` from the top down, each slot takes what the previous step pushed out of
/// its target, starting from nothing at `n`.
pub open spec fn displaced<T>(s: Seq<Option<T>>, j: int, places: nat, n: int) -> Option<T>
    decreases n - j,
{
    if j >= n {
        None
    } else if j + places < n {
        displaced(s, j + places + 1, places, n)
    } else {
        s[j + places]
    }
}

/// The slots from `from` up to the `n` used pivots moved `places` to the right;
/// each vacated slot holds what the move pushed out of a target slot.
pub open spec fn moved_right<T>(s: Seq<Option<T>>, from: int, places: nat, n: int) -> Seq<Option<T>> {
    Seq::new(
        s.len(),
        |k: int|
            if from <= k - places < n {
                s[k - places]
            } else if from <= k < n {
                displaced(s, k + 1, places, n)
            } else {
                s[k]
            },
    )
}

/// `pivot_count` is the length of the run of used pivots at the front.
pub proof fn lemma_pivot_count(p: Seq<Option<usize>>)
    ensures
        0 <= pivot_count(p) <= R_CAPACITY,
        pivot_count(p) < R_CAPACITY ==> p[pivot_count(p)] is None,
        forall|j: int| 0 <= j < pivot_count(p) ==> #[trigger] p[j] is Some,
{
    lemma_first_from(0, R_CAPACITY as int, is_unused(p));
    assert forall|j: int| 0 <= j < pivot_count(p) implies #[trigger] p[j] is Some by {
        assert(!is_unused(p)(j));
    }
}

/// One step of a right move, at slot `q - 1`, turns the move from `q` into the
/// move from `q - 1`.
pub proof fn lemma_moved_right_step<T>(s: Seq<Option<T>>, q: int, places: nat, n: int)
    requires
        1 <= q <= n,
        places >= 1,
        n + places <= s.len(),
    ensures
        moved_right(s, q, places, n)[q - 1] == s[q - 1],
        moved_right(s, q, places, n)[q - 1 + places] == displaced(s, q - 1, places, n),
        moved_right(s, q - 1, places, n) == moved_right(s, q, places, n).update(
            q - 1,
            displaced(s, q, places, n),
        ).update(q - 1 + places, s[q - 1]),
{
    let a = moved_right(s, q, places, n);
    let b = moved_right(s, q - 1, places, n);
    assert(b =~= a.update(q - 1, displaced(s, q, places, n)).update(q - 1 + places, s[q - 1]));
}


/// `b` holds the value of `a`, or a clone of it; both are empty or neither is.
pub open spec fn clone_of<V: Clone>(a: Option<V>, b: Option<V>) -> bool {
    match a {
        None => b is None,
        Some(x) => b is Some && vstd::pervasive::cloned(x, b->0),
    }
}

/// `1` when `b` holds, else `0`.
pub open spec fn count_if(b: bool) -> int {
    if b {
        1
    } else {
        0
    }
}

/// Number of used pivots among the first `n` slots that are below `bound`.
pub open spec fn pivots_below(p: Seq<Option<usize>>, n: int, bound: int) -> nat
    decreases n,
{
    if n <= 0 {
        0
    } else {
        pivots_below(p, n - 1, bound) + if p[n - 1] is Some && p[n - 1]->0 < bound {
            1nat
        } else {
            0nat
        }
    }
}

/// A count over slots whose condition holds on a prefix of `m` slots only.
pub proof fn lemma_pivots_below_front(p: Seq<Option<usize>>, m: int, n: int, bound: int)
    requires
        0 <= m <= n,
        forall|j: int| 0 <= j < m ==> #[trigger] p[j] is Some && p[j]->0 < bound,
        forall|j: int| m <= j < n ==> !(#[trigger] p[j] is Some && p[j]->0 < bound),
    ensures
        pivots_below(p, n, bound) == m,
    decreases n,
{
    if n > m {
        lemma_pivots_below_front(p, m, n - 1, bound);
    } else if n > 0 {
        lemma_pivots_below_front(p, n - 1, n - 1, bound);
    }
}

/// The value of the range holding key `x`: range `i` holds the keys from the
/// `i`-th used pivot (or `min`) up to the next, so `x` lies in the range whose
/// number is the count of used pivots at most `x`.
pub open spec fn value_at<V>(p: Seq<Option<usize>>, v: Seq<Option<V>>, x: usize) -> Option<V> {
    v[pivots_below(p, R_CAPACITY as int, x + 1) as int]
}

/// An insertion of `[lo, hi)` adds `lo` as a pivot: it is not already the
/// bound below the range in which it lies.
pub open spec fn adds_lower(p: Seq<Option<usize>>, lo: usize, min: usize) -> bool {
    let a = lower_stop(p, lo);
    lo != if a == 0 {
        min
    } else {
        p[a - 1]->0
    }
}

/// An insertion of `[lo, hi)` adds `hi` as a pivot: it is not already the
/// pivot that ends the range. A pivot at `max` bounds no key below `max`, so it
/// is added only where there is room for it.
pub open spec fn adds_upper(p: Seq<Option<usize>>, lo: usize, hi: usize, min: usize, max: usize) -> bool {
    let a = lower_stop(p, lo);
    let e = upper_stop(p, lo, hi);
    if e < pivot_count(p) {
        hi != p[e]->0
    } else {
        hi != max || a + count_if(adds_lower(p, lo, min)) < R_CAPACITY
    }
}

/// Number of pivots after inserting `[lo, hi)`: those below `lo`'s range, the
/// new bounds, and those from the end of the range on.
pub open spec fn inserted_pivot_count(p: Seq<Option<usize>>, lo: usize, hi: usize, min: usize, max: usize) -> int {
    lower_stop(p, lo) + count_if(adds_lower(p, lo, min)) + count_if(adds_upper(p, lo, hi, min, max))
        + (pivot_count(p) - upper_stop(p, lo, hi))
}

/// The insertion of `[lo, hi)` is accepted: the new pivots fit in the pivot
/// slots, and a range running past the last pivot of a full leaf ends at
/// `max`, since the leaf has no slot for a new upper bound there.
pub open spec fn range_fits(p: Seq<Option<usize>>, lo: usize, hi: usize, min: usize, max: usize) -> bool {
    &&& inserted_pivot_count(p, lo, hi, min, max) <= R_CAPACITY
    &&& !(upper_stop(p, lo, hi) == R_CAPACITY && hi != max)
}

/// Where the new range sits after inserting `[lo, hi)`: its value slot, and the
/// pivot slot of `hi` when `hi` is added.
pub open spec fn new_range_slot(p: Seq<Option<usize>>, lo: usize, min: usize) -> int {
    lower_stop(p, lo) + count_if(adds_lower(p, lo, min))
}

/// The first pivot slot after the new bounds, where the kept pivots from the
/// end of the range on start.
pub open spec fn kept_tail_start(p: Seq<Option<usize>>, lo: usize, hi: usize, min: usize, max: usize) -> int {
    new_range_slot(p, lo, min) + count_if(adds_upper(p, lo, hi, min, max))
}

/// The pivots after inserting `[lo, hi)`: the pivots below `lo`'s range, `lo`
/// and `hi` where they are added, then the pivots from the end of the range on;
/// the pivots in between are dropped and the remaining slots are unused.
#[verifier::opaque]
pub open spec fn inserted_pivots(p: Seq<Option<usize>>, lo: usize, hi: usize, min: usize, max: usize) -> Seq<Option<usize>> {
    let a = lower_stop(p, lo);
    let e = upper_stop(p, lo, hi);
    let m = new_range_slot(p, lo, min);
    let c = kept_tail_start(p, lo, hi, min, max);
    Seq::new(
        R_CAPACITY as nat,
        |k: int|
            if k < a {
                p[k]
            } else if k == a && adds_lower(p, lo, min) {
                Some(lo)
            } else if k == m && adds_upper(p, lo, hi, min, max) {
                Some(hi)
            } else if c <= k < c + pivot_count(p) - e {
                p[k - c + e]
            } else {
                None
            },
    )
}

/// The values after inserting `[lo, hi)` mapped to `val`: the values of the
/// ranges below `lo`'s range, the old value for the part of that range below
/// `lo` when `lo` is added, `val`, the old value for the part of the last
/// covered range from `hi` on when `hi` is added, then the values of the ranges
/// after it; the remaining slots are empty.
#[verifier::opaque]
pub open spec fn inserted_values<V>(
    p: Seq<Option<usize>>,
    v: Seq<Option<V>>,
    lo: usize,
    hi: usize,
    val: V,
    min: usize,
    max: usize,
) -> Seq<Option<V>> {
    let a = lower_stop(p, lo);
    let e = upper_stop(p, lo, hi);
    let m = new_range_slot(p, lo, min);
    let c = kept_tail_start(p, lo, hi, min, max);
    Seq::new(
        CAPACITY as nat,
        |k: int|
            if k < a {
                v[k]
            } else if k == a && adds_lower(p, lo, min) {
                v[a]
            } else if k == m {
                Some(val)
            } else if k == m + 1 && adds_upper(p, lo, hi, min, max) {
                v[e]
            } else if c + 1 <= k < c + 1 + pivot_count(p) - e {
                v[k - c + e]
            } else {
                None
            },
    )
}

/// The slot whose value an insertion of `[lo, hi)` must duplicate, or `-1`:
/// when `lo` and `hi` both split one range, its value goes to both ends.
pub open spec fn cloned_slot(p: Seq<Option<usize>>, lo: usize, hi: usize, min: usize, max: usize) -> int {
    if adds_lower(p, lo, min) && adds_upper(p, lo, hi, min, max) && lower_stop(p, lo) == upper_stop(
        p,
        lo,
        hi,
    ) {
        lower_stop(p, lo)
    } else {
        -1
    }
}

/// The leaf went from `old_p`, `old_v` to `new_p`, `new_v` by inserting
/// `[lo, hi) -> val` in a node spanning `[min, max]`, answering `r`: refused,
/// changing nothing, when the new pivots do not fit; otherwise laid out as
/// `inserted_pivots` and `inserted_values`, the duplicated value a clone.
pub open spec fn range_inserted<V: Clone>(
    old_p: Seq<Option<usize>>,
    old_v: Seq<Option<V>>,
    new_p: Seq<Option<usize>>,
    new_v: Seq<Option<V>>,
    r: bool,
    lo: usize,
    hi: usize,
    val: V,
    min: usize,
    max: usize,
) -> bool {
    &&& r == range_fits(old_p, lo, hi, min, max)
    &&& !r ==> new_p == old_p && new_v == old_v
    &&& r ==> new_p == inserted_pivots(old_p, lo, hi, min, max)
    &&& r ==> forall|k: int|
        0 <= k < CAPACITY && k != cloned_slot(old_p, lo, hi, min, max) ==> #[trigger] new_v[k]
            == inserted_values(old_p, old_v, lo, hi, val, min, max)[k]
    &&& r && cloned_slot(old_p, lo, hi, min, max) >= 0 ==> clone_of(
        inserted_values(old_p, old_v, lo, hi, val, min, max)[cloned_slot(old_p, lo, hi, min, max)],
        new_v[cloned_slot(old_p, lo, hi, min, max)],
    )
}

/// After inserting `[lo, hi) -> val`, every key of the node below `max` in
/// `[lo, hi)` maps to `val` and every other keeps its value (or a clone of it).
pub open spec fn maps_range<V: Clone>(
    old_p: Seq<Option<usize>>,
    old_v: Seq<Option<V>>,
    new_p: Seq<Option<usize>>,
    new_v: Seq<Option<V>>,
    lo: usize,
    hi: usize,
    val: V,
    min: usize,
    max: usize,
) -> bool {
    forall|x: usize|
        min <= x < max ==> clone_of(
            if lo <= x < hi {
                Some(val)
            } else {
                value_at(old_p, old_v, x)
            },
            #[trigger] value_at(new_p, new_v, x),
        )
}

/// `num::one` for `usize`: num-traits implements `One` for `usize` as `1`.
#[verifier::external_body]
fn key_one() -> (r: usize)
    ensures
        r == 1,
{
    num::one::<usize>()
}



/// The layout of an insertion, slot by slot (`inserted_pivots` and
/// `inserted_values` spelled out).
pub proof fn lemma_insertion_layout<V>(
    p: Seq<Option<usize>>,
    v: Seq<Option<V>>,
    lo: usize,
    hi: usize,
    val: V,
    min: usize,
    max: usize,
)
    ensures
        ({
            let q = inserted_pivots(p, lo, hi, min, max);
            let w = inserted_values(p, v, lo, hi, val, min, max);
            let a = lower_stop(p, lo);
            let e = upper_stop(p, lo, hi);
            let m = new_range_slot(p, lo, min);
            let c = kept_tail_start(p, lo, hi, min, max);
            let t = c + pivot_count(p) - e;
            &&& q.len() == R_CAPACITY
            &&& w.len() == CAPACITY
            &&& forall|k: int| 0 <= k < a && k < R_CAPACITY ==> #[trigger] q[k] == p[k]
            &&& forall|k: int| 0 <= k < a && k < CAPACITY ==> #[trigger] w[k] == v[k]
            &&& adds_lower(p, lo, min) && a < R_CAPACITY ==> q[a] == Some(lo)
            &&& adds_lower(p, lo, min) && a < CAPACITY ==> w[a] == v[a]
            &&& 0 <= m < CAPACITY ==> w[m] == Some(val)
            &&& adds_upper(p, lo, hi, min, max) && 0 <= m < R_CAPACITY ==> q[m] == Some(hi)
            &&& adds_upper(p, lo, hi, min, max) && 0 <= m + 1 < CAPACITY ==> w[m + 1] == v[e]
            &&& forall|k: int| 0 <= c <= k < t && k < R_CAPACITY ==> #[trigger] q[k] == p[k - c + e]
            &&& forall|k: int| 0 <= c + 1 <= k < t + 1 && k < CAPACITY ==> #[trigger] w[k] == v[k - c + e]
            &&& forall|k: int| 0 <= t <= k < R_CAPACITY && a <= k && c <= k ==> #[trigger] q[k] is None
            &&& forall|k: int| 0 <= t + 1 <= k < CAPACITY && a < k && c < k ==> #[trigger] w[k] is None
        }),
{
    reveal(inserted_pivots);
    reveal(inserted_values);
    lemma_first_from(0, R_CAPACITY as int, passes_lower(p, lo));
}


/// Values laid out as an insertion of `[lo, hi) -> val` into ordered pivots
/// prescribes, up to a clone in the duplicated slot, map the range as
/// `maps_range` says.
pub proof fn lemma_insertion_maps_range<V: Clone>(
    p: Seq<Option<usize>>,
    v: Seq<Option<V>>,
    new_v: Seq<Option<V>>,
    lo: usize,
    hi: usize,
    val: V,
    min: usize,
    max: usize,
)
    requires
        p.len() == R_CAPACITY,
        v.len() == CAPACITY,
        pivots_ordered(p),
        min <= lo < hi <= max,
        range_fits(p, lo, hi, min, max),
        forall|k: int|
            0 <= k < CAPACITY && k != cloned_slot(p, lo, hi, min, max) ==> #[trigger] new_v[k]
                == inserted_values(p, v, lo, hi, val, min, max)[k],
        cloned_slot(p, lo, hi, min, max) >= 0 ==> clone_of(
            inserted_values(p, v, lo, hi, val, min, max)[cloned_slot(p, lo, hi, min, max)],
            new_v[cloned_slot(p, lo, hi, min, max)],
        ),
    ensures
        pivots_ordered(inserted_pivots(p, lo, hi, min, max)),
        maps_range(p, v, inserted_pivots(p, lo, hi, min, max), new_v, lo, hi, val, min, max),
{
    let q = inserted_pivots(p, lo, hi, min, max);
    let w = inserted_values(p, v, lo, hi, val, min, max);
    law_insert_range_maps_range(p, v, lo, hi, val, min, max);
    lemma_insertion_layout(p, v, lo, hi, val, min, max);
    assert forall|x: usize| min <= x < max implies clone_of(
        if lo <= x < hi {
            Some(val)
        } else {
            value_at(p, v, x)
        },
        #[trigger] value_at(q, new_v, x),
    ) by {
        lemma_ordered_count(q, x);
        lemma_first_from(0, R_CAPACITY as int, passes_lower(q, x));
        let k = pivots_below(q, R_CAPACITY as int, x + 1) as int;
        assert(value_at(q, w, x) == w[k]);
        lemma_clone_of_itself(w[k]);
    }
}

/// An option is a clone of itself.
pub proof fn lemma_clone_of_itself<V: Clone>(a: Option<V>)
    ensures
        clone_of(a, a),
{
}

/// Where the scans of an insertion stop: `lo`'s range starts after the pivots
/// at most `lo`, the range ends at the first pivot at least `hi`, both within
/// the used pivots.
pub proof fn lemma_insertion_bounds(p: Seq<Option<usize>>, lo: usize, hi: usize)
    requires
        p.len() == R_CAPACITY,
    ensures
        0 <= lower_stop(p, lo) <= upper_stop(p, lo, hi) <= pivot_count(p) <= R_CAPACITY,
        forall|j: int| 0 <= j < pivot_count(p) ==> #[trigger] p[j] is Some,
        forall|j: int| 0 <= j < lower_stop(p, lo) ==> #[trigger] p[j]->0 <= lo,
        lower_stop(p, lo) < pivot_count(p) ==> lo < p[lower_stop(p, lo)]->0,
        forall|j: int| lower_stop(p, lo) <= j < upper_stop(p, lo, hi) ==> #[trigger] p[j]->0 < hi,
        upper_stop(p, lo, hi) < pivot_count(p) ==> hi <= p[upper_stop(p, lo, hi)]->0,
{
    let a = lower_stop(p, lo);
    let e = upper_stop(p, lo, hi);
    let n = pivot_count(p);
    lemma_pivot_count(p);
    lemma_first_from(0, R_CAPACITY as int, passes_lower(p, lo));
    lemma_first_from(a, R_CAPACITY as int, reaches_upper(p, hi));
    if a > n {
        assert(!passes_lower(p, lo)(n));
    }
    if e > n {
        assert(!reaches_upper(p, hi)(n));
    }
    assert forall|j: int| 0 <= j < a implies #[trigger] p[j]->0 <= lo by {
        assert(!passes_lower(p, lo)(j));
    }
    assert forall|j: int| a <= j < e implies #[trigger] p[j]->0 < hi by {
        assert(!reaches_upper(p, hi)(j));
    }
}

impl<V: Clone> RangeLeaf<V> {
    /// An empty leaf: no pivots, no values.
    pub fn new() -> (leaf: Self)
        ensures
            forall|i: int| 0 <= i < R_CAPACITY ==> leaf.pivot@[i] is None,
            forall|i: int| 0 <= i < CAPACITY ==> leaf.value@[i] is None,
    {
        RangeLeaf {
            pivot: [None, None, None, None, None, None, None],
            value: [None, None, None, None, None, None, None, None],
        }
    }

    /// The number of used pivots: the run of used slots at the front.
    pub fn len(&mut self) -> (r: usize)
        ensures
            *final(self) == *old(self),
            r == pivot_count(old(self).pivot@),
    {
        let ghost p = self.pivot@;
        let mut count: usize = 0;
        while count < R_CAPACITY && self.pivot[count].is_some()
            invariant
                0 <= count <= R_CAPACITY,
                *self == *old(self),
                p == self.pivot@,
                forall|j: int| 0 <= j < count ==> !#[trigger] is_unused(p)(j),
            decreases R_CAPACITY - count,
        {
            count += 1;
        }
        proof {
            lemma_first_from_is(0, R_CAPACITY as int, is_unused(p), count as int);
        }
        count
    }

    /// Moves the pivots and values in slots `pivot_index` up to `R_CAPACITY`
    /// `places` slots to the left, emptying what they leave. Refuses, changing
    /// nothing, when `pivot_index` is not a pivot slot, `places` exceeds
    /// `R_CAPACITY`, or the move would pass slot 0. The last value slot does
    /// not move.
    pub fn move_pivots_left(&mut self, pivot_index: usize, places: usize) -> (r: bool)
        ensures
            r == move_left_fits(pivot_index as int, places as int),
            r ==> final(self).pivot@ == moved_left(old(self).pivot@, pivot_index as int, places as int, R_CAPACITY as int),
            r ==> final(self).value@ == moved_left(old(self).value@, pivot_index as int, places as int, R_CAPACITY as int),
            !r ==> *final(self) == *old(self),
    {
        if pivot_index >= R_CAPACITY || places > R_CAPACITY {
            return false;
        }
        if (pivot_index as isize) - (places as isize) < 0 {
            return false;
        }
        let ghost p0 = self.pivot@;
        let ghost v0 = self.value@;
        let mut pivot_holder: Option<usize> = None;
        let mut value_holder: Option<V> = None;
        let mut i: usize = pivot_index;
        proof {
            assert(self.pivot@ =~= moved_left(p0, pivot_index as int, places as int, i as int));
            assert(self.value@ =~= moved_left(v0, pivot_index as int, places as int, i as int));
        }
        while i < R_CAPACITY
            invariant
                pivot_index <= i <= R_CAPACITY,
                places <= pivot_index < R_CAPACITY,
                p0.len() == R_CAPACITY,
                v0.len() == CAPACITY,
                self.pivot@ == moved_left(p0, pivot_index as int, places as int, i as int),
                self.value@ == moved_left(v0, pivot_index as int, places as int, i as int),
                pivot_holder is None,
                value_holder is None,
            decreases R_CAPACITY - i,
        {
            let ghost pa = self.pivot@;
            let ghost va = self.value@;
            std::mem::swap(&mut self.pivot[i], &mut pivot_holder);
            std::mem::swap(&mut self.value[i], &mut value_holder);
            std::mem::swap(&mut self.pivot[i - places], &mut pivot_holder);
            std::mem::swap(&mut self.value[i - places], &mut value_holder);
            pivot_holder = None;
            value_holder = None;
            proof {
                assert(pa[i as int] == p0[i as int]);
                assert(va[i as int] == v0[i as int]);
                assert(self.pivot@ =~= moved_left(p0, pivot_index as int, places as int, i + 1));
                assert(self.value@ =~= moved_left(v0, pivot_index as int, places as int, i + 1));
            }
            i += 1;
        }
        true
    }

    /// Moves the pivots (and their values) from slot `pivot_index` up to the
    /// first unused slot `places` slots to the right. Refuses, changing nothing,
    /// when fewer than `places` slots are unused, `pivot_index` is one of the
    /// last two slots, or the move would push a pivot off the end. A move of
    /// zero places succeeds and changes nothing.
    pub fn move_pivots_right(&mut self, pivot_index: usize, places: usize) -> (r: bool)
        ensures
            r == move_right_fits(old(self).pivot@, pivot_index as int, places as int),
            r ==> final(self).pivot@ == moved_right(
                old(self).pivot@,
                pivot_index as int,
                places as nat,
                pivot_count(old(self).pivot@),
            ),
            r ==> final(self).value@ == moved_right(
                old(self).value@,
                pivot_index as int,
                places as nat,
                pivot_count(old(self).pivot@),
            ),
            !r ==> *final(self) == *old(self),
    {
        let ghost p0 = self.pivot@;
        let ghost v0 = self.value@;
        let ghost n = pivot_count(p0);
        if places == 0 {
            proof {
                assert(self.pivot@ =~= moved_right(p0, pivot_index as int, 0, n));
                assert(self.value@ =~= moved_right(v0, pivot_index as int, 0, n));
            }
            return true;
        }
        proof {
            lemma_pivot_count(p0);
        }
        let free_pivots = R_CAPACITY - self.len();
        if free_pivots < places {
            return false;
        } else if pivot_index >= R_CAPACITY - 1 {
            return false;
        } else if pivot_index + places > R_CAPACITY {
            return false;
        }
        let mut pivot_holder: Option<usize> = None;
        let mut value_holder: Option<V> = None;
        let last_index = R_CAPACITY - free_pivots;
        let ghost mut q: int = n;
        proof {
            assert(self.pivot@ =~= moved_right(p0, q, places as nat, n));
            assert(self.value@ =~= moved_right(v0, q, places as nat, n));
        }
        let mut i: usize = 0;
        while i < last_index + 1
            invariant
                last_index == n,
                0 <= n,
                n + places <= R_CAPACITY,
                places >= 1,
                pivot_index < R_CAPACITY - 1,
                0 <= i <= n + 1,
                p0.len() == R_CAPACITY,
                v0.len() == CAPACITY,
                forall|j: int| 0 <= j < n ==> #[trigger] p0[j] is Some,
                p0[n] is None,
                q <= n,
                i == 0 ==> q == n,
                i >= 1 && n + 1 - i >= pivot_index ==> q == n + 1 - i,
                i >= 1 && n + 1 - i < pivot_index ==> q == if pivot_index <= n {
                    pivot_index as int
                } else {
                    n
                },
                self.pivot@ == moved_right(p0, q, places as nat, n),
                self.value@ == moved_right(v0, q, places as nat, n),
                pivot_holder == displaced(p0, q, places as nat, n),
                value_holder == displaced(v0, q, places as nat, n),
            decreases n + 1 - i,
        {
            let idx = last_index - i;
            if idx >= pivot_index {
                if self.pivot[idx].is_some() {
                    proof {
                        assert(idx < n);
                        assert(q == idx + 1);
                        lemma_moved_right_step(p0, q, places as nat, n);
                        lemma_moved_right_step(v0, q, places as nat, n);
                    }
                    std::mem::swap(&mut pivot_holder, &mut self.pivot[idx]);
                    std::mem::swap(&mut pivot_holder, &mut self.pivot[idx + places]);
                    std::mem::swap(&mut value_holder, &mut self.value[idx]);
                    std::mem::swap(&mut value_holder, &mut self.value[idx + places]);
                    proof {
                        q = q - 1;
                        assert(self.pivot@ =~= moved_right(p0, q, places as nat, n));
                        assert(self.value@ =~= moved_right(v0, q, places as nat, n));
                    }
                } else {
                    proof {
                        if idx < q {
                            assert(self.pivot@[idx as int] == p0[idx as int]);
                        }
                    }
                }
            }
            i += 1;
        }
        proof {
            assert(self.pivot@ =~= moved_right(p0, pivot_index as int, places as nat, n));
            assert(self.value@ =~= moved_right(v0, pivot_index as int, places as nat, n));
        }
        true
    }

    /// The pivot indices around the range `[range_lower, range_upper)`: `start`
    /// is the pivot below the range's first key (`-1` for the node's minimum)
    /// and `end` the first pivot at or above `range_upper` (`R_CAPACITY` for the
    /// node's maximum, or the first unused slot). The range may span several of
    /// the leaf's ranges. `min` and `max` are not consulted.
    pub fn find_range(&mut self, range_lower: &usize, range_upper: &usize, min: &usize, max: &usize) -> (r: std::ops::Range<isize>)
        ensures
            *final(self) == *old(self),
            r.start == range_start(old(self).pivot@, *range_lower),
            r.end == range_end(old(self).pivot@, *range_lower, *range_upper),
    {
        let ghost p = self.pivot@;
        let ghost lo_stop = lower_stop(p, *range_lower);
        proof {
            lemma_first_from(0, R_CAPACITY as int, passes_lower(p, *range_lower));
            lemma_first_from(lo_stop, R_CAPACITY as int, reaches_upper(p, *range_upper));
        }
        // the range number B in which range_lower lies, plus one
        let mut range_b: usize = 0;
        let mut index: isize = 0;
        let mut set = false;
        let mut is_none = false;
        let mut i: usize = 0;
        while i < R_CAPACITY && !set && !is_none
            invariant
                0 <= i <= R_CAPACITY,
                *self == *old(self),
                p == self.pivot@,
                lo_stop == lower_stop(p, *range_lower),
                !set && !is_none ==> forall|j: int| 0 <= j < i ==> !#[trigger] passes_lower(p, *range_lower)(j),
                set ==> !is_none && i >= 1 && lo_stop == i - 1 && range_b == i && p[i - 1] is Some,
                is_none ==> !set && i >= 1 && lo_stop == i - 1 && index == i - 1 && p[i - 1] is None,
            decreases R_CAPACITY - i,
        {
            index = i as isize;
            match self.pivot[i] {
                Some(b2) => {
                    if *range_lower < b2 {
                        proof {
                            lemma_first_from_is(0, R_CAPACITY as int, passes_lower(p, *range_lower), i as int);
                        }
                        range_b = i + 1;
                        set = true;
                    }
                },
                None => {
                    proof {
                        lemma_first_from_is(0, R_CAPACITY as int, passes_lower(p, *range_lower), i as int);
                    }
                    is_none = true;
                },
            }
            i += 1;
        }
        if !set {
            if is_none {
                return std::ops::Range { start: (index - 1) as isize, end: index as isize };
            } else {
                proof {
                    lemma_first_from_is(0, R_CAPACITY as int, passes_lower(p, *range_lower), R_CAPACITY as int);
                }
                return std::ops::Range { start: (R_CAPACITY - 1) as isize, end: R_CAPACITY as isize };
            }
        }
        // the range starts in range B; find the pivot at or above range_upper
        let mut i: usize = range_b - 1;
        while i < R_CAPACITY
            invariant
                range_b - 1 <= i <= R_CAPACITY,
                1 <= range_b <= R_CAPACITY,
                lo_stop == range_b - 1,
                lo_stop == lower_stop(p, *range_lower),
                p[range_b - 1] is Some,
                *self == *old(self),
                p == self.pivot@,
                forall|j: int| range_b - 1 <= j < i ==> !#[trigger] reaches_upper(p, *range_upper)(j),
            decreases R_CAPACITY - i,
        {
            match self.pivot[i] {
                Some(b2) => {
                    if *range_upper <= b2 {
                        proof {
                            lemma_first_from_is(lo_stop, R_CAPACITY as int, reaches_upper(p, *range_upper), i as int);
                        }
                        if range_b == 1 {
                            return std::ops::Range { start: -1, end: i as isize };
                        }
                        return std::ops::Range { start: (range_b - 2) as isize, end: i as isize };
                    }
                },
                None => {
                    proof {
                        lemma_first_from_is(lo_stop, R_CAPACITY as int, reaches_upper(p, *range_upper), i as int);
                    }
                    if range_b == 1 {
                        return std::ops::Range { start: -1, end: i as isize };
                    }
                    return std::ops::Range { start: (range_b - 2) as isize, end: i as isize };
                },
            }
            i += 1;
        }
        proof {
            lemma_first_from_is(lo_stop, R_CAPACITY as int, reaches_upper(p, *range_upper), R_CAPACITY as int);
        }
        if range_b == 1 {
            std::ops::Range { start: -1, end: R_CAPACITY as isize }
        } else {
            std::ops::Range { start: (range_b - 2) as isize, end: R_CAPACITY as isize }
        }
    }

    /// Maps the single key `key` to `value`: inserts the range
    /// `[key, key + 1)` (see `insert_range`).
    pub fn insert(&mut self, key: usize, value: V, min: &usize, max: &usize) -> (r: bool)
        requires
            key < usize::MAX,
        ensures
            range_inserted(old(self).pivot@, old(self).value@, final(self).pivot@, final(self).value@,
                r, key, (key + 1) as usize, value, *min, *max),
            r && pivots_ordered(old(self).pivot@) && *min <= key && key + 1 <= *max ==> {
                &&& pivots_ordered(final(self).pivot@)
                &&& maps_range(old(self).pivot@, old(self).value@, final(self).pivot@, final(self).value@,
                    key, (key + 1) as usize, value, *min, *max)
            },
    {
        self.insert_range(key.clone(), key + key_one(), value, min, max)
    }

    /// Maps the keys `[key_lower, key_upper)` to `value` in a node spanning
    /// `[min, max]`. The pivots inside the range give way to `key_lower` and
    /// `key_upper`, each added unless it is already a bound; the parts of the
    /// ranges cut at either end keep their values. Returns `false`, changing
    /// nothing, when the new pivots do not fit, even where compacting the node
    /// would make room (compacting is the caller's task), and when the leaf is
    /// full and the range runs past its last pivot without ending at `max`.
    #[verifier::rlimit(40)]
    pub fn insert_range(&mut self, key_lower: usize, key_upper: usize, value: V, min: &usize, max: &usize) -> (r: bool)
        ensures
            range_inserted(old(self).pivot@, old(self).value@, final(self).pivot@, final(self).value@,
                r, key_lower, key_upper, value, *min, *max),
            r && pivots_ordered(old(self).pivot@) && *min <= key_lower && key_lower < key_upper
                && key_upper <= *max ==> {
                &&& pivots_ordered(final(self).pivot@)
                &&& maps_range(old(self).pivot@, old(self).value@, final(self).pivot@, final(self).value@,
                    key_lower, key_upper, value, *min, *max)
            },
    {
        let ghost p0 = self.pivot@;
        let ghost v0 = self.value@;
        let ghost q = inserted_pivots(p0, key_lower, key_upper, *min, *max);
        let ghost w = inserted_values(p0, v0, key_lower, key_upper, value, *min, *max);
        let ghost slot = cloned_slot(p0, key_lower, key_upper, *min, *max);
        proof {
            lemma_insertion_bounds(p0, key_lower, key_upper);
        }
        let range = self.find_range(&key_lower, &key_upper, min, max);
        // the pivots below the range in which key_lower lies are kept, and so
        // are the pivots from the one ending the new range on
        let below = (range.start + 1) as usize;
        let above = range.end as usize;
        let used = self.len();
        let lower_bound = if below == 0 {
            *min
        } else {
            match self.pivot[below - 1] {
                Some(b) => b,
                None => *min,
            }
        };
        let add_lower = key_lower != lower_bound;
        let kept_above = used - above;
        let mut before_upper = below + kept_above;
        if add_lower {
            before_upper = before_upper + 1;
        }
        let add_upper = if above < used {
            match self.pivot[above] {
                Some(b) => key_upper != b,
                None => true,
            }
        } else {
            key_upper != *max || before_upper < R_CAPACITY
        };
        let mut total = before_upper;
        if add_upper {
            total = total + 1;
        }
        if total > R_CAPACITY {
            return false;
        }
        // a full leaf whose pivots all lie below key_upper has no slot for a
        // new upper bound: the range must end at the maximum
        if above == R_CAPACITY && key_upper != *max {
            return false;
        }
        proof {
            lemma_insertion_layout(p0, v0, key_lower, key_upper, value, *min, *max);
            assert(below == lower_stop(p0, key_lower));
            assert(above == upper_stop(p0, key_lower, key_upper));
            assert(add_lower == adds_lower(p0, key_lower, *min));
            assert(add_upper == adds_upper(p0, key_lower, key_upper, *min, *max));
        }
        let mut pivot: [Option<usize>; R_CAPACITY] = [None, None, None, None, None, None, None];
        let mut values: [Option<V>; CAPACITY] = [None, None, None, None, None, None, None, None];
        let mut i: usize = 0;
        while i < below
            invariant
                below <= above <= used <= R_CAPACITY,
                i <= below,
                below == lower_stop(p0, key_lower),
                p0.len() == R_CAPACITY,
                v0.len() == CAPACITY,
                self.pivot@ == p0,
                q == inserted_pivots(p0, key_lower, key_upper, *min, *max),
                w == inserted_values(p0, v0, key_lower, key_upper, value, *min, *max),
                forall|k: int| 0 <= k < below ==> #[trigger] q[k] == p0[k],
                forall|k: int| 0 <= k < below ==> #[trigger] w[k] == v0[k],
                forall|k: int| 0 <= k < i ==> #[trigger] pivot@[k] == q[k],
                forall|k: int| i <= k < R_CAPACITY ==> #[trigger] pivot@[k] is None,
                forall|k: int| 0 <= k < i ==> #[trigger] values@[k] == w[k],
                forall|k: int| i <= k < CAPACITY ==> #[trigger] values@[k] is None,
                forall|k: int| i <= k < CAPACITY ==> #[trigger] self.value@[k] == v0[k],
            decreases below - i,
        {
            pivot[i] = self.pivot[i];
            values[i] = self.value[i].take();
            i += 1;
        }
        let mut next = below;
        if add_lower {
            pivot[below] = Some(key_lower);
            values[below] = if add_upper && above == below {
                self.value[below].clone()
            } else {
                self.value[below].take()
            };
            next = below + 1;
        }
        values[next] = Some(value);
        if add_upper {
            pivot[next] = Some(key_upper);
            values[next + 1] = self.value[above].take();
            next = next + 1;
        }
        let mut j: usize = 0;
        while j < kept_above
            invariant
                above + kept_above == used <= R_CAPACITY,
                next + kept_above <= R_CAPACITY,
                next == inserted_pivot_count(p0, key_lower, key_upper, *min, *max) - kept_above,
                above == upper_stop(p0, key_lower, key_upper),
                used == pivot_count(p0),
                j <= kept_above,
                p0.len() == R_CAPACITY,
                v0.len() == CAPACITY,
                self.pivot@ == p0,
                q == inserted_pivots(p0, key_lower, key_upper, *min, *max),
                w == inserted_values(p0, v0, key_lower, key_upper, value, *min, *max),
                slot == cloned_slot(p0, key_lower, key_upper, *min, *max),
                slot < next,
                next == kept_tail_start(p0, key_lower, key_upper, *min, *max),
                forall|k: int| next <= k < next + kept_above ==> #[trigger] q[k] == p0[k - next + above],
                forall|k: int| next + 1 <= k < next + 1 + kept_above ==> #[trigger] w[k] == v0[k - next + above],
                forall|k: int| 0 <= k < next + j ==> #[trigger] pivot@[k] == q[k],
                forall|k: int| next + j <= k < R_CAPACITY ==> #[trigger] pivot@[k] is None,
                forall|k: int| 0 <= k < next + 1 + j && k != slot ==> #[trigger] values@[k] == w[k],
                slot >= 0 ==> clone_of(w[slot], values@[slot]),
                forall|k: int| next + 1 + j <= k < CAPACITY ==> #[trigger] values@[k] is None,
                forall|k: int| above + 1 + j <= k < CAPACITY ==> #[trigger] self.value@[k] == v0[k],
            decreases kept_above - j,
        {
            pivot[next + j] = self.pivot[above + j];
            values[next + 1 + j] = self.value[above + 1 + j].take();
            j += 1;
        }
        self.pivot = pivot;
        self.value = values;
        proof {
            assert(self.pivot@ =~= q);
            if pivots_ordered(p0) && *min <= key_lower && key_lower < key_upper && key_upper <= *max {
                lemma_insertion_maps_range(p0, v0, self.value@, key_lower, key_upper, value, *min, *max);
            }
        }
        true
    }
}

} // verus!
