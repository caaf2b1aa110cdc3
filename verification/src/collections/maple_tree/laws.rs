//! Properties of the leaves that relate several operations, stated over the
//! specifications the operations' contracts use.
use vstd::prelude::*;
use super::{CAPACITY, R_CAPACITY};
use super::scan::{lemma_first_from, lemma_first_from_is};
use super::sparse_leaf::{
    holds_key, slot_of, free_slot, is_free, search_result, key_count, sorted_as, entry_before,
    has_key, keys_within, is_greatest_key, is_least_key, lemma_key_count_remove, paired_at_key,
};
use super::range_leaf::{
    pivot_count, pivots_compact, pivots_ordered, lower_stop, upper_stop, range_start, range_end,
    passes_lower, reaches_upper, move_right_fits, move_left_fits, moved_right, moved_left,
    displaced, lemma_pivot_count, pivots_below, lemma_pivots_below_front, is_unused, count_if,
    value_at, adds_lower, adds_upper, inserted_pivot_count, range_fits, inserted_pivots,
    inserted_values, lemma_insertion_bounds, lemma_insertion_layout, new_range_slot, kept_tail_start,
};

verus! {

// ------------------------------------------------------------------------
// Sparse leaves
// ------------------------------------------------------------------------

/// A key that the leaf lacks, once inserted into the free slot, is what the
/// next search finds, with the inserted value.
pub proof fn law_search_after_insert<V>(keys: Seq<Option<usize>>, values: Seq<Option<V>>, k: usize, v: V)
    requires
        keys.len() == CAPACITY,
        values.len() == CAPACITY,
        slot_of(keys, k) == CAPACITY,
        free_slot(keys) < CAPACITY,
    ensures
        slot_of(keys.update(free_slot(keys), Some(k)), k) == free_slot(keys),
        search_result(keys.update(free_slot(keys), Some(k)), values.update(free_slot(keys), Some(v)), k)
            == Some(v),
{
    let f = free_slot(keys);
    let keys1 = keys.update(f, Some(k));
    lemma_first_from(0, CAPACITY as int, holds_key(keys, k));
    lemma_first_from(0, CAPACITY as int, is_free(keys));
    assert forall|j: int| 0 <= j < f implies !#[trigger] holds_key(keys1, k)(j) by {
        assert(!holds_key(keys, k)(j));
    }
    lemma_first_from_is(0, CAPACITY as int, holds_key(keys1, k), f);
}


/// Insert takes the first slot that holds no key, and finds none only when
/// every slot holds a key.
pub proof fn law_insert_takes_first_free_slot(keys: Seq<Option<usize>>)
    requires
        keys.len() == CAPACITY,
    ensures
        (free_slot(keys) == CAPACITY) == (forall|i: int| 0 <= i < CAPACITY ==> #[trigger] keys[i] is Some),
        free_slot(keys) < CAPACITY ==> keys[free_slot(keys)] is None,
        forall|i: int| 0 <= i < free_slot(keys) ==> #[trigger] keys[i] is Some,
        0 <= free_slot(keys) <= CAPACITY,
{
    lemma_first_from(0, CAPACITY as int, is_free(keys));
    assert forall|i: int| 0 <= i < free_slot(keys) implies #[trigger] keys[i] is Some by {
        assert(!is_free(keys)(i));
    }
    if free_slot(keys) < CAPACITY {
        assert(is_free(keys)(free_slot(keys)));
    }
}

/// Search, update and remove act on the first slot holding `k`, and find
/// none only when no slot holds `k`.
pub proof fn law_operations_use_first_slot_of_key(keys: Seq<Option<usize>>, k: usize)
    requires
        keys.len() == CAPACITY,
    ensures
        (slot_of(keys, k) == CAPACITY) == !has_key(keys, k),
        slot_of(keys, k) < CAPACITY ==> keys[slot_of(keys, k)] == Some(k),
        forall|i: int| 0 <= i < slot_of(keys, k) ==> #[trigger] keys[i] != Some(k),
        0 <= slot_of(keys, k) <= CAPACITY,
{
    lemma_first_from(0, CAPACITY as int, holds_key(keys, k));
    assert forall|i: int| 0 <= i < slot_of(keys, k) implies #[trigger] keys[i] != Some(k) by {
        assert(!holds_key(keys, k)(i));
    }
    if slot_of(keys, k) < CAPACITY {
        assert(holds_key(keys, k)(slot_of(keys, k)));
    }
    if has_key(keys, k) {
        let i = choose|i: int| 0 <= i < CAPACITY && keys[i] == Some(k);
        if slot_of(keys, k) == CAPACITY {
            assert(!holds_key(keys, k)(i));
        }
    }
}

/// After an update of a key the leaf holds, a search finds the new value.
pub proof fn law_search_after_update<V>(keys: Seq<Option<usize>>, values: Seq<Option<V>>, k: usize, v: V)
    requires
        values.len() == CAPACITY,
        slot_of(keys, k) < CAPACITY,
    ensures
        search_result(keys, values.update(slot_of(keys, k), Some(v)), k) == Some(v),
{
    lemma_first_from(0, CAPACITY as int, holds_key(keys, k));
}

/// Removing a key just inserted into an empty free slot answers the inserted
/// value and gives the leaf back as it was.
pub proof fn law_remove_after_insert<V>(keys: Seq<Option<usize>>, values: Seq<Option<V>>, k: usize, v: V)
    requires
        keys.len() == CAPACITY,
        values.len() == CAPACITY,
        slot_of(keys, k) == CAPACITY,
        free_slot(keys) < CAPACITY,
        values[free_slot(keys)] is None,
    ensures
        ({
            let f = free_slot(keys);
            let keys1 = keys.update(f, Some(k));
            let values1 = values.update(f, Some(v));
            &&& search_result(keys1, values1, k) == Some(v)
            &&& keys1.update(slot_of(keys1, k), None) == keys
            &&& values1.update(slot_of(keys1, k), None) == values
        }),
{
    let f = free_slot(keys);
    law_search_after_insert(keys, values, k, v);
    lemma_first_from(0, CAPACITY as int, is_free(keys));
    assert(keys.update(f, Some(k)).update(f, None) =~= keys);
    assert(values.update(f, Some(v)).update(f, None) =~= values);
}

/// After removing a key that sat in one slot only, a search no longer finds it.
pub proof fn law_search_after_remove<V>(keys: Seq<Option<usize>>, values: Seq<Option<V>>, k: usize)
    requires
        keys.len() == CAPACITY,
        slot_of(keys, k) < CAPACITY,
        forall|j: int| 0 <= j < CAPACITY && j != slot_of(keys, k) ==> keys[j] != Some(k),
    ensures
        search_result(keys.update(slot_of(keys, k), None), values.update(slot_of(keys, k), None), k)
            is None,
{
    let keys1 = keys.update(slot_of(keys, k), None);
    lemma_first_from(0, CAPACITY as int, holds_key(keys, k));
    assert forall|j: int| 0 <= j < CAPACITY implies !#[trigger] holds_key(keys1, k)(j) by {
        if j != slot_of(keys, k) {
            assert(keys[j] != Some(k));
            assert(keys1[j] == keys[j]);
        }
    }
    lemma_first_from_is(0, CAPACITY as int, holds_key(keys1, k), CAPACITY as int);
}


/// Each slot holds a value exactly when it holds a key.
pub open spec fn slots_paired<V>(keys: Seq<Option<usize>>, values: Seq<Option<V>>) -> bool {
    forall|i: int| 0 <= i < CAPACITY ==> (#[trigger] keys[i] is Some <==> values[i] is Some)
}

/// In a leaf whose slots are paired, search, update and remove never meet a
/// key without a value, and insert, update and remove keep the slots paired.
pub proof fn law_operations_keep_slots_paired<V>(keys: Seq<Option<usize>>, values: Seq<Option<V>>, k: usize, v: V)
    requires
        keys.len() == CAPACITY,
        values.len() == CAPACITY,
        slots_paired(keys, values),
    ensures
        paired_at_key(keys, values, k),
        free_slot(keys) < CAPACITY ==> slots_paired(
            keys.update(free_slot(keys), Some(k)),
            values.update(free_slot(keys), Some(v)),
        ),
        slot_of(keys, k) < CAPACITY ==> slots_paired(keys, values.update(slot_of(keys, k), Some(v))),
        slot_of(keys, k) < CAPACITY ==> slots_paired(
            keys.update(slot_of(keys, k), None),
            values.update(slot_of(keys, k), None),
        ),
{
    lemma_first_from(0, CAPACITY as int, holds_key(keys, k));
    lemma_first_from(0, CAPACITY as int, is_free(keys));
    if slot_of(keys, k) < CAPACITY {
        assert(holds_key(keys, k)(slot_of(keys, k)));
    }
}

/// Sorting keeps the slots of a paired leaf paired.
pub proof fn law_sort_keeps_slots_paired<V>(
    keys: Seq<Option<usize>>,
    values: Seq<Option<V>>,
    new_keys: Seq<Option<usize>>,
    new_values: Seq<Option<V>>,
    order: Seq<int>,
)
    requires
        keys.len() == CAPACITY,
        values.len() == CAPACITY,
        slots_paired(keys, values),
        sorted_as(keys, values, new_keys, new_values, order),
    ensures
        slots_paired(new_keys, new_values),
{
    assert forall|t: int| 0 <= t < CAPACITY implies (#[trigger] new_keys[t] is Some <==> new_values[t] is Some) by {
        if t < order.len() {
            assert(keys[order[t]] is Some);
        } else if t == order.len() {
            assert(keys[0] is None ==> values[0] is None);
        }
    }
}

/// A successful insert adds one key to the count, a successful remove takes
/// one away.
pub proof fn law_len_after_insert_and_remove(keys: Seq<Option<usize>>, k: usize, j: usize)
    requires
        keys.len() == CAPACITY,
    ensures
        free_slot(keys) < CAPACITY ==> key_count(keys.update(free_slot(keys), Some(k)), CAPACITY as int)
            == key_count(keys, CAPACITY as int) + 1,
        slot_of(keys, j) < CAPACITY ==> key_count(keys.update(slot_of(keys, j), None), CAPACITY as int) + 1
            == key_count(keys, CAPACITY as int),
{
    lemma_first_from(0, CAPACITY as int, is_free(keys));
    lemma_first_from(0, CAPACITY as int, holds_key(keys, j));
    let f = free_slot(keys);
    if f < CAPACITY {
        let keys1 = keys.update(f, Some(k));
        lemma_key_count_remove(keys1, CAPACITY as int, f);
        assert(keys1.update(f, None) =~= keys);
    }
    if slot_of(keys, j) < CAPACITY {
        lemma_key_count_remove(keys, CAPACITY as int, slot_of(keys, j));
    }
}

/// The slots of the first `n` that hold a key.
pub open spec fn key_slots(keys: Seq<Option<usize>>, n: int) -> Set<int> {
    Set::new(|i: int| 0 <= i < n && keys[i] is Some)
}

/// `key_count` counts `key_slots`.
pub proof fn lemma_key_count_slots(keys: Seq<Option<usize>>, n: int)
    requires
        0 <= n,
    ensures
        key_slots(keys, n).finite(),
        key_count(keys, n) == key_slots(keys, n).len(),
    decreases n,
{
    if n == 0 {
        assert(key_slots(keys, 0) =~= Set::empty());
    } else {
        lemma_key_count_slots(keys, n - 1);
        if keys[n - 1] is Some {
            assert(key_slots(keys, n) =~= key_slots(keys, n - 1).insert(n - 1));
        } else {
            assert(key_slots(keys, n) =~= key_slots(keys, n - 1));
        }
    }
}

/// A leaf whose keys fill exactly the first `m` slots holds `m` keys.
pub proof fn lemma_key_count_front(keys: Seq<Option<usize>>, m: int, n: int)
    requires
        0 <= m <= n,
        forall|j: int| 0 <= j < m ==> #[trigger] keys[j] is Some,
        forall|j: int| m <= j < n ==> #[trigger] keys[j] is None,
    ensures
        key_count(keys, n) == m,
    decreases n,
{
    if n > m {
        lemma_key_count_front(keys, m, n - 1);
    } else if n > 0 {
        lemma_key_count_front(keys, n - 1, n - 1);
    }
}

/// Sorting keeps what a search for any key finds: equal keys stay in slot
/// order, so the first slot holding a key still holds the same entry.
pub proof fn law_sort_keeps_search<V>(
    keys: Seq<Option<usize>>,
    values: Seq<Option<V>>,
    new_keys: Seq<Option<usize>>,
    new_values: Seq<Option<V>>,
    order: Seq<int>,
    k: usize,
)
    requires
        keys.len() == CAPACITY,
        new_keys.len() == CAPACITY,
        sorted_as(keys, values, new_keys, new_values, order),
    ensures
        search_result(new_keys, new_values, k) == search_result(keys, values, k),
{
    let i0 = slot_of(keys, k);
    lemma_first_from(0, CAPACITY as int, holds_key(keys, k));
    if i0 < CAPACITY {
        assert(keys[i0] is Some);
        assert(order.contains(i0));
        let u0 = choose|u: int| 0 <= u < order.len() && order[u] == i0;
        assert forall|u: int| 0 <= u < u0 implies !#[trigger] holds_key(new_keys, k)(u) by {
            assert(entry_before(keys, order[u], order[u0]));
            if new_keys[u] == Some(k) {
                assert(!holds_key(keys, k)(order[u]));
            }
        }
        lemma_first_from_is(0, CAPACITY as int, holds_key(new_keys, k), u0);
    } else {
        assert forall|u: int| 0 <= u < CAPACITY implies !#[trigger] holds_key(new_keys, k)(u) by {
            if u < order.len() {
                assert(!holds_key(keys, k)(order[u]));
            }
        }
        lemma_first_from_is(0, CAPACITY as int, holds_key(new_keys, k), CAPACITY as int);
    }
}

/// Sorting keeps the set of keys, their count, the greatest and least key and
/// any bounds check, and leaves the keys in order in the front slots.
pub proof fn law_sort_keeps_keys<V>(
    keys: Seq<Option<usize>>,
    values: Seq<Option<V>>,
    new_keys: Seq<Option<usize>>,
    new_values: Seq<Option<V>>,
    order: Seq<int>,
)
    requires
        keys.len() == CAPACITY,
        new_keys.len() == CAPACITY,
        sorted_as(keys, values, new_keys, new_values, order),
    ensures
        forall|x: usize| has_key(new_keys, x) == has_key(keys, x),
        forall|lo: usize, hi: usize| keys_within(new_keys, lo, hi) == keys_within(keys, lo, hi),
        forall|m: usize| is_greatest_key(new_keys, m) == is_greatest_key(keys, m),
        forall|m: usize| is_least_key(new_keys, m) == is_least_key(keys, m),
        key_count(new_keys, CAPACITY as int) == key_count(keys, CAPACITY as int),
        forall|t: int, u: int|
            0 <= t < u < CAPACITY && #[trigger] new_keys[t] is Some && #[trigger] new_keys[u] is Some
                ==> new_keys[t]->0 <= new_keys[u]->0,
        forall|t: int, u: int|
            0 <= t < u < CAPACITY && #[trigger] new_keys[u] is Some ==> #[trigger] new_keys[t] is Some,
{
    let n = order.len() as int;
    // every new slot holding a key takes it from an old slot, and back
    assert forall|t: int| 0 <= t < CAPACITY && #[trigger] new_keys[t] is Some implies t < n
        && keys[order[t]] == new_keys[t] by {}
    assert forall|i: int| 0 <= i < CAPACITY && #[trigger] keys[i] is Some implies
        exists|t: int| 0 <= t < CAPACITY && new_keys[t] == keys[i] by {
        assert(order.contains(i));
        let t = choose|t: int| 0 <= t < order.len() && order[t] == i;
        assert(new_keys[t] == keys[i]);
    }
    assert forall|x: usize| has_key(new_keys, x) == has_key(keys, x) by {
        if has_key(new_keys, x) {
            let t = choose|t: int| 0 <= t < CAPACITY && new_keys[t] == Some(x);
            assert(keys[order[t]] == Some(x));
        }
        if has_key(keys, x) {
            let i = choose|i: int| 0 <= i < CAPACITY && keys[i] == Some(x);
            assert(keys[i] is Some);
        }
    }
    assert forall|lo: usize, hi: usize| keys_within(new_keys, lo, hi) == keys_within(keys, lo, hi) by {
        if keys_within(keys, lo, hi) {
            assert forall|t: int| 0 <= t < CAPACITY && #[trigger] new_keys[t] is Some implies lo
                <= new_keys[t]->0 <= hi by {
                assert(keys[order[t]] is Some);
            }
        }
        if keys_within(new_keys, lo, hi) {
            assert forall|i: int| 0 <= i < CAPACITY && #[trigger] keys[i] is Some implies lo <= keys[i]->0
                <= hi by {
                let t = choose|t: int| 0 <= t < CAPACITY && new_keys[t] == keys[i];
                assert(new_keys[t] is Some);
            }
        }
    }
    assert forall|m: usize| is_greatest_key(new_keys, m) == is_greatest_key(keys, m) by {
        if is_greatest_key(keys, m) {
            assert forall|t: int| 0 <= t < CAPACITY && #[trigger] new_keys[t] is Some implies new_keys[t]->0
                <= m by {
                assert(keys[order[t]] is Some);
            }
        }
        if is_greatest_key(new_keys, m) {
            assert forall|i: int| 0 <= i < CAPACITY && #[trigger] keys[i] is Some implies keys[i]->0 <= m by {
                let t = choose|t: int| 0 <= t < CAPACITY && new_keys[t] == keys[i];
                assert(new_keys[t] is Some);
            }
        }
    }
    assert forall|m: usize| is_least_key(new_keys, m) == is_least_key(keys, m) by {
        if is_least_key(keys, m) {
            assert forall|t: int| 0 <= t < CAPACITY && #[trigger] new_keys[t] is Some implies m
                <= new_keys[t]->0 by {
                assert(keys[order[t]] is Some);
            }
        }
        if is_least_key(new_keys, m) {
            assert forall|i: int| 0 <= i < CAPACITY && #[trigger] keys[i] is Some implies m <= keys[i]->0 by {
                let t = choose|t: int| 0 <= t < CAPACITY && new_keys[t] == keys[i];
                assert(new_keys[t] is Some);
            }
        }
    }
    // the count: `order` lists the key slots without repetition
    assert(order.no_duplicates()) by {
        assert forall|u: int, w: int| 0 <= u < order.len() && 0 <= w < order.len() && u != w implies order[u]
            != order[w] by {
            if u < w {
                assert(entry_before(keys, order[u], order[w]));
            } else {
                assert(entry_before(keys, order[w], order[u]));
            }
        }
    }
    order.unique_seq_to_set();
    lemma_key_count_slots(keys, CAPACITY as int);
    assert(order.to_set() =~= key_slots(keys, CAPACITY as int)) by {
        assert forall|i: int| order.to_set().contains(i) implies key_slots(keys, CAPACITY as int).contains(i) by {
            let u = choose|u: int| 0 <= u < order.len() && order[u] == i;
        }
    }
    assert forall|t: int| 0 <= t < n implies #[trigger] new_keys[t] is Some by {
        assert(keys[order[t]] is Some);
    }
    lemma_key_count_front(new_keys, n, CAPACITY as int);
}

// ------------------------------------------------------------------------
// Range leaves
// ------------------------------------------------------------------------

/// On ordered pivots, `find_range` answers by counting: the range starts after
/// as many pivots as are at most `lo`, and ends at the first of the pivots not
/// below `hi`.
pub proof fn law_find_range_counts(p: Seq<Option<usize>>, lo: usize, hi: usize)
    requires
        p.len() == R_CAPACITY,
        pivots_ordered(p),
        lo < hi,
    ensures
        range_start(p, lo) + 1 == pivots_below(p, R_CAPACITY as int, lo + 1),
        range_end(p, lo, hi) == pivots_below(p, R_CAPACITY as int, hi as int),
{
    let a = lower_stop(p, lo);
    let b = upper_stop(p, lo, hi);
    let n = pivot_count(p);
    lemma_pivot_count(p);
    lemma_first_from(0, R_CAPACITY as int, passes_lower(p, lo));
    lemma_first_from(a, R_CAPACITY as int, reaches_upper(p, hi));
    assert forall|j: int| 0 <= j < a implies #[trigger] p[j] is Some && p[j]->0 < lo + 1 by {
        assert(!passes_lower(p, lo)(j));
    }
    assert forall|j: int| a <= j < R_CAPACITY implies !(#[trigger] p[j] is Some && p[j]->0 < lo + 1) by {
        assert(passes_lower(p, lo)(a));
        if j < n && a < j {
            assert(p[a]->0 < p[j]->0);
        }
    }
    lemma_pivots_below_front(p, a, R_CAPACITY as int, lo + 1);
    assert forall|j: int| 0 <= j < b implies #[trigger] p[j] is Some && p[j]->0 < hi by {
        if j < a {
            assert(!passes_lower(p, lo)(j));
        } else {
            assert(!reaches_upper(p, hi)(j));
        }
    }
    assert forall|j: int| b <= j < R_CAPACITY implies !(#[trigger] p[j] is Some && p[j]->0 < hi) by {
        assert(reaches_upper(p, hi)(b));
        if j < n && b < j {
            assert(p[b]->0 < p[j]->0);
        }
    }
    lemma_pivots_below_front(p, b, R_CAPACITY as int, hi as int);
}



/// Some used pivot equals `x`.
pub open spec fn has_pivot(p: Seq<Option<usize>>, x: usize) -> bool {
    exists|j: int| 0 <= j < R_CAPACITY && p[j] == Some(x)
}

/// `lo` already bounds the range in which it lies: it is a pivot, or it is
/// `min` and no pivot lies at or below it.
pub open spec fn is_lower_bound(p: Seq<Option<usize>>, lo: usize, min: usize) -> bool {
    has_pivot(p, lo) || (pivots_below(p, R_CAPACITY as int, lo + 1) == 0 && lo == min)
}

/// When `insert_range` accepts `[lo, hi)` on ordered pivots: the pivots at
/// most `lo`, `lo` unless it is already a bound, `hi` unless it is already a
/// pivot, and the pivots at or above `hi` must fit in the pivot slots (a new
/// pivot at `max` may be left out, as it bounds no key below `max`), and a
/// full leaf whose pivots all lie below `hi` takes only a range ending at
/// `max`. The pivots lie within the node's span, at most `max`.
pub proof fn law_insert_range_accepts(p: Seq<Option<usize>>, lo: usize, hi: usize, min: usize, max: usize)
    requires
        p.len() == R_CAPACITY,
        pivots_ordered(p),
        forall|j: int| 0 <= j < R_CAPACITY && #[trigger] p[j] is Some ==> p[j]->0 <= max,
        min <= lo < hi <= max,
    ensures
        ({
            let kept = pivots_below(p, R_CAPACITY as int, lo + 1) + count_if(!is_lower_bound(p, lo, min))
                + (pivot_count(p) - pivots_below(p, R_CAPACITY as int, hi as int));
            range_fits(p, lo, hi, min, max) == ((if !has_pivot(p, hi) && hi != max {
                kept < R_CAPACITY
            } else {
                kept <= R_CAPACITY
            }) && !(pivots_below(p, R_CAPACITY as int, hi as int) == R_CAPACITY && hi != max))
        }),
{
    let n = pivot_count(p);
    let a = lower_stop(p, lo);
    let e = upper_stop(p, lo, hi);
    lemma_insertion_bounds(p, lo, hi);
    lemma_ordered_count(p, lo);
    law_find_range_counts(p, lo, hi);
    assert(pivots_below(p, R_CAPACITY as int, lo + 1) == a);
    assert(pivots_below(p, R_CAPACITY as int, hi as int) == e);
    // `hi` is a pivot exactly when it is the pivot ending the range
    if has_pivot(p, hi) {
        let j = choose|j: int| 0 <= j < R_CAPACITY && p[j] == Some(hi);
        assert(j < n);
        if j < e {
            assert(p[j]->0 < hi);
        }
        if e < j {
            assert(p[e]->0 < p[j]->0);
        }
        assert(j == e);
    }
    if e < n && p[e]->0 == hi {
        assert(has_pivot(p, hi));
    }
    // `lo` is a bound exactly when it is not added
    if has_pivot(p, lo) {
        let j = choose|j: int| 0 <= j < R_CAPACITY && p[j] == Some(lo);
        assert(j < n);
        if a <= j {
            if a < j {
                assert(p[a]->0 < p[j]->0);
            }
        }
        if j < a - 1 {
            assert(p[j]->0 < p[a - 1]->0);
        }
        assert(j == a - 1);
    }
    if a > 0 && p[a - 1]->0 == lo {
        assert(has_pivot(p, lo));
    }
    assert(adds_lower(p, lo, min) == !is_lower_bound(p, lo, min));
    if e < n && hi == max {
        assert(p[e]->0 <= max);
        assert(has_pivot(p, hi));
    }
    assert(e < n ==> (adds_upper(p, lo, hi, min, max) == !has_pivot(p, hi)));
}

/// `move_pivots_right` accepts a move exactly when it moves nothing, or the
/// unused slots can take `places` more pivots, `pivot_index` is not one of the
/// last two slots, and the move stays within the slots; pivot indices at or
/// beyond the used pivots are accepted too (nothing moves).
pub proof fn law_move_right_accepts(p: Seq<Option<usize>>, pivot_index: int, places: int)
    requires
        p.len() == R_CAPACITY,
    ensures
        move_right_fits(p, pivot_index, places) == (places == 0 || (places <= R_CAPACITY - pivot_count(
            p,
        ) && pivot_index < R_CAPACITY - 1 && pivot_index + places <= R_CAPACITY)),
{
}

/// `move_pivots_left` accepts a move exactly when `pivot_index` is a pivot
/// slot and the move does not pass slot 0.
pub proof fn law_move_left_accepts(pivot_index: int, places: int)
    ensures
        move_left_fits(pivot_index, places) == (pivot_index < R_CAPACITY && places <= pivot_index),
{
}


/// A left move carries the entries from `pivot_index` up to the last pivot
/// slot `places` slots down, empties the slots at or above `pivot_index` that
/// nothing moved into, and keeps every other slot.
pub proof fn law_move_left_moves<T>(s: Seq<Option<T>>, pivot_index: int, places: int)
    requires
        s.len() >= R_CAPACITY,
        move_left_fits(pivot_index, places),
        0 <= places,
    ensures
        ({
            let w = moved_left(s, pivot_index, places, R_CAPACITY as int);
            &&& w.len() == s.len()
            &&& forall|k: int| 0 <= k < pivot_index - places ==> #[trigger] w[k] == s[k]
            &&& forall|k: int| pivot_index - places <= k < R_CAPACITY - places ==> #[trigger] w[k] == s[k
                + places]
            &&& forall|k: int|
                R_CAPACITY - places <= k < R_CAPACITY && pivot_index <= k ==> #[trigger] w[k] is None
            &&& forall|k: int|
                R_CAPACITY - places <= k < pivot_index ==> #[trigger] w[k] == s[k]
            &&& forall|k: int| R_CAPACITY <= k < s.len() ==> #[trigger] w[k] == s[k]
        }),
{
}

/// A right move keeps the values below `pivot_index`, carries the values of the
/// moved pivots `places` slots up, and keeps the values above the moved block.
pub proof fn law_move_right_moves_values<V>(p: Seq<Option<usize>>, v: Seq<Option<V>>, pivot_index: int, places: nat)
    requires
        p.len() == R_CAPACITY,
        v.len() == CAPACITY,
    ensures
        ({
            let n = pivot_count(p);
            let w = moved_right(v, pivot_index, places, n);
            &&& w.len() == CAPACITY
            &&& forall|k: int| 0 <= k < pivot_index && k < CAPACITY ==> #[trigger] w[k] == v[k]
            &&& forall|k: int|
                0 <= pivot_index + places <= k < n + places && k < CAPACITY ==> #[trigger] w[k] == v[k
                    - places]
            &&& forall|k: int| 0 <= n + places <= k < CAPACITY && pivot_index <= k ==> #[trigger] w[k]
                == v[k]
        }),
{
}

/// On ordered pivots, the number of pivots at most `x` is where the scan for
/// `x` stops.
pub proof fn lemma_ordered_count(p: Seq<Option<usize>>, x: usize)
    requires
        p.len() == R_CAPACITY,
        pivots_ordered(p),
    ensures
        pivots_below(p, R_CAPACITY as int, x + 1) == lower_stop(p, x),
{
    let k = lower_stop(p, x);
    let n = pivot_count(p);
    lemma_pivot_count(p);
    lemma_first_from(0, R_CAPACITY as int, passes_lower(p, x));
    assert forall|j: int| 0 <= j < k implies #[trigger] p[j] is Some && p[j]->0 < x + 1 by {
        assert(!passes_lower(p, x)(j));
    }
    assert forall|j: int| k <= j < R_CAPACITY implies !(#[trigger] p[j] is Some && p[j]->0 < x + 1) by {
        assert(passes_lower(p, x)(k));
        if j < n && k < j {
            assert(p[k]->0 < p[j]->0);
        }
    }
    lemma_pivots_below_front(p, k, R_CAPACITY as int, x + 1);
}

/// The pivots after an insertion into ordered pivots are ordered, and they are
/// `inserted_pivot_count` many.
pub proof fn lemma_inserted_pivots_ordered(p: Seq<Option<usize>>, lo: usize, hi: usize, min: usize, max: usize)
    requires
        p.len() == R_CAPACITY,
        pivots_ordered(p),
        lo < hi,
        range_fits(p, lo, hi, min, max),
    ensures
        pivots_ordered(inserted_pivots(p, lo, hi, min, max)),
        pivot_count(inserted_pivots(p, lo, hi, min, max)) == inserted_pivot_count(p, lo, hi, min, max),
{
    let n = pivot_count(p);
    let a = lower_stop(p, lo);
    let e = upper_stop(p, lo, hi);
    let add_lo = adds_lower(p, lo, min);
    let add_hi = adds_upper(p, lo, hi, min, max);
    let m = new_range_slot(p, lo, min);
    let c = kept_tail_start(p, lo, hi, min, max);
    let t = inserted_pivot_count(p, lo, hi, min, max);
    let q = inserted_pivots(p, lo, hi, min, max);
    lemma_insertion_bounds(p, lo, hi);
    lemma_insertion_layout(p, p, lo, hi, 0usize, min, max);
    assert(t == c + n - e);
    assert forall|k: int| 0 <= k < t implies #[trigger] q[k] is Some by {
        if c <= k {
            assert(p[k - c + e] is Some);
        }
    }
    assert forall|k: int| 0 <= k < t implies !#[trigger] is_unused(q)(k) by {
        assert(q[k] is Some);
    }
    assert forall|k: int| t <= k < R_CAPACITY implies #[trigger] q[k] is None by {}
    if t < R_CAPACITY {
        assert(is_unused(q)(t));
    }
    lemma_first_from_is(0, R_CAPACITY as int, is_unused(q), t);
    // the pivots kept after the range lie above both new bounds
    assert forall|j: int| e <= j < n implies lo < #[trigger] p[j]->0 by {
        if a < j {
            assert(p[a]->0 < p[j]->0);
        }
    }
    assert forall|j: int| e <= j < n && add_hi implies hi < #[trigger] p[j]->0 by {
        if e < j {
            assert(p[e]->0 < p[j]->0);
        }
    }
    assert(add_lo && a > 0 ==> p[a - 1]->0 < lo);
    assert forall|i: int, j: int| 0 <= i < j < t implies #[trigger] q[i]->0 < #[trigger] q[j]->0 by {
        if j < a {
            assert(p[i]->0 < p[j]->0);
        } else if i < a {
            if a - 1 > i {
                assert(p[i]->0 < p[a - 1]->0);
            }
            if c <= j {
                assert(p[i]->0 < p[j - c + e]->0);
            }
        } else if c <= i {
            assert(p[i - c + e]->0 < p[j - c + e]->0);
        }
    }
}

/// What key `x` maps to after inserting `[lo, hi) -> val` into ordered pivots.
pub proof fn lemma_inserted_value_at<V>(
    p: Seq<Option<usize>>,
    v: Seq<Option<V>>,
    lo: usize,
    hi: usize,
    val: V,
    min: usize,
    max: usize,
    x: usize,
)
    requires
        p.len() == R_CAPACITY,
        v.len() == CAPACITY,
        pivots_ordered(p),
        min <= lo < hi <= max,
        range_fits(p, lo, hi, min, max),
        min <= x < max,
    ensures
        value_at(inserted_pivots(p, lo, hi, min, max), inserted_values(p, v, lo, hi, val, min, max), x)
            == if lo <= x < hi {
            Some(val)
        } else {
            value_at(p, v, x)
        },
{
    let n = pivot_count(p);
    let a = lower_stop(p, lo);
    let e = upper_stop(p, lo, hi);
    let add_lo = adds_lower(p, lo, min);
    let add_hi = adds_upper(p, lo, hi, min, max);
    let m = new_range_slot(p, lo, min);
    let c = kept_tail_start(p, lo, hi, min, max);
    let q = inserted_pivots(p, lo, hi, min, max);
    let w = inserted_values(p, v, lo, hi, val, min, max);
    lemma_insertion_bounds(p, lo, hi);
    lemma_insertion_layout(p, v, lo, hi, val, min, max);
    lemma_inserted_pivots_ordered(p, lo, hi, min, max);
    lemma_ordered_count(p, x);
    lemma_ordered_count(q, x);
    let k0 = lower_stop(p, x);
    lemma_first_from(0, R_CAPACITY as int, passes_lower(p, x));
    assert forall|j: int| e <= j < n implies lo < #[trigger] p[j]->0 by {
        if a < j {
            assert(p[a]->0 < p[j]->0);
        }
    }
    assert forall|j: int| e <= j < n && add_hi implies hi < #[trigger] p[j]->0 by {
        if e < j {
            assert(p[e]->0 < p[j]->0);
        }
    }
    if x < lo {
        if a < R_CAPACITY {
            assert(passes_lower(p, x)(a));
        }
        assert(k0 <= a);
        if k0 == a {
            if a > 0 {
                assert(!passes_lower(p, x)(a - 1));
            }
            assert(add_lo);
        }
        assert forall|j: int| 0 <= j < k0 implies !#[trigger] passes_lower(q, x)(j) by {
            assert(!passes_lower(p, x)(j));
        }
        if k0 < R_CAPACITY {
            if k0 < a {
                assert(passes_lower(p, x)(k0));
            } else if c < n + c - e {
                assert(lo < p[e]->0);
            }
            assert(passes_lower(q, x)(k0));
        }
        lemma_first_from_is(0, R_CAPACITY as int, passes_lower(q, x), k0);
    } else if x < hi {
        assert forall|j: int| 0 <= j < m implies !#[trigger] passes_lower(q, x)(j) by {}
        if m < R_CAPACITY {
            if !add_hi && e < n {
                assert(hi <= p[e]->0);
            }
            assert(passes_lower(q, x)(m));
        }
        lemma_first_from_is(0, R_CAPACITY as int, passes_lower(q, x), m);
    } else {
        assert forall|j: int| 0 <= j < e implies !#[trigger] passes_lower(p, x)(j) by {}
        if k0 < e {
            assert(passes_lower(p, x)(k0));
        }
        assert(e <= k0 <= n) by {
            if k0 > n {
                assert(!passes_lower(p, x)(n));
            }
        }
        if k0 == e && !add_hi {
            if e < n {
                assert(!passes_lower(p, x)(e));
            }
        }
        let kq = c + (k0 - e);
        assert forall|j: int| 0 <= j < kq implies !#[trigger] passes_lower(q, x)(j) by {
            if c <= j {
                assert(!passes_lower(p, x)(j - c + e));
            }
        }
        if kq < R_CAPACITY {
            if k0 < n {
                assert(passes_lower(p, x)(k0));
            }
            assert(passes_lower(q, x)(kq));
        }
        lemma_first_from_is(0, R_CAPACITY as int, passes_lower(q, x), kq);
    }
}

/// Inserting `[lo, hi) -> val` into a leaf with ordered pivots maps every key
/// of the node below `max` in `[lo, hi)` to `val` and leaves every other key's
/// value as it was; the new pivots are ordered again.
pub proof fn law_insert_range_maps_range<V>(
    p: Seq<Option<usize>>,
    v: Seq<Option<V>>,
    lo: usize,
    hi: usize,
    val: V,
    min: usize,
    max: usize,
)
    requires
        p.len() == R_CAPACITY,
        v.len() == CAPACITY,
        pivots_ordered(p),
        min <= lo < hi <= max,
        range_fits(p, lo, hi, min, max),
    ensures
        pivots_ordered(inserted_pivots(p, lo, hi, min, max)),
        pivot_count(inserted_pivots(p, lo, hi, min, max)) == inserted_pivot_count(p, lo, hi, min, max),
        forall|x: usize|
            min <= x < max ==> #[trigger] value_at(
                inserted_pivots(p, lo, hi, min, max),
                inserted_values(p, v, lo, hi, val, min, max),
                x,
            ) == if lo <= x < hi {
                Some(val)
            } else {
                value_at(p, v, x)
            },
{
    lemma_inserted_pivots_ordered(p, lo, hi, min, max);
    assert forall|x: usize| min <= x < max implies #[trigger] value_at(
        inserted_pivots(p, lo, hi, min, max),
        inserted_values(p, v, lo, hi, val, min, max),
        x,
    ) == if lo <= x < hi {
        Some(val)
    } else {
        value_at(p, v, x)
    } by {
        lemma_inserted_value_at(p, v, lo, hi, val, min, max, x);
    }
}

/// The pivots with a gap of `places` unused slots opened at `from`.
pub open spec fn opened_gap(p: Seq<Option<usize>>, from: int, places: int) -> Seq<Option<usize>> {
    Seq::new(
        p.len(),
        |k: int|
            if k < from {
                p[k]
            } else if k < from + places {
                None
            } else {
                p[k - places]
            },
    )
}

/// On compact pivots a right move pushes out only unused slots.
proof fn lemma_displaced_unused(p: Seq<Option<usize>>, j: int, places: nat)
    requires
        p.len() == R_CAPACITY,
        pivots_compact(p),
        pivot_count(p) + places <= R_CAPACITY,
    ensures
        displaced(p, j, places, pivot_count(p)) is None,
    decreases pivot_count(p) - j,
{
    if j < pivot_count(p) && j + places < pivot_count(p) {
        lemma_displaced_unused(p, j + places + 1, places);
    }
}

/// A right move of compact pivots opens a gap of unused slots at
/// `pivot_index`.
pub proof fn law_move_right_opens_gap(p: Seq<Option<usize>>, pivot_index: int, places: int)
    requires
        p.len() == R_CAPACITY,
        pivots_compact(p),
        0 <= pivot_index,
        0 <= places,
        move_right_fits(p, pivot_index, places),
    ensures
        moved_right(p, pivot_index, places as nat, pivot_count(p)) == opened_gap(p, pivot_index, places),
{
    let n = pivot_count(p);
    lemma_pivot_count(p);
    if places > 0 {
        assert forall|j: int| #![trigger displaced(p, j, places as nat, n)] true implies displaced(
            p,
            j,
            places as nat,
            n,
        ) is None by {
            lemma_displaced_unused(p, j, places as nat);
        }
    }
    assert(moved_right(p, pivot_index, places as nat, n) =~= opened_gap(p, pivot_index, places));
}

/// A left move by the same number of places undoes a right move of compact
/// pivots.
pub proof fn law_move_right_then_left(p: Seq<Option<usize>>, pivot_index: int, places: int)
    requires
        p.len() == R_CAPACITY,
        pivots_compact(p),
        0 <= pivot_index,
        0 <= places,
        pivot_index + places < R_CAPACITY,
        move_right_fits(p, pivot_index, places),
    ensures
        move_left_fits(pivot_index + places, places),
        moved_left(
            moved_right(p, pivot_index, places as nat, pivot_count(p)),
            pivot_index + places,
            places,
            R_CAPACITY as int,
        ) == p,
{
    law_move_right_opens_gap(p, pivot_index, places);
    lemma_pivot_count(p);
    let q = opened_gap(p, pivot_index, places);
    assert(moved_left(q, pivot_index + places, places, R_CAPACITY as int) =~= p);
}

} // verus!
