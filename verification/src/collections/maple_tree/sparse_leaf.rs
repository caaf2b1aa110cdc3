//! A leaf holding up to `CAPACITY` unsorted key/value pairs.
use vstd::prelude::*;
use super::CAPACITY;
use super::scan::{first_from, lemma_first_from_is};

verus! {

/// An unsorted set of key/value pairs. Insert fills the first free slot, remove
/// empties a slot without moving the others; `sort` compacts and orders them.
/// Slot `i` pairs `key[i]` with `value[i]`.
#[derive(Debug)]
pub struct SparseLeaf<V> {
    pub key: [Option<usize>; CAPACITY],
    pub value: [Option<V>; CAPACITY],
}

/// The condition "slot `j` holds key `k`".
pub open spec fn holds_key(keys: Seq<Option<usize>>, k: usize) -> spec_fn(int) -> bool {
    |j: int| keys[j] == Some(k)
}

/// The condition "slot `j` holds no key".
pub open spec fn is_free(keys: Seq<Option<usize>>) -> spec_fn(int) -> bool {
    |j: int| keys[j] is None
}

/// Index of the first slot holding `k`, or `CAPACITY` when no slot does.
pub open spec fn slot_of(keys: Seq<Option<usize>>, k: usize) -> int {
    first_from(0, CAPACITY as int, holds_key(keys, k))
}

/// Index of the first slot holding no key, or `CAPACITY` when the leaf is full.
pub open spec fn free_slot(keys: Seq<Option<usize>>) -> int {
    first_from(0, CAPACITY as int, is_free(keys))
}

/// Number of slots among the first `n` that hold a key.
pub open spec fn key_count(keys: Seq<Option<usize>>, n: int) -> nat
    decreases n,
{
    if n <= 0 {
        0
    } else {
        key_count(keys, n - 1) + if keys[n - 1] is Some {
            1nat
        } else {
            0nat
        }
    }
}

/// What a search for `k` finds: the value in the first slot whose key is `k`.
pub open spec fn search_result<V>(keys: Seq<Option<usize>>, values: Seq<Option<V>>, k: usize) -> Option<V> {
    if slot_of(keys, k) < CAPACITY {
        values[slot_of(keys, k)]
    } else {
        None
    }
}

/// The first slot holding `k`, if any, also holds a value.
pub open spec fn paired_at_key<V>(keys: Seq<Option<usize>>, values: Seq<Option<V>>, k: usize) -> bool {
    slot_of(keys, k) < CAPACITY ==> values[slot_of(keys, k)] is Some
}

/// The value a reference points to, kept in its option.
pub open spec fn deref_opt<V>(r: Option<&V>) -> Option<V> {
    match r {
        Some(x) => Some(*x),
        None => None,
    }
}


/// Some slot holds the key `x`.
pub open spec fn has_key(keys: Seq<Option<usize>>, x: usize) -> bool {
    exists|i: int| 0 <= i < CAPACITY && keys[i] == Some(x)
}

/// No slot holds a key.
pub open spec fn no_keys(keys: Seq<Option<usize>>) -> bool {
    forall|i: int| 0 <= i < CAPACITY ==> keys[i] is None
}

/// `m` is a key of the leaf and no key is greater.
pub open spec fn is_greatest_key(keys: Seq<Option<usize>>, m: usize) -> bool {
    &&& has_key(keys, m)
    &&& forall|i: int| 0 <= i < CAPACITY && #[trigger] keys[i] is Some ==> keys[i]->0 <= m
}

/// `m` is a key of the leaf and no key is smaller.
pub open spec fn is_least_key(keys: Seq<Option<usize>>, m: usize) -> bool {
    &&& has_key(keys, m)
    &&& forall|i: int| 0 <= i < CAPACITY && #[trigger] keys[i] is Some ==> m <= keys[i]->0
}

/// Every key lies in `[lo, hi]`.
pub open spec fn keys_within(keys: Seq<Option<usize>>, lo: usize, hi: usize) -> bool {
    forall|i: int| 0 <= i < CAPACITY && #[trigger] keys[i] is Some ==> lo <= keys[i]->0 <= hi
}


/// Slot `i` comes before slot `j` in key order, equal keys keeping slot order.
pub open spec fn entry_before(keys: Seq<Option<usize>>, i: int, j: int) -> bool {
    ||| keys[i]->0 < keys[j]->0
    ||| (keys[i]->0 == keys[j]->0 && i < j)
}

/// `new_keys` and `new_values` are `keys` and `values` sorted: slot `u` of the
/// result holds the entry from slot `order[u]`, `order` lists every slot that
/// holds a key exactly once, in key order with ties in slot order, and the slots
/// after the sorted entries hold no key. The value beside the first free slot is
/// the one that sat in slot 0 when slot 0 held no key; the values beyond it are
/// empty.
pub open spec fn sorted_as<V>(
    keys: Seq<Option<usize>>,
    values: Seq<Option<V>>,
    new_keys: Seq<Option<usize>>,
    new_values: Seq<Option<V>>,
    order: Seq<int>,
) -> bool {
    &&& order.len() <= CAPACITY
    &&& forall|u: int|
        0 <= u < order.len() ==> {
            &&& 0 <= #[trigger] order[u] < CAPACITY
            &&& keys[order[u]] is Some
            &&& new_keys[u] == keys[order[u]]
            &&& new_values[u] == values[order[u]]
        }
    &&& forall|i: int| 0 <= i < CAPACITY && #[trigger] keys[i] is Some ==> order.contains(i)
    &&& forall|u: int, w: int|
        0 <= u < w < order.len() ==> entry_before(keys, #[trigger] order[u], #[trigger] order[w])
    &&& forall|t: int| order.len() <= t < CAPACITY ==> #[trigger] new_keys[t] is None
    &&& order.len() < CAPACITY ==> new_values[order.len() as int] == if keys[0] is None {
        values[0]
    } else {
        None
    }
    &&& forall|t: int| order.len() < t < CAPACITY ==> #[trigger] new_values[t] is None
}

/// Emptying a slot that holds a key lowers the count by one.
pub proof fn lemma_key_count_remove(keys: Seq<Option<usize>>, n: int, i: int)
    requires
        0 <= i < n <= keys.len(),
        keys[i] is Some,
    ensures
        key_count(keys.update(i, None), n) + 1 == key_count(keys, n),
    decreases n,
{
    if i < n - 1 {
        lemma_key_count_remove(keys, n - 1, i);
    } else {
        lemma_key_count_same(keys, keys.update(i, None), n - 1);
    }
}

/// Counts agree on sequences that agree on the counted prefix.
pub proof fn lemma_key_count_same(a: Seq<Option<usize>>, b: Seq<Option<usize>>, n: int)
    requires
        n <= a.len(),
        n <= b.len(),
        forall|j: int| 0 <= j < n ==> a[j] == b[j],
    ensures
        key_count(a, n) == key_count(b, n),
    decreases n,
{
    if n > 0 {
        lemma_key_count_same(a, b, n - 1);
    }
}

/// The count of the first `n` slots is at most `n`, and positive when one of
/// them holds a key.
pub proof fn lemma_key_count_bounds(keys: Seq<Option<usize>>, n: int)
    requires
        0 <= n,
    ensures
        key_count(keys, n) <= n,
        (exists|j: int| 0 <= j < n && #[trigger] keys[j] is Some) ==> key_count(keys, n) > 0,
    decreases n,
{
    if n > 0 {
        lemma_key_count_bounds(keys, n - 1);
        if keys[n - 1] is None {
            assert forall|j: int| 0 <= j < n && #[trigger] keys[j] is Some implies 0 <= j < n - 1 && keys[j] is Some by {}
        }
    }
}

impl<V> SparseLeaf<V> {
    /// An empty leaf.
    pub fn new() -> (leaf: Self)
        ensures
            forall|i: int| 0 <= i < CAPACITY ==> leaf.key@[i] is None,
            forall|i: int| 0 <= i < CAPACITY ==> leaf.value@[i] is None,
    {
        SparseLeaf {
            key: [None, None, None, None, None, None, None, None],
            value: [None, None, None, None, None, None, None, None],
        }
    }

    /// Puts `k` and `v` in the first free slot. Returns `None`, changing
    /// nothing, when the leaf is full; it does not look for `k` first.
    pub fn insert(&mut self, k: usize, v: V) -> (r: Option<()>)
        ensures
            free_slot(old(self).key@) == CAPACITY ==> r is None && *final(self) == *old(self),
            free_slot(old(self).key@) < CAPACITY ==> {
                &&& r == Some(())
                &&& final(self).key@ == old(self).key@.update(free_slot(old(self).key@), Some(k))
                &&& final(self).value@ == old(self).value@.update(
                    free_slot(old(self).key@),
                    Some(v),
                )
            },
    {
        let ghost keys = self.key@;
        let mut i: usize = 0;
        while i < CAPACITY
            invariant
                0 <= i <= CAPACITY,
                *self == *old(self),
                keys == self.key@,
                forall|j: int| 0 <= j < i ==> !#[trigger] is_free(keys)(j),
            decreases CAPACITY - i,
        {
            if self.key[i].is_none() {
                proof {
                    lemma_first_from_is(0, CAPACITY as int, is_free(keys), i as int);
                }
                self.key[i] = Some(k);
                self.value[i] = Some(v);
                return Some(());
            }
            i += 1;
        }
        proof {
            lemma_first_from_is(0, CAPACITY as int, is_free(keys), CAPACITY as int);
        }
        None
    }

    /// The value paired with the first slot holding `k`, or `None` when no slot
    /// holds it. Such a slot must hold a value.
    pub fn search(&mut self, k: &usize) -> (r: Option<&V>)
        requires
            paired_at_key(old(self).key@, old(self).value@, *k),
        ensures
            *final(self) == *old(self),
            deref_opt(r) == search_result(old(self).key@, old(self).value@, *k),
    {
        let ghost keys = self.key@;
        let mut i: usize = 0;
        while i < CAPACITY
            invariant
                0 <= i <= CAPACITY,
                *self == *old(self),
                keys == self.key@,
                forall|j: int| 0 <= j < i ==> !#[trigger] holds_key(keys, *k)(j),
            decreases CAPACITY - i,
        {
            if self.key[i] == Some(*k) {
                proof {
                    lemma_first_from_is(0, CAPACITY as int, holds_key(keys, *k), i as int);
                }
                return self.value[i].as_ref();
            }
            i += 1;
        }
        proof {
            lemma_first_from_is(0, CAPACITY as int, holds_key(keys, *k), CAPACITY as int);
        }
        None
    }

    /// Replaces the value paired with the first slot holding `k` and returns the
    /// value it held; returns `None`, changing nothing, when no slot holds `k`.
    /// Such a slot must hold a value.
    pub fn update(&mut self, k: usize, v: V) -> (r: Option<V>)
        requires
            paired_at_key(old(self).key@, old(self).value@, k),
        ensures
            r == search_result(old(self).key@, old(self).value@, k),
            final(self).key@ == old(self).key@,
            final(self).value@ == if slot_of(old(self).key@, k) < CAPACITY {
                old(self).value@.update(slot_of(old(self).key@, k), Some(v))
            } else {
                old(self).value@
            },
    {
        let ghost keys = self.key@;
        let mut i: usize = 0;
        while i < CAPACITY
            invariant
                0 <= i <= CAPACITY,
                *self == *old(self),
                keys == self.key@,
                forall|j: int| 0 <= j < i ==> !#[trigger] holds_key(keys, k)(j),
            decreases CAPACITY - i,
        {
            if self.key[i] == Some(k) {
                proof {
                    lemma_first_from_is(0, CAPACITY as int, holds_key(keys, k), i as int);
                }
                let old_value = self.value[i].take();
                self.value[i] = Some(v);
                return old_value;
            }
            i += 1;
        }
        proof {
            lemma_first_from_is(0, CAPACITY as int, holds_key(keys, k), CAPACITY as int);
        }
        None
    }

    /// Empties the first slot holding `k` and returns the value it held; returns
    /// `None`, changing nothing, when no slot holds `k`. Such a slot must hold a
    /// value.
    pub fn remove(&mut self, k: &usize) -> (r: Option<V>)
        requires
            paired_at_key(old(self).key@, old(self).value@, *k),
        ensures
            r == search_result(old(self).key@, old(self).value@, *k),
            slot_of(old(self).key@, *k) == CAPACITY ==> *final(self) == *old(self),
            slot_of(old(self).key@, *k) < CAPACITY ==> {
                &&& final(self).key@ == old(self).key@.update(slot_of(old(self).key@, *k), None)
                &&& final(self).value@ == old(self).value@.update(slot_of(old(self).key@, *k), None)
            },
    {
        let ghost keys = self.key@;
        let mut i: usize = 0;
        while i < CAPACITY
            invariant
                0 <= i <= CAPACITY,
                *self == *old(self),
                keys == self.key@,
                forall|j: int| 0 <= j < i ==> !#[trigger] holds_key(keys, *k)(j),
            decreases CAPACITY - i,
        {
            if self.key[i] == Some(*k) {
                proof {
                    lemma_first_from_is(0, CAPACITY as int, holds_key(keys, *k), i as int);
                }
                self.key[i] = None;
                return self.value[i].take();
            }
            i += 1;
        }
        proof {
            lemma_first_from_is(0, CAPACITY as int, holds_key(keys, *k), CAPACITY as int);
        }
        None
    }

    /// The largest key, or `None` when the leaf holds no key.
    pub fn get_max(&self) -> (r: Option<&usize>)
        ensures
            match r {
                None => no_keys(self.key@),
                Some(m) => is_greatest_key(self.key@, *m),
            },
    {
        let mut max: usize = 0;
        let mut key_found: bool = false;
        let mut i: usize = 0;
        while i < CAPACITY
            invariant
                0 <= i <= CAPACITY,
                max < CAPACITY,
                key_found ==> max < i && self.key@[max as int] is Some,
                key_found ==> forall|j: int|
                    0 <= j < i && #[trigger] self.key@[j] is Some ==> self.key@[j]->0
                        <= self.key@[max as int]->0,
                !key_found ==> max == 0 && forall|j: int| 0 <= j < i ==> #[trigger] self.key@[j] is None,
            decreases CAPACITY - i,
        {
            match self.key[i] {
                Some(x) => {
                    if !key_found {
                        max = i;
                        key_found = true;
                    } else {
                        let larger = match self.key[max] {
                            Some(m) => m < x,
                            None => false,
                        };
                        if larger {
                            max = i;
                        }
                    }
                },
                None => {},
            }
            i += 1;
        }
        self.key[max].as_ref()
    }

    /// The number of slots holding a key.
    pub fn get_len(&self) -> (r: usize)
        ensures
            r == key_count(self.key@, CAPACITY as int),
    {
        let mut size: usize = 0;
        let mut i: usize = 0;
        while i < CAPACITY
            invariant
                0 <= i <= CAPACITY,
                size == key_count(self.key@, i as int),
                size <= i,
            decreases CAPACITY - i,
        {
            match self.key[i] {
                Some(_) => size += 1,
                None => {},
            }
            i += 1;
        }
        size
    }

    /// The smallest key, or `None` when the leaf holds no key.
    pub fn get_min(&self) -> (r: Option<&usize>)
        ensures
            match r {
                None => no_keys(self.key@),
                Some(m) => is_least_key(self.key@, *m),
            },
    {
        let mut min: usize = 0;
        let mut key_found: bool = false;
        let mut i: usize = 0;
        while i < CAPACITY
            invariant
                0 <= i <= CAPACITY,
                min < CAPACITY,
                key_found ==> min < i && self.key@[min as int] is Some,
                key_found ==> forall|j: int|
                    0 <= j < i && #[trigger] self.key@[j] is Some ==> self.key@[min as int]->0
                        <= self.key@[j]->0,
                !key_found ==> min == 0 && forall|j: int| 0 <= j < i ==> #[trigger] self.key@[j] is None,
            decreases CAPACITY - i,
        {
            match self.key[i] {
                Some(x) => {
                    if !key_found {
                        min = i;
                        key_found = true;
                    } else {
                        let smaller = match self.key[min] {
                            Some(m) => m > x,
                            None => false,
                        };
                        if smaller {
                            min = i;
                        }
                    }
                },
                None => {},
            }
            i += 1;
        }
        self.key[min].as_ref()
    }

    /// Whether every key lies in `[min_bound, max_bound]`; an empty leaf passes.
    pub fn check_bounds(&mut self, min_bound: &usize, max_bound: &usize) -> (r: bool)
        ensures
            *final(self) == *old(self),
            r == keys_within(old(self).key@, *min_bound, *max_bound),
    {
        let min = self.get_min();
        let max = self.get_max();
        if min.is_none() && max.is_none() {
            return true;
        }
        let lower_ok = match min {
            Some(m) => *m >= *min_bound,
            None => false,
        };
        let upper_ok = match max {
            Some(m) => *m <= *max_bound,
            None => true,
        };
        lower_ok && upper_ok
    }

    /// Sorts the entries by key into the front slots, equal keys keeping their
    /// slot order, by repeatedly moving the smallest remaining entry into a
    /// fresh leaf.
    pub fn sort(&mut self)
        ensures
            exists|order: Seq<int>|
                sorted_as(old(self).key@, old(self).value@, final(self).key@, final(self).value@, order),
    {
        let ghost keys0 = self.key@;
        let ghost values0 = self.value@;
        let mut sl: SparseLeaf<V> = SparseLeaf::new();
        let mut sl_index: usize = 0;
        let ghost mut order: Seq<int> = Seq::empty();
        let mut current_index: usize = 0;
        while current_index < CAPACITY
            invariant
                0 <= current_index <= CAPACITY,
                sl_index == current_index,
                order.len() <= current_index,
                forall|u: int|
                    0 <= u < order.len() ==> {
                        &&& 0 <= #[trigger] order[u] < CAPACITY
                        &&& keys0[order[u]] is Some
                        &&& sl.key@[u] == keys0[order[u]]
                        &&& sl.value@[u] == values0[order[u]]
                        &&& self.value@[order[u]] is None
                    },
                forall|i: int|
                    0 <= i < CAPACITY ==> #[trigger] self.key@[i] == if order.contains(i) {
                        None
                    } else {
                        keys0[i]
                    },
                forall|i: int|
                    0 <= i < CAPACITY && !order.contains(i) && (order.len() == current_index || i != 0)
                        ==> #[trigger] self.value@[i] == values0[i],
                forall|u: int, w: int|
                    0 <= u < w < order.len() ==> entry_before(keys0, #[trigger] order[u], #[trigger] order[w]),
                forall|u: int, i: int|
                    0 <= u < order.len() && 0 <= i < CAPACITY && #[trigger] self.key@[i] is Some
                        ==> entry_before(keys0, #[trigger] order[u], i),
                order.len() < current_index ==> {
                    &&& no_keys(self.key@)
                    &&& self.value@[0] is None
                    &&& sl.value@[order.len() as int] == if keys0[0] is None {
                        values0[0]
                    } else {
                        None
                    }
                    &&& forall|u: int| order.len() < u < current_index ==> #[trigger] sl.value@[u] is None
                },
                forall|u: int| order.len() <= u < current_index ==> #[trigger] sl.key@[u] is None,
                forall|u: int| current_index <= u < CAPACITY ==> #[trigger] sl.key@[u] is None,
                forall|u: int| current_index <= u < CAPACITY ==> #[trigger] sl.value@[u] is None,
                key_count(self.key@, CAPACITY as int) + order.len() == key_count(keys0, CAPACITY as int),
            decreases CAPACITY - current_index,
        {
            let mut smallest_key_index: usize = 0;
            let mut i: usize = 0;
            while i < CAPACITY
                invariant
                    0 <= i <= CAPACITY,
                    smallest_key_index < CAPACITY,
                    (exists|j: int| 0 <= j < i && #[trigger] self.key@[j] is Some) ==> {
                        &&& smallest_key_index < i
                        &&& self.key@[smallest_key_index as int] is Some
                        &&& forall|j: int|
                            0 <= j < i && #[trigger] self.key@[j] is Some ==> ({
                                ||| self.key@[smallest_key_index as int]->0 < self.key@[j]->0
                                ||| (self.key@[smallest_key_index as int]->0 == self.key@[j]->0
                                    && smallest_key_index <= j)
                            })
                    },
                    (forall|j: int| 0 <= j < i ==> #[trigger] self.key@[j] is None) ==> smallest_key_index == 0,
                decreases CAPACITY - i,
            {
                match self.key[i] {
                    Some(x) => {
                        let smaller = match self.key[smallest_key_index] {
                            Some(y) => x < y,
                            None => true,
                        };
                        if smaller {
                            smallest_key_index = i;
                        }
                    },
                    None => {},
                }
                proof {
                    if self.key@[i as int] is None && (exists|j: int| 0 <= j < i + 1 && #[trigger] self.key@[j] is Some) {
                        let j = choose|j: int| 0 <= j < i + 1 && #[trigger] self.key@[j] is Some;
                        assert(j < i);
                    }
                }
                i += 1;
            }
            let ghost m = smallest_key_index as int;
            let ghost remaining = exists|j: int| 0 <= j < CAPACITY && #[trigger] self.key@[j] is Some;
            let ghost old_keys = self.key@;
            let ghost old_sl_values = sl.value@;
            let ghost old_values = self.value@;
            let moved_key = self.key[smallest_key_index];
            self.key[smallest_key_index] = None;
            sl.key[sl_index] = moved_key;
            let moved_value = self.value[smallest_key_index].take();
            sl.value[sl_index] = moved_value;
            proof {
                if remaining {
                    let j = choose|j: int| 0 <= j < CAPACITY && #[trigger] old_keys[j] is Some;
                    assert(old_keys[j] is Some);
                    assert(!order.contains(m));
                    lemma_key_count_remove(old_keys, CAPACITY as int, m);
                    assert(self.key@ =~= old_keys.update(m, None));
                    let new_order = order.push(m);
                    assert forall|i: int| 0 <= i < CAPACITY implies #[trigger] self.key@[i] == if new_order.contains(i) {
                        None
                    } else {
                        keys0[i]
                    } by {
                        if i == m {
                            assert(new_order[order.len() as int] == m);
                        } else if order.contains(i) {
                            let u = choose|u: int| 0 <= u < order.len() && order[u] == i;
                            assert(new_order[u] == i);
                        } else {
                            if new_order.contains(i) {
                                let u = choose|u: int| 0 <= u < new_order.len() && new_order[u] == i;
                                if u < order.len() {
                                    assert(order[u] == i);
                                }
                            }
                        }
                    }
                    assert forall|i: int|
                        0 <= i < CAPACITY && !new_order.contains(i) && (new_order.len() == current_index + 1 || i != 0)
                            implies #[trigger] self.value@[i] == values0[i] by {
                        assert(!order.contains(i)) by {
                            if order.contains(i) {
                                let u = choose|u: int| 0 <= u < order.len() && order[u] == i;
                                assert(new_order[u] == i);
                            }
                        }
                        assert(i != m) by {
                            assert(new_order[order.len() as int] == m);
                        }
                    }
                    assert forall|u: int, w: int|
                        0 <= u < w < new_order.len() implies entry_before(keys0, #[trigger] new_order[u], #[trigger] new_order[w]) by {
                        if w == order.len() {
                            assert(old_keys[m] is Some);
                        } else {
                            assert(order[u] == new_order[u]);
                            assert(order[w] == new_order[w]);
                        }
                    }
                    assert forall|u: int, i: int|
                        0 <= u < new_order.len() && 0 <= i < CAPACITY && #[trigger] self.key@[i] is Some
                            implies entry_before(keys0, #[trigger] new_order[u], i) by {
                        assert(i != m);
                        assert(old_keys[i] is Some);
                        if u < order.len() {
                            assert(order[u] == new_order[u]);
                        } else {
                            assert(new_order[u] == m);
                        }
                    }
                    order = new_order;
                } else {
                    assert(no_keys(old_keys));
                    assert(m == 0);
                    assert(self.key@ =~= old_keys);
                    if order.len() == current_index && keys0[0] is Some {
                        assert(order.contains(0));
                        let u = choose|u: int| 0 <= u < order.len() && order[u] == 0;
                        assert(old_values[order[u]] is None);
                    }
                }
            }
            sl_index += 1;
            current_index += 1;
        }
        proof {
            lemma_key_count_bounds(self.key@, CAPACITY as int);
            lemma_key_count_bounds(keys0, CAPACITY as int);
            assert(no_keys(self.key@));
            assert forall|i: int| 0 <= i < CAPACITY && #[trigger] keys0[i] is Some implies order.contains(i) by {
                assert(self.key@[i] is None);
            }
            assert(sorted_as(keys0, values0, sl.key@, sl.value@, order));
        }
        *self = sl;
    }
}

} // verus!
