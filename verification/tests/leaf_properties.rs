use maple_tree::collections::maple_tree::{
    FoundRange, Node, NodeTag, RangeLeaf, SparseLeaf, CAPACITY, D_CAPACITY, R_CAPACITY,
};

fn sparse_with(keys: &[usize]) -> SparseLeaf<usize> {
    let mut sl: SparseLeaf<usize> = SparseLeaf::new();
    for k in keys {
        assert!(sl.insert(*k, *k * 10).is_some());
    }
    sl
}

fn range_with(pivots: &[usize], values: &[Option<usize>]) -> RangeLeaf<usize> {
    let mut rn: RangeLeaf<usize> = RangeLeaf::new();
    for (i, p) in pivots.iter().enumerate() {
        rn.pivot[i] = Some(*p);
    }
    for (i, v) in values.iter().enumerate() {
        rn.value[i] = *v;
    }
    rn
}

#[test]
fn sparse_search_after_insert_finds_the_value() {
    let mut sl = sparse_with(&[4, 9]);
    assert!(sl.search(&7).is_none());
    assert_eq!(sl.insert(7, 77), Some(()));
    assert_eq!(sl.search(&7), Some(&77));
    assert_eq!(sl.key[2], Some(7));
}

#[test]
fn sparse_insert_takes_first_free_slot() {
    let mut sl = sparse_with(&[1, 2, 3]);
    assert_eq!(sl.remove(&2), Some(20));
    assert_eq!(sl.insert(8, 80), Some(()));
    assert_eq!(sl.key[1], Some(8));
    assert_eq!(sl.value[1], Some(80));
}

#[test]
fn sparse_insert_into_full_leaf_changes_nothing() {
    let mut sl = sparse_with(&[0, 1, 2, 3, 4, 5, 6, 7]);
    assert_eq!(sl.insert(100, 1), None);
    for i in 0..CAPACITY {
        assert_eq!(sl.key[i], Some(i));
        assert_eq!(sl.value[i], Some(i * 10));
    }
}

#[test]
fn sparse_search_finds_first_of_duplicate_keys() {
    let mut sl: SparseLeaf<usize> = SparseLeaf::new();
    sl.insert(5, 1);
    sl.insert(5, 2);
    assert_eq!(sl.search(&5), Some(&1));
}

#[test]
fn sparse_update_then_search() {
    let mut sl = sparse_with(&[3, 6]);
    assert_eq!(sl.update(6, 61), Some(60));
    assert_eq!(sl.search(&6), Some(&61));
    assert_eq!(sl.key[1], Some(6));
}

#[test]
fn sparse_update_of_missing_key_changes_nothing() {
    let mut sl = sparse_with(&[3, 6]);
    assert_eq!(sl.update(4, 1), None);
    assert_eq!(sl.value[0], Some(30));
    assert_eq!(sl.value[1], Some(60));
    assert_eq!(sl.value[2], None);
}

#[test]
fn sparse_remove_after_insert_restores_the_leaf() {
    let mut sl = sparse_with(&[3, 6]);
    sl.insert(9, 99);
    assert_eq!(sl.remove(&9), Some(99));
    assert_eq!(sl.key[0], Some(3));
    assert_eq!(sl.key[1], Some(6));
    for i in 2..CAPACITY {
        assert_eq!(sl.key[i], None);
        assert_eq!(sl.value[i], None);
    }
}

#[test]
fn sparse_search_after_remove_finds_nothing() {
    let mut sl = sparse_with(&[3, 6, 9]);
    assert_eq!(sl.remove(&6), Some(60));
    assert!(sl.search(&6).is_none());
    assert_eq!(sl.remove(&6), None);
    assert_eq!(sl.key[1], None);
}

#[test]
fn sparse_len_follows_insert_and_remove() {
    let mut sl = sparse_with(&[3, 6, 9]);
    assert_eq!(sl.get_len(), 3);
    sl.insert(1, 1);
    assert_eq!(sl.get_len(), 4);
    sl.remove(&6);
    assert_eq!(sl.get_len(), 3);
}

#[test]
fn sparse_min_and_max_with_equal_keys() {
    let mut sl: SparseLeaf<usize> = SparseLeaf::new();
    sl.insert(4, 0);
    sl.insert(4, 1);
    sl.insert(2, 2);
    sl.remove(&2);
    assert_eq!(sl.get_min(), Some(&4));
    assert_eq!(sl.get_max(), Some(&4));
}

#[test]
fn sparse_check_bounds_is_inclusive() {
    let mut sl = sparse_with(&[2, 5]);
    assert!(sl.check_bounds(&2, &5));
    assert!(!sl.check_bounds(&3, &5));
    assert!(!sl.check_bounds(&2, &4));
}

#[test]
fn sparse_sort_is_stable_and_keeps_search() {
    let mut sl: SparseLeaf<usize> = SparseLeaf::new();
    sl.insert(5, 1);
    sl.insert(3, 2);
    sl.insert(5, 3);
    sl.insert(1, 4);
    let before = *sl.search(&5).unwrap();
    sl.sort();
    assert_eq!(sl.key[0], Some(1));
    assert_eq!(sl.key[1], Some(3));
    assert_eq!(sl.key[2], Some(5));
    assert_eq!(sl.key[3], Some(5));
    assert_eq!(sl.value[0], Some(4));
    assert_eq!(sl.value[1], Some(2));
    assert_eq!(sl.value[2], Some(1));
    assert_eq!(sl.value[3], Some(3));
    assert_eq!(sl.key[4], None);
    assert_eq!(*sl.search(&5).unwrap(), before);
    assert_eq!(sl.get_len(), 4);
}

#[test]
fn sparse_sort_moves_stray_value_of_empty_first_slot() {
    let mut sl: SparseLeaf<usize> = SparseLeaf::new();
    sl.key[1] = Some(4);
    sl.value[1] = Some(1);
    sl.value[0] = Some(9);
    sl.sort();
    assert_eq!(sl.key[0], Some(4));
    assert_eq!(sl.value[0], Some(1));
    assert_eq!(sl.key[1], None);
    assert_eq!(sl.value[1], Some(9));
    for i in 2..CAPACITY {
        assert_eq!(sl.value[i], None);
    }
}

#[test]
fn range_len_counts_leading_pivots() {
    let mut rn = range_with(&[1, 2], &[]);
    rn.pivot[3] = Some(4);
    assert_eq!(rn.len(), 2);
    let mut empty: RangeLeaf<usize> = RangeLeaf::new();
    assert_eq!(empty.len(), 0);
    let mut full = range_with(&[1, 2, 3, 4, 5, 6, 7], &[]);
    assert_eq!(full.len(), R_CAPACITY);
}

#[test]
fn range_find_range_counts_pivots_on_ordered_leaf() {
    let mut rn = range_with(&[10, 20, 30], &[]);
    // one pivot at most 15, two pivots below 25
    assert_eq!(rn.find_range(&15, &25, &0, &100), 0..2);
    // no pivot at most 5, none below 8
    assert_eq!(rn.find_range(&5, &8, &0, &100), -1..0);
    // three pivots at most 35: the scan for the end stops at the first unused slot
    assert_eq!(rn.find_range(&35, &50, &0, &100), 2..3);
}

#[test]
fn range_move_right_opens_gap_and_left_closes_it() {
    let mut rn = range_with(&[1, 2, 3], &[Some(10), Some(11), Some(12), Some(13)]);
    assert!(rn.move_pivots_right(1, 2));
    assert_eq!(rn.pivot, [Some(1), None, None, Some(2), Some(3), None, None]);
    assert!(rn.move_pivots_left(3, 2));
    assert_eq!(rn.pivot, [Some(1), Some(2), Some(3), None, None, None, None]);
}

#[test]
fn range_move_right_refills_vacated_slots_with_pushed_out_values() {
    let mut rn = range_with(&[10, 20], &[Some(1), Some(2), Some(3)]);
    assert!(rn.move_pivots_right(0, 1));
    assert_eq!(rn.pivot, [None, Some(10), Some(20), None, None, None, None]);
    assert_eq!(rn.value, [Some(3), Some(1), Some(2), None, None, None, None, None]);
}

#[test]
fn range_move_right_by_zero_always_succeeds() {
    let mut rn = range_with(&[1, 2, 3, 4, 5, 6, 7], &[]);
    assert!(rn.move_pivots_right(6, 0));
    assert!(!rn.move_pivots_right(0, 1));
    assert_eq!(rn.pivot[6], Some(7));
}

#[test]
fn range_move_left_keeps_last_value() {
    let mut rn = range_with(&[1, 2, 3, 4, 5, 6, 7], &[Some(0), Some(1), Some(2), Some(3), Some(4), Some(5), Some(6), Some(7)]);
    assert!(rn.move_pivots_left(6, 2));
    assert_eq!(rn.pivot, [Some(1), Some(2), Some(3), Some(4), Some(7), Some(6), None]);
    assert_eq!(rn.value[4], Some(6));
    assert_eq!(rn.value[6], None);
    assert_eq!(rn.value[7], Some(7));
}

#[test]
fn range_rewrite_existing_range_changes_only_its_value() {
    let mut rn = range_with(&[10, 20, 30], &[Some(1), Some(2), Some(3), Some(4)]);
    assert!(rn.insert_range(20, 30, 9, &0, &100));
    assert_eq!(rn.pivot, [Some(10), Some(20), Some(30), None, None, None, None]);
    assert_eq!(rn.value, [Some(1), Some(2), Some(9), Some(4), None, None, None, None]);
    assert!(rn.insert_range(0, 10, 8, &0, &100));
    assert_eq!(rn.value[0], Some(8));
    assert_eq!(rn.pivot[0], Some(10));
}

#[test]
fn range_refused_insert_changes_nothing() {
    let mut rn = range_with(&[1, 2, 3, 4, 5, 6, 7], &[Some(0); 8]);
    assert!(!rn.insert_range(8, 9, 5, &0, &100));
    assert_eq!(rn.pivot, [Some(1), Some(2), Some(3), Some(4), Some(5), Some(6), Some(7)]);
    assert_eq!(rn.value, [Some(0); 8]);
}

#[test]
fn range_insert_single_key() {
    let mut rn: RangeLeaf<usize> = RangeLeaf::new();
    assert!(rn.insert(5, 42, &0, &100));
    assert_eq!(rn.pivot, [Some(5), Some(6), None, None, None, None, None]);
    assert_eq!(rn.value[1], Some(42));
    assert_eq!(rn.value[0], None);
}

#[test]
fn node_kinds_hold_their_leaves() {
    let node: Node<usize> = Node { tid: 3, inner: NodeTag::RL(RangeLeaf::new()) };
    match node.inner {
        NodeTag::RL(mut rn) => assert_eq!(rn.len(), 0),
        _ => unreachable!(),
    }
    assert_eq!(D_CAPACITY, 2 * CAPACITY);
    assert_eq!(FoundRange::Pivots(1, 2), FoundRange::Pivots(1, 2));
    assert!(FoundRange::Min(0) != FoundRange::Max(0));
}

#[test]
fn range_insert_across_a_pivot_keeps_the_rest_of_the_last_range() {
    // [7, 11) crosses pivot 10 into the last range [10, max]; its keys from 11
    // on keep the value 3
    let mut rn = range_with(&[2, 10], &[Some(2), None, Some(3)]);
    assert!(rn.insert_range(7, 11, 9, &0, &12));
    assert_eq!(rn.pivot, [Some(2), Some(7), Some(11), None, None, None, None]);
    assert_eq!(rn.value, [Some(2), None, Some(9), Some(3), None, None, None, None]);
}

#[test]
fn range_insert_over_several_ranges_maps_every_key() {
    // [15, 35) covers pivots 20 and 30; keys 35..40 keep 4, keys from 40 keep 5
    let mut rn = range_with(&[10, 20, 30, 40], &[Some(1), Some(2), Some(3), Some(4), Some(5)]);
    assert!(rn.insert_range(15, 35, 9, &0, &usize::MAX));
    assert_eq!(rn.pivot, [Some(10), Some(15), Some(35), Some(40), None, None, None]);
    assert_eq!(rn.value, [Some(1), Some(2), Some(9), Some(4), Some(5), None, None, None]);
}

#[test]
fn range_insert_splitting_one_range_duplicates_its_value() {
    let mut rn = range_with(&[10, 20], &[Some(1), Some(2), Some(3)]);
    assert!(rn.insert_range(12, 15, 9, &0, &100));
    assert_eq!(rn.pivot, [Some(10), Some(12), Some(15), Some(20), None, None, None]);
    assert_eq!(rn.value, [Some(1), Some(2), Some(9), Some(2), Some(3), None, None, None]);
}

#[test]
fn range_insert_up_to_max_in_full_leaf_needs_no_pivot_at_max() {
    let mut rn = range_with(&[1, 2, 3, 4, 5, 6, 7], &[Some(0); 8]);
    assert!(rn.insert_range(7, 100, 9, &0, &100));
    assert_eq!(rn.pivot, [Some(1), Some(2), Some(3), Some(4), Some(5), Some(6), Some(7)]);
    assert_eq!(rn.value[7], Some(9));
}

#[test]
fn range_find_range_from_min_across_pivots() {
    let mut rn = range_with(&[10, 20], &[]);
    assert_eq!(rn.find_range(&5, &30, &0, &100), -1..2);
}

#[test]
fn range_full_leaf_refuses_range_past_last_pivot_below_max() {
    let pivots = [10, 20, 30, 40, 50, 60, 70];
    let mut rn = range_with(&pivots, &[Some(1); 8]);
    assert!(!rn.insert_range(15, 80, 9, &0, &100));
    assert_eq!(rn.pivot, [Some(10), Some(20), Some(30), Some(40), Some(50), Some(60), Some(70)]);
    assert_eq!(rn.value, [Some(1); 8]);
    // ending at the maximum is accepted
    assert!(rn.insert_range(15, 100, 9, &0, &100));
    assert_eq!(rn.pivot, [Some(10), Some(15), Some(100), None, None, None, None]);
    assert_eq!(rn.value, [Some(1), Some(1), Some(9), Some(1), None, None, None, None]);
}
