use maple_tree::collections::maple_tree::{SparseLeaf, CAPACITY};

#[test]
fn test_sparse_leaf_get_len() {
    let mut sl: SparseLeaf<usize> = SparseLeaf::new();

    assert!(sl.get_len() == 0);

    let test_vals: [usize; 8] = [3, 8, 7, 4, 2, 1, 5, 6];

    for val in test_vals.iter() {
        sl.insert(*val, *val);
    }

    assert!(sl.get_len() == 8);

    let del_vals: [usize; 4] = [3, 8, 2, 1];
    for val in del_vals.iter() {
        sl.remove(val);
    }

    assert!(sl.get_len() == 4);
}

#[test]
fn test_sparse_leaf_get_max() {
    let mut sl: SparseLeaf<usize> = SparseLeaf::new();
    let test_vals: [usize; 8] = [3, 8, 7, 4, 2, 1, 5, 6];

    for val in test_vals.iter() {
        sl.insert(*val, *val);
    }

    // a full node
    assert!(sl.get_max() == Some(&8));

    // a node with empty slots between keys
    let del_vals: [usize; 4] = [3, 8, 2, 1];
    for val in del_vals.iter() {
        sl.remove(val);
    }

    assert!(sl.get_max() == Some(&7));

    // an empty node
    let sl_empty: SparseLeaf<usize> = SparseLeaf::new();
    assert!(sl_empty.get_max() == None);
}

#[test]
fn test_sparse_leaf_get_min() {
    let mut sl: SparseLeaf<usize> = SparseLeaf::new();
    let test_vals: [usize; 8] = [3, 8, 7, 4, 2, 1, 5, 6];

    for val in test_vals.iter() {
        sl.insert(*val, *val);
    }

    // a full node
    assert!(sl.get_min() == Some(&1));

    // a node with empty slots between keys
    let del_vals: [usize; 4] = [3, 8, 2, 1];
    for val in del_vals.iter() {
        sl.remove(val);
    }

    assert!(sl.get_min() == Some(&4));

    // an empty node
    let sl_empty: SparseLeaf<usize> = SparseLeaf::new();
    assert!(sl_empty.get_min() == None);
}

#[test]
fn test_sparse_leaf_search() {
    let mut sl: SparseLeaf<usize> = SparseLeaf::new();

    // a key that is there
    sl.insert(2, 2);

    assert!(sl.search(&2).is_some());

    // a key that is not
    assert!(sl.search(&3).is_none());

    sl = SparseLeaf::new();

    for i in 0..CAPACITY {
        sl.insert(i, i);
    }

    sl.remove(&3);

    assert!(sl.search(&4).is_some());
}

#[test]
fn test_sparse_leaf_update() {
    let mut sl: SparseLeaf<usize> = SparseLeaf::new();

    sl.insert(2, 2);

    // update in place
    sl.update(2, 3);

    assert!(sl.search(&2) == Some(&3));
}

#[test]
fn test_sparse_leaf_insert() {
    let mut sl: SparseLeaf<usize> = SparseLeaf::new();

    sl.insert(2, 2);

    // a key that is there
    assert!(sl.search(&2) == Some(&2));

    // a key that is not
    assert!(sl.search(&1).is_none());

    // insert into a full node
    for i in 1..CAPACITY {
        sl.insert(i, i);
    }

    assert!(sl.insert(8, 8).is_none())
}

#[test]
fn test_sparse_leaf_remove() {
    let mut sl: SparseLeaf<usize> = SparseLeaf::new();

    // removing a key that is not there fails
    assert!(sl.remove(&0).is_none());

    // removing a key that is there
    sl.insert(0, 0);
    assert!(sl.remove(&0).is_some());

    // removing keys out of order
    let remove_keys = [3, 7, 8, 1, 4];
    for i in 0..CAPACITY {
        sl.insert(i, i);
    }
    for i in 0..remove_keys.len() {
        assert!(sl.remove(&i).is_some());
    }
}

#[test]
fn test_sparse_leaf_check_bounds() {
    let mut sl: SparseLeaf<usize> = SparseLeaf::new();

    // an empty leaf is within any bounds
    assert!(sl.check_bounds(&0, &8));

    for i in 0..CAPACITY - 3 {
        sl.insert(i, i);
    }

    assert!(sl.check_bounds(&0, &8));

    // keys out of the bounds
    sl.insert(10, 10);
    sl.insert(11, 11);
    sl.insert(12, 12);
    assert!(sl.check_bounds(&0, &8) == false);
}

#[test]
fn test_sparse_leaf_sort() {
    // a full node
    let mut sl: SparseLeaf<usize> = SparseLeaf::new();
    let mut test_vals: [usize; 8] = [3, 8, 7, 4, 2, 1, 5, 6];
    let sorted_test_vals: [usize; 8] = [1, 2, 3, 4, 5, 6, 7, 8];

    for val in test_vals.iter() {
        sl.insert(*val, *val);
    }
    for i in 0..CAPACITY {
        match sl.key[i] {
            Some(v) => {
                println!("{0}", v);
            }
            None => println!("None"),
        }
    }
    sl.sort();

    for i in 0..CAPACITY {
        match sl.key[i] {
            Some(v) => {
                println!("(actualValue = {0}) - (sortedTestValue = {1})", v, sorted_test_vals[i]);
            }
            None => println!("None - {}", sorted_test_vals[i]),
        }
        assert!(sl.key[i] == Some(sorted_test_vals[i]));
    }

    // a half full node with empty slots between the keys
    test_vals = [3, 8, 4, 6, 2, 7, 1, 5];
    let none_positions: [usize; 4] = [8, 6, 7, 5];
    sl = SparseLeaf::new();

    for val in test_vals.iter() {
        sl.insert(*val, *val);
    }

    // remove every second value
    for val in none_positions.iter() {
        sl.remove(&val);
    }

    sl.sort();

    for i in 0..4 {
        println!("{} <-> ", sorted_test_vals[i]);
        assert!(sl.key[i] == Some(sorted_test_vals[i]));
    }
}
