use maple_tree::collections::maple_tree::{RangeLeaf, CAPACITY, R_CAPACITY};
use std::ops;

fn check_node_state(pivots: [usize; R_CAPACITY], values: [usize; CAPACITY], node: &RangeLeaf<usize>) {
    println!("check_node_state output");
    println!("pivot = [");
    for i in 0..R_CAPACITY {
        if pivots[i] == 0 {
            match node.pivot[i] {
                Some(p) => println!("{}, ", p),
                _ => println!("X, "),
            }
            assert!(None == node.pivot[i]);
        } else {
            match node.pivot[i] {
                Some(p) => println!("{}, ", p),
                _ => println!("X, "),
            }
            assert!(Some(pivots[i]) == node.pivot[i]);
        }
    }

    println!("]\nvalue = [");
    for i in 0..CAPACITY {
        if values[i] == 0 {
            println!("X, ");
            assert!(None == node.value[i]);
        } else {
            match node.value[i] {
                Some(p) => println!("{}, ", p),
                _ => println!(", "),
            }
            assert!(Some(values[i]) == node.value[i]);
        }
    }
    println!("]\n\n");
}

#[test]
fn test_range_node_insert_range() {
    let mut rn: RangeLeaf<usize> = RangeLeaf::new();
    let min = 0;
    let max = std::usize::MAX;

    assert!(rn.insert_range(10, 20, 1, &min, &max) == true);
    println!("{:?}", rn);
    check_node_state([10, 20, 0, 0, 0, 0, 0], [0, 1, 0, 0, 0, 0, 0, 0], &rn);

    assert!(rn.insert_range(15, 17, 6, &min, &max) == true);
    println!("{:?}", rn);
    check_node_state([10, 15, 17, 20, 0, 0, 0], [0, 1, 6, 1, 0, 0, 0, 0], &rn);

    assert!(rn.insert_range(20, 40, 7, &min, &max) == true);
    println!("{:?}", rn);
    check_node_state([10, 15, 17, 20, 40, 0, 0], [0, 1, 6, 1, 7, 0, 0, 0], &rn);

    assert!(rn.insert_range(10, 40, 3, &min, &max) == true);
    println!("{:?}", rn);
    check_node_state([10, 40, 0, 0, 0, 0, 0], [0, 3, 0, 0, 0, 0, 0, 0], &rn);

    assert!(rn.insert_range(7, 8, 7, &min, &max) == true);
    println!("{:?}", rn);
    check_node_state([7, 8, 10, 40, 0, 0, 0], [0, 7, 0, 3, 0, 0, 0, 0], &rn);

    assert!(rn.insert_range(0, 7, 2, &min, &max) == true);
    println!("{:?}", rn);
    check_node_state([7, 8, 10, 40, 0, 0, 0], [2, 7, 0, 3, 0, 0, 0, 0], &rn);

    assert!(rn.insert_range(5, 7, 10, &min, &max) == true);
    println!("{:?}", rn);
    check_node_state([5, 7, 8, 10, 40, 0, 0], [2, 10, 7, 0, 3, 0, 0, 0], &rn);

    assert!(rn.insert_range(5, 7, 10, &min, &max) == true);
    println!("{:?}", rn);
    check_node_state([5, 7, 8, 10, 40, 0, 0], [2, 10, 7, 0, 3, 0, 0, 0], &rn);

    assert!(rn.insert_range(9, 30, 15, &min, &max) == true);
    println!("{:?}", rn);
    check_node_state([5, 7, 8, 9, 30, 40, 0], [2, 10, 7, 0, 15, 3, 0, 0], &rn);

    assert!(rn.insert_range(40, 60, 5, &min, &max) == true);
    println!("{:?}", rn);
    check_node_state([5, 7, 8, 9, 30, 40, 60], [2, 10, 7, 0, 15, 3, 5, 0], &rn);

    assert!(rn.insert_range(60, 70, 5, &min, &max) == false);

    assert!(rn.insert_range(60, max, 9, &min, &max) == true);
    println!("{:?}", rn);
    check_node_state([5, 7, 8, 9, 30, 40, 60], [2, 10, 7, 0, 15, 3, 5, 9], &rn);

    // a fresh leaf
    rn = RangeLeaf::new();
    assert!(rn.insert_range(50, max, 1, &min, &max) == true);
    println!("{:?}", rn);
    check_node_state([50, max, 0, 0, 0, 0, 0], [0, 1, 0, 0, 0, 0, 0, 0], &rn);

    assert!(rn.insert_range(50, 75, 2, &min, &max) == true);
    println!("{:?}", rn);
    check_node_state([50, 75, max, 0, 0, 0, 0], [0, 2, 1, 0, 0, 0, 0, 0], &rn);

    assert!(rn.insert_range(20, 40, 3, &min, &max) == true);
    println!("{:?}", rn);
    check_node_state([20, 40, 50, 75, max, 0, 0], [0, 3, 0, 2, 1, 0, 0, 0], &rn);
}

#[test]
fn test_range_node_find_range() {
    let mut rn: RangeLeaf<usize> = RangeLeaf::new();
    let min: usize = 3;
    let max: usize = 100;

    assert!(rn.find_range(&3, &4, &min, &max) == ops::Range { start: -1, end: 0 });

    assert!(rn.find_range(&10, &20, &min, &max) == ops::Range { start: -1, end: 0 });
    rn.pivot[0] = Some(7);

    assert!(rn.find_range(&4, &6, &min, &max) == ops::Range { start: -1, end: 0 });

    rn.pivot[1] = Some(11);
    rn.pivot[2] = Some(20);
    rn.pivot[3] = Some(25);
    rn.pivot[4] = Some(35);
    rn.pivot[5] = Some(69);
    rn.pivot[6] = Some(85);

    assert!(rn.find_range(&20, &25, &min, &max) == ops::Range { start: 2, end: 3 });
    assert!(rn.find_range(&3, &4, &min, &max) == ops::Range { start: -1, end: 0 });
    assert!(rn.find_range(&5, &17, &min, &max) == ops::Range { start: -1, end: 2 });
    assert!(rn.find_range(&7, &25, &min, &max) == ops::Range { start: 0, end: 3 });
    assert!(rn.find_range(&3, &100, &min, &max) == ops::Range { start: -1, end: R_CAPACITY as isize });
    assert!(rn.find_range(&90, &95, &min, &max) == ops::Range { start: 6, end: R_CAPACITY as isize });
    assert!(rn.find_range(&20, &95, &min, &max) == ops::Range { start: 2, end: R_CAPACITY as isize });
}

#[test]
fn test_range_node_move_pivots_left() {
    let mut rn: RangeLeaf<usize> = RangeLeaf::new();

    rn.pivot[0] = Some(1);
    rn.value[0] = Some(3);

    rn.pivot[1] = Some(2);
    rn.value[1] = Some(5);

    rn.pivot[2] = Some(6);
    rn.value[2] = Some(23);

    rn.pivot[3] = Some(7);
    rn.value[3] = Some(5);

    rn.pivot[4] = Some(17);
    rn.value[4] = Some(2);

    rn.pivot[5] = Some(19);
    rn.pivot[6] = None;

    assert!(rn.move_pivots_left(3, 3) == true);
    check_node_state([7, 17, 19, 0, 0, 0, 0], [5, 2, 0, 0, 0, 0, 0, 0], &rn);

    assert!(rn.move_pivots_left(3, 4) == false);

    assert!(rn.move_pivots_left(10, 3) == false);

    assert!(rn.move_pivots_left(12, 15) == false);

    assert!(rn.move_pivots_left(0, 1) == false);

    assert!(rn.move_pivots_left(1, 1) == true);
    check_node_state([17, 19, 0, 0, 0, 0, 0], [2, 0, 0, 0, 0, 0, 0, 0], &rn);
}

// move_pivots_right is also exercised through insert_range; here the pivots
// are set by hand
#[test]
fn test_range_node_move_pivots_right() {
    let mut rn: RangeLeaf<usize> = RangeLeaf::new();
    rn.pivot[0] = Some(6);

    assert!(rn.move_pivots_right(0, 2) == true);
    for i in 0..R_CAPACITY {
        if i == 2 {
            assert!(rn.pivot[2] == Some(6));
        } else {
            assert!(rn.pivot[i] == None);
        }
    }

    let test_one: [usize; R_CAPACITY] = [1, 2, 6, 7, 0, 17, 19];

    rn.pivot[0] = Some(1);
    rn.pivot[1] = Some(2);
    rn.pivot[2] = Some(6);
    rn.pivot[3] = Some(7);
    rn.pivot[4] = Some(17);
    rn.pivot[5] = Some(19);
    rn.pivot[6] = None;

    assert!(rn.move_pivots_right(4, 1) == true);

    for i in 0..R_CAPACITY {
        if test_one[i] == 0 {
            assert!(rn.pivot[i] == None);
        } else {
            println!("{}", i);
            assert!(rn.pivot[i] == Some(test_one[i]));
        }
    }

    let test_two: [usize; R_CAPACITY] = [1, 2, 6, 7, 10, 15, 20];

    for i in 0..R_CAPACITY {
        rn.pivot[i] = Some(test_two[i]);
    }

    assert!(rn.move_pivots_right(4, 1) == false);

    let test_three: [usize; R_CAPACITY] = [1, 2, 6, 7, 10, 15, 0];

    for i in 0..R_CAPACITY - 1 {
        if test_three[i] == 0 {
            rn.pivot[i] = None;
        } else {
            rn.pivot[i] = Some(test_three[i]);
        }
    }

    assert!(rn.move_pivots_right(2, 3) == false);
}
