use data_structures::segment_tree::SegmentTree;

fn least(a: u64, b: u64) -> u64 {
    if a < b {
        a
    } else {
        b
    }
}

#[test]
fn minimum_over_five_positions() {
    let mut tree = SegmentTree::new(5, least, least, u64::MAX);
    tree.update(2, 3);
    tree.update(4, 1);
    assert_eq!(tree.get_all(0, 5), 1);
    assert_eq!(tree.get_all(0, 3), 3);
}

#[test]
fn new_tree_holds_the_default() {
    let tree = SegmentTree::new(6, |a: i64, b: i64| a.wrapping_add(b), |a: i64, x: i32| a.wrapping_add(x as i64), 0i64);
    for v in 0..6 {
        assert_eq!(tree.get(v), 0);
    }
    assert_eq!(tree.get_all(0, 6), 0);
}

#[test]
fn update_accumulates() {
    let mut tree = SegmentTree::new(4, |a: i64, b: i64| a.wrapping_add(b), |a: i64, x: i32| a.wrapping_add(x as i64), 0i64);
    tree.update(1, 5);
    tree.update(1, 7);
    tree.update(3, -2);
    assert_eq!(tree.get(1), 12);
    assert_eq!(tree.get(3), -2);
    assert_eq!(tree.get(0), 0);
    assert_eq!(tree.get_all(0, 4), 10);
    assert_eq!(tree.get_all(1, 2), 12);
    assert_eq!(tree.get_all(2, 4), -2);
}

#[test]
fn every_range_of_a_sum_tree() {
    let n = 13usize;
    let mut tree = SegmentTree::new(n, |a: u64, b: u64| a.wrapping_add(b), |_a: u64, x: u64| x, 0u64);
    let held: Vec<u64> = (0..n as u64).map(|i| i * i + 1).collect();
    for (i, v) in held.iter().enumerate() {
        tree.update(i, *v);
    }
    for l in 0..=n {
        for r in 0..=n {
            let want: u64 = if l <= r { held[l..r].iter().sum() } else { 0 };
            assert_eq!(tree.get_all(l, r), want);
        }
    }
}

#[test]
fn order_of_combination_is_left_to_right() {
    let join = |a: (u64, u64), b: (u64, u64)| {
        if a.1 == 0 {
            b
        } else if b.1 == 0 {
            a
        } else {
            (a.0 * 10u64.pow(b.1 as u32) + b.0, a.1 + b.1)
        }
    };
    let mut tree = SegmentTree::new(7, join, |_a: (u64, u64), x: u64| (x, 1), (0u64, 0u64));
    for i in 0..7usize {
        tree.update(i, i as u64 + 1);
    }
    assert_eq!(tree.get_all(0, 7), (1234567, 7));
    assert_eq!(tree.get_all(2, 5), (345, 3));
    assert_eq!(tree.get_all(1, 6), (23456, 5));
    assert_eq!(tree.get_all(3, 3), (0, 0));
}

#[test]
fn one_position_and_none() {
    let mut tree = SegmentTree::new(1, least, least, u64::MAX);
    assert_eq!(tree.get_all(0, 1), u64::MAX);
    tree.update(0, 9);
    assert_eq!(tree.get(0), 9);
    assert_eq!(tree.get_all(0, 1), 9);
    assert_eq!(tree.get_all(0, 0), u64::MAX);
    let none = SegmentTree::new(0, least, least, u64::MAX);
    assert_eq!(none.get_all(0, 0), u64::MAX);
}
