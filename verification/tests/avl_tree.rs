use data_structures::avl_tree::display::dels;
use data_structures::avl_tree::{AVLTree, Monoid};
use data_structures::history::Edit;
use std::fmt;

fn sample() -> AVLTree<i64> {
    let mut tree = AVLTree::Empty();
    for v in [5i64, 3, 8, 1, 4, 7, 9] {
        tree.insert(v);
    }
    tree
}

fn values(tree: &AVLTree<i64>) -> Vec<i64> {
    (0..tree.size()).map(|i| tree.index(i)).collect()
}

#[test]
fn test() {
    let tree: AVLTree<i64> = AVLTree::Empty();
    assert!(tree.is_empty());
    assert_eq!(tree.size(), 0);
}

#[test]
fn empty_tree_records_nothing() {
    let tree: AVLTree<i64> = AVLTree::Empty();
    assert_eq!(tree.height(), 0);
    assert_eq!(tree.size(), 0);
    assert_eq!(tree.sum(), 0);
    assert!(!tree.find(1));
    assert_eq!(tree.mappend_from_to(0, 10), 0);
    assert_eq!(tree.in_order(), "");
    assert_eq!(tree.pre_order(), "");
    assert_eq!(tree.post_order(), "");
}

#[test]
fn insert_seven_values_range_and_rank() {
    let tree = sample();
    assert_eq!(tree.mappend_from_to(3, 8), 27);
    assert_eq!(tree.index(0), 1);
    assert_eq!(tree.index(6), 9);
    assert_eq!(tree.size(), 7);
    assert_eq!(tree.sum(), 37);
    assert_eq!(tree.height(), 3);
}

#[test]
fn delete_root_value() {
    let mut tree = sample();
    let before = tree.size();
    assert!(tree.find(5));
    tree.delete(5);
    assert!(!tree.find(5));
    assert_eq!(tree.size(), before - 1);
    assert_eq!(values(&tree), vec![1, 3, 4, 7, 8, 9]);
    assert_eq!(tree.sum(), 32);
    assert_eq!(tree.height(), 3);
    assert!(tree.is_well_formed());
}

#[test]
fn insert_changes_the_tree() {
    let mut tree: AVLTree<i64> = AVLTree::Empty();
    tree.insert(42);
    assert!(!tree.is_empty());
    assert!(tree.find(42));
    assert_eq!(tree.size(), 1);
    assert_eq!(tree.height(), 1);
    assert_eq!(tree.sum(), 42);
}

#[test]
fn insert_present_value_changes_nothing() {
    let mut tree = sample();
    let text = tree.in_order();
    let copy = tree.clone();
    tree.insert(4);
    assert_eq!(tree.size(), 7);
    assert_eq!(tree.in_order(), text);
    assert!(tree == copy);
}

#[test]
fn delete_absent_value_changes_nothing() {
    let mut tree = sample();
    let copy = tree.clone();
    tree.delete(6);
    assert_eq!(tree.size(), 7);
    assert!(tree == copy);
}

#[test]
fn find_follows_inserts_and_deletes() {
    let mut tree: AVLTree<i64> = AVLTree::Empty();
    for v in 0..50i64 {
        tree.insert(v * 3);
    }
    for v in 0..150i64 {
        assert_eq!(tree.find(v), v % 3 == 0);
    }
    for v in 0..50i64 {
        if v % 2 == 0 {
            tree.delete(v * 3);
        }
    }
    for v in 0..150i64 {
        assert_eq!(tree.find(v), v % 3 == 0 && (v / 3) % 2 == 1);
    }
    assert_eq!(tree.size(), 25);
}

#[test]
fn index_gives_values_in_increasing_order() {
    let mut tree: AVLTree<i64> = AVLTree::Empty();
    for v in [20i64, -3, 11, 7, 0, 15, 2, 9] {
        tree.insert(v);
    }
    assert_eq!(values(&tree), vec![-3, 0, 2, 7, 9, 11, 15, 20]);
    let text: String = values(&tree).iter().map(|v| format!(" {} ", v)).collect();
    assert_eq!(tree.in_order(), text);
}

#[test]
fn heights_stay_logarithmic() {
    let mut tree: AVLTree<i64> = AVLTree::Empty();
    for v in 0..1000i64 {
        tree.insert(v);
    }
    assert_eq!(tree.size(), 1000);
    assert!(tree.is_well_formed());
    assert!(tree.height() <= 14);
    assert_eq!(tree.sum(), 499500);
    for v in 0..900i64 {
        tree.delete(v);
    }
    assert_eq!(tree.size(), 100);
    assert!(tree.is_well_formed());
    assert!(tree.height() <= 9);
    assert_eq!(tree.sum(), (900..1000i64).sum::<i64>());
    assert_eq!(values(&tree), (900..1000i64).collect::<Vec<i64>>());
}

#[test]
fn single_rotation_on_ascending_inserts() {
    let mut tree: AVLTree<i64> = AVLTree::Empty();
    tree.insert(1);
    tree.insert(2);
    tree.insert(3);
    assert_eq!(tree.height(), 2);
    assert_eq!(tree.pre_order(), "2  1   3 ");
}

#[test]
fn double_rotation_on_inner_insert() {
    let mut tree: AVLTree<i64> = AVLTree::Empty();
    tree.insert(3);
    tree.insert(1);
    tree.insert(2);
    assert_eq!(tree.height(), 2);
    assert_eq!(tree.pre_order(), "2  1   3 ");
    let mut other: AVLTree<i64> = AVLTree::Empty();
    other.insert(1);
    other.insert(3);
    other.insert(2);
    assert_eq!(other.pre_order(), "2  1   3 ");
}

#[test]
fn delete_takes_successor_then_predecessor() {
    let mut tree: AVLTree<i64> = AVLTree::Empty();
    for v in [2i64, 1, 3] {
        tree.insert(v);
    }
    tree.delete(2);
    assert_eq!(tree.pre_order(), "3  1  ");
    tree.delete(3);
    assert_eq!(tree.pre_order(), "1  ");
    tree.delete(1);
    assert!(tree.is_empty());
}

#[test]
fn min_and_max_are_the_ends() {
    let tree = sample();
    assert_eq!(tree.min(), 1);
    assert_eq!(tree.max(), 9);
    let leaf = AVLTree::from(6i64);
    assert_eq!(leaf.min(), 6);
    assert_eq!(leaf.max(), 6);
}

#[test]
fn traversal_texts() {
    let tree = sample();
    assert_eq!(tree.in_order(), " 1  3  4  5  7  8  9 ");
    assert_eq!(tree.pre_order(), "5  1  3  4   7  8  9 ");
    assert_eq!(tree.post_order(), " 1  3  4   7  8  9  5");
}

#[test]
fn range_aggregate_between_stored_bounds() {
    let tree = sample();
    assert_eq!(tree.mappend_from_to(1, 9), 37);
    assert_eq!(tree.mappend_from_to(1, 5), 13);
    assert_eq!(tree.mappend_from_to(4, 7), 16);
    assert_eq!(tree.mappend_from_to(7, 9), 24);
}

#[test]
fn range_aggregate_without_a_value_in_range_is_the_identity() {
    let leaf = AVLTree::from(5i64);
    assert_eq!(leaf.mappend_from_to(5, 5), 5);
    assert_eq!(leaf.mappend_from_to(6, 7), 0);
    assert_eq!(leaf.mappend_from_to(1, 4), 0);
    let mut one: AVLTree<i64> = AVLTree::Empty();
    one.insert(10);
    assert_eq!(one.mappend_from_to(1, 2), 0);
    let tree = sample();
    assert_eq!(tree.mappend_from_to(10, 20), 0);
    assert_eq!(tree.mappend_from_to(-5, 0), 0);
    assert_eq!(tree.mappend_from_to(6, 6), 0);
}

#[test]
fn range_aggregate_takes_a_root_above_the_lower_bound() {
    let mut tree: AVLTree<i64> = AVLTree::Empty();
    for v in [3i64, 1, 5] {
        tree.insert(v);
    }
    assert_eq!(tree.mappend_from_to(2, 10), 8);
    assert_eq!(tree.mappend_from_to(0, 4), 4);
    assert_eq!(tree.mappend_from_to(3, 3), 3);
}

#[test]
fn range_aggregate_is_the_sum_of_the_range() {
    let mut tree: AVLTree<i64> = AVLTree::Empty();
    let held = [12i64, 4, 9, 1, 20, 15, 7, 3, 18, 11, 6];
    for v in held {
        tree.insert(v);
    }
    for lo in -1..23i64 {
        for hi in -1..23i64 {
            let want: i64 = held.iter().filter(|v| lo <= **v && **v <= hi).sum();
            assert_eq!(tree.mappend_from_to(lo, hi), want);
        }
    }
}

#[test]
fn divide_then_merge_gives_the_values_back() {
    for k in [-1i64, 1, 4, 5, 6, 9, 10] {
        let tree = sample();
        let (low, high) = tree.divide(k);
        let below: Vec<i64> = [1i64, 3, 4, 5, 7, 8, 9].into_iter().filter(|v| *v <= k).collect();
        let above: Vec<i64> = [1i64, 3, 4, 5, 7, 8, 9].into_iter().filter(|v| *v > k).collect();
        assert_eq!(values(&low), below);
        assert_eq!(values(&high), above);
        assert!(low.is_well_formed());
        assert!(high.is_well_formed());
        let merged = AVLTree::avl_merge(low, high);
        assert!(merged.is_well_formed());
        assert_eq!(values(&merged), vec![1, 3, 4, 5, 7, 8, 9]);
        assert_eq!(merged.sum(), 37);
        assert!(merged.height() <= 4);
    }
}

#[test]
fn merge_trees_of_different_heights() {
    let mut small: AVLTree<i64> = AVLTree::Empty();
    small.insert(-5);
    let mut large: AVLTree<i64> = AVLTree::Empty();
    for v in 0..200i64 {
        large.insert(v);
    }
    let merged = AVLTree::avl_merge(small, large);
    assert_eq!(merged.size(), 201);
    assert!(merged.is_well_formed());
    assert_eq!(merged.index(0), -5);
    assert_eq!(merged.index(200), 199);
    assert!(merged.height() <= 10);
    let mut left: AVLTree<i64> = AVLTree::Empty();
    for v in 0..200i64 {
        left.insert(v);
    }
    let rooted = AVLTree::avl_merge_with_root(500, left, AVLTree::from(900i64));
    assert_eq!(rooted.size(), 202);
    assert!(rooted.is_well_formed());
    assert_eq!(rooted.index(200), 500);
    assert_eq!(rooted.index(201), 900);
    assert!(rooted.height() <= 10);
    assert_eq!(rooted.sum(), 19900 + 1400);
}

#[test]
fn merge_with_an_empty_side() {
    let tree = sample();
    let merged = AVLTree::avl_merge(AVLTree::Empty(), tree);
    assert_eq!(values(&merged), vec![1, 3, 4, 5, 7, 8, 9]);
    let merged = AVLTree::avl_merge(merged, AVLTree::Empty());
    assert_eq!(values(&merged), vec![1, 3, 4, 5, 7, 8, 9]);
    let none: AVLTree<i64> = AVLTree::avl_merge(AVLTree::Empty(), AVLTree::Empty());
    assert!(none.is_empty());
}

#[test]
fn constructors() {
    let leaf = AVLTree::from(7i64);
    assert_eq!(leaf.size(), 1);
    assert_eq!(leaf.height(), 1);
    assert_eq!(leaf.sum(), 7);
    let node = AVLTree::from_parts(5i64, AVLTree::from(2i64), AVLTree::from(9i64));
    assert_eq!(node.size(), 3);
    assert_eq!(node.height(), 2);
    assert_eq!(node.sum(), 16);
    assert_eq!(node.in_order(), " 2  5  9 ");
    let given = AVLTree::from((5i64, AVLTree::from(2i64), AVLTree::from(9i64), 2usize, 3usize, 16i64));
    assert!(given == node);
    let halves = AVLTree::from_halves(AVLTree::from(2i64), node);
    assert_eq!(halves.size(), 4);
    assert_eq!(halves.pre_order(), "2  2   5  9 ");
}

#[test]
fn unsigned_sum_wraps() {
    let mut tree: AVLTree<u64> = AVLTree::Empty();
    tree.insert(u64::MAX);
    tree.insert(2);
    assert_eq!(tree.sum(), 1);
    assert_eq!(5u64.mappend(6), 11);
    assert_eq!(<u64 as Monoid>::MEMPTY, 0);
    assert_eq!(i64::MAX.mappend(1), i64::MIN);
    assert_eq!(<i64 as Monoid>::MEMPTY, 0);
}

#[derive(Clone, Copy, PartialEq, Eq, PartialOrd, Ord, Debug)]
struct Least(u32);

impl fmt::Display for Least {
    fn fmt(&self, f: &mut fmt::Formatter) -> fmt::Result {
        f.write_str(&format!("<{}>", self.0))
    }
}

impl Monoid for Least {
    const MEMPTY: Self = Least(u32::MAX);

    fn combine(self, other: Self) -> Self {
        self.mappend(other)
    }

    fn mappend(self, other: Self) -> Self {
        if other.0 < self.0 {
            other
        } else {
            self
        }
    }

    fn lemma_identity(_a: Self) {}

    fn lemma_associative(_a: Self, _b: Self, _c: Self) {}
}

#[test]
fn a_monoid_of_the_caller() {
    let mut tree: AVLTree<Least> = AVLTree::Empty();
    for v in [40u32, 10, 30, 20] {
        tree.insert(Least(v));
    }
    assert_eq!(tree.sum(), Least(10));
    assert_eq!(tree.mappend_from_to(Least(20), Least(40)), Least(20));
    assert_eq!(tree.mappend_from_to(Least(30), Least(40)), Least(30));
    assert_eq!(tree.mappend_from_to(Least(41), Least(50)), Least(u32::MAX));
    assert_eq!(tree.in_order(), " <10>  <20>  <30>  <40> ");
    tree.delete(Least(10));
    assert_eq!(tree.sum(), Least(20));
}

#[test]
fn white_space_is_normalised() {
    assert_eq!(dels(String::from("  a \t b\n\nc  ")), "a b c");
    assert_eq!(dels(String::from("one")), "one");
    assert_eq!(dels(String::from("[  [ 1 ]  2   ]")), "[ [ 1 ] 2 ]");
    assert_eq!(dels(String::from("x\u{c}y\rz")), "x y z");
    assert_eq!(dels(String::from("a\u{a0}b \u{e9}")), "a\u{a0}b \u{e9}");
    assert_eq!(dels(String::from("   ")), "");
    assert_eq!(dels(String::new()), "");
}

#[test]
fn bracketed_texts() {
    let tree = sample();
    assert_eq!(tree.display_text(), "[ [ [ 1 ] 3 [ 4 ] ] 5 [ [ 7 ] 8 [ 9 ] ] ]");
    assert_eq!(
        tree.debug_text(),
        "[ [ [ (1,1) ] (3,2) [ (4,1) ] ] (5,3) [ [ (7,1) ] (8,2) [ (9,1) ] ] ]"
    );
    let mut two: AVLTree<i64> = AVLTree::Empty();
    assert_eq!(two.display_text(), "");
    assert_eq!(two.debug_text(), "");
    two.insert(1);
    assert_eq!(two.display_text(), "[ 1 ]");
    two.insert(2);
    assert_eq!(two.display_text(), "[ 1 [ 2 ] ]");
    assert_eq!(two.debug_text(), "[ (1,2) [ (2,1) ] ]");
}

#[test]
fn invariant_holds_after_every_edit() {
    let mut tree: AVLTree<i64> = AVLTree::Empty();
    let mut model = std::collections::BTreeSet::new();
    let mut state: u64 = 12345;
    for step in 0..600 {
        state = state.wrapping_mul(6364136223846793005).wrapping_add(1442695040888963407);
        let v = ((state >> 33) % 97) as i64;
        if step % 3 == 2 {
            tree.delete(v);
            model.remove(&v);
        } else {
            tree.insert(v);
            model.insert(v);
        }
        assert!(tree.is_well_formed());
        assert_eq!(tree.size(), model.len());
        assert_eq!(tree.find(v), model.contains(&v));
        assert_eq!(tree.sum(), model.iter().sum::<i64>());
    }
    assert_eq!(values(&tree), model.iter().copied().collect::<Vec<i64>>());
    for v in 0..97i64 {
        assert_eq!(tree.find(v), model.contains(&v));
    }
}

#[test]
fn wrong_records_do_not_meet_the_invariant() {
    let leaf = || AVLTree::from(2i64);
    let good = AVLTree::from((5i64, leaf(), AVLTree::from(9i64), 2usize, 3usize, 16i64));
    assert!(good.is_well_formed());
    let wrong_height = AVLTree::from((5i64, leaf(), AVLTree::from(9i64), 3usize, 3usize, 16i64));
    assert!(!wrong_height.is_well_formed());
    let wrong_size = AVLTree::from((5i64, leaf(), AVLTree::from(9i64), 2usize, 4usize, 16i64));
    assert!(!wrong_size.is_well_formed());
    let wrong_sum = AVLTree::from((5i64, leaf(), AVLTree::from(9i64), 2usize, 3usize, 15i64));
    assert!(!wrong_sum.is_well_formed());
    let wrong_order = AVLTree::from((1i64, leaf(), AVLTree::from(9i64), 2usize, 3usize, 12i64));
    assert!(!wrong_order.is_well_formed());
    let lopsided = AVLTree::from((9i64, good, AVLTree::Empty(), 3usize, 4usize, 25i64));
    assert!(!lopsided.is_well_formed());
}

#[test]
fn delete_rebalances() {
    let mut tree: AVLTree<i64> = AVLTree::Empty();
    for v in [4i64, 2, 6, 1, 3, 5, 7, 8] {
        tree.insert(v);
    }
    assert_eq!(tree.height(), 4);
    tree.delete(1);
    tree.delete(3);
    tree.delete(2);
    assert!(tree.is_well_formed());
    assert_eq!(tree.height(), 3);
    assert_eq!(values(&tree), vec![4, 5, 6, 7, 8]);
    assert_eq!(tree.pre_order(), "6  4  5   7  8 ");
}

fn leaf(v: i64) -> AVLTree<i64> {
    AVLTree::from(v)
}

#[test]
fn a_tie_takes_the_single_rotation() {
    let mut tree: AVLTree<i64> = AVLTree::Empty();
    for v in [4i64, 2, 5, 1, 3] {
        tree.insert(v);
    }
    tree.delete(5);
    let want = AVLTree::from_parts(
        2,
        leaf(1),
        AVLTree::from_parts(4, leaf(3), AVLTree::Empty()),
    );
    assert!(tree == want);
}

#[test]
fn rooted_merge_descends_into_the_higher_tree() {
    let left = AVLTree::from_parts(2, leaf(1), leaf(3));
    let merged = AVLTree::avl_merge_with_root(4, left, AVLTree::Empty());
    let want = AVLTree::from_parts(
        2,
        leaf(1),
        AVLTree::from_parts(4, leaf(3), AVLTree::Empty()),
    );
    assert!(merged == want);
}

#[test]
fn merge_takes_the_greatest_value_of_the_left_tree_as_root() {
    let mut left: AVLTree<i64> = AVLTree::Empty();
    for v in [3i64, 2, 4, 1] {
        left.insert(v);
    }
    let mut right: AVLTree<i64> = AVLTree::Empty();
    for v in [6i64, 5, 7] {
        right.insert(v);
    }
    let merged = AVLTree::avl_merge(left, right);
    let want = AVLTree::from_parts(
        4,
        AVLTree::from_parts(2, leaf(1), leaf(3)),
        AVLTree::from_parts(6, leaf(5), leaf(7)),
    );
    assert!(merged == want);
    assert_eq!(merged.height(), 3);
    let only_right = AVLTree::avl_merge(AVLTree::Empty(), AVLTree::from_parts(6, leaf(5), leaf(7)));
    assert!(only_right == AVLTree::from_parts(6, leaf(5), leaf(7)));
}

#[test]
fn insert_places_a_leaf_and_rotates() {
    let mut tree: AVLTree<i64> = AVLTree::Empty();
    for v in [5i64, 3, 8, 1, 4, 7, 9] {
        tree.insert(v);
    }
    let want = AVLTree::from_parts(
        5,
        AVLTree::from_parts(3, leaf(1), leaf(4)),
        AVLTree::from_parts(8, leaf(7), leaf(9)),
    );
    assert!(tree == want);
    tree.delete(5);
    let want = AVLTree::from_parts(
        7,
        AVLTree::from_parts(3, leaf(1), leaf(4)),
        AVLTree::from_parts(8, AVLTree::Empty(), leaf(9)),
    );
    assert!(tree == want);
}

#[test]
fn a_history_holds_what_was_inserted_and_not_removed_later() {
    let ops = vec![
        Edit::Insert(4i64),
        Edit::Insert(9),
        Edit::Delete(4),
        Edit::Insert(2),
        Edit::Delete(7),
        Edit::Insert(7),
        Edit::Insert(4),
        Edit::Delete(9),
        Edit::Insert(2),
    ];
    let tree = AVLTree::from_history(&ops);
    assert!(tree.is_well_formed());
    assert_eq!(values(&tree), vec![2, 4, 7]);
    assert!(tree.find(4));
    assert!(tree.find(7));
    assert!(!tree.find(9));
    assert!(!tree.find(5));
    let none: AVLTree<i64> = AVLTree::from_history(&Vec::new());
    assert!(none.is_empty());
}
