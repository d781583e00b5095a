use algokit::bst::BinarySearchTree;

fn build(values: &[i64]) -> BinarySearchTree {
    let mut t = BinarySearchTree::new();
    for &v in values {
        t.insert(v);
    }
    t
}

#[test]
fn empty_tree_behaviour() {
    let mut t = BinarySearchTree::new();
    assert_eq!(t.count(), 0);
    assert_eq!(t.min(), None);
    assert_eq!(t.max(), None);
    assert_eq!(t.infix_traverse(), Vec::<i64>::new());
    assert_eq!(t.format(), "empty tree");
    assert!(t.remove(1).is_err());
    assert_eq!(t.count(), 0);
}

#[test]
fn populated_tree_queries() {
    let t = build(&[42, 39, 55, 40, 777, 50, 15, 41, 7, 52]);
    assert_eq!(t.count(), 10);
    assert_eq!(t.min(), Some(7));
    assert_eq!(t.max(), Some(777));
    assert_eq!(t.infix_traverse(), vec![7, 15, 39, 40, 41, 42, 50, 52, 55, 777]);
    assert_eq!(t.prefix_traverse(), vec![42, 39, 15, 7, 40, 41, 55, 50, 52, 777]);
    assert_eq!(t.postfix_traverse(), vec![7, 15, 41, 40, 39, 52, 50, 777, 55, 42]);
}

#[test]
fn format_indents_two_spaces_per_level() {
    let t = build(&[42, 39, 55, 40, 777, 50, 15, 41, 7, 52]);
    let expected = "42\n  39\n    15\n      7\n    40\n      41\n  55\n    50\n      52\n    777";
    assert_eq!(t.format(), expected);
}

#[test]
fn removing_two_child_root_promotes_successor() {
    let mut t = build(&[42, 39, 55, 40, 777, 50, 15, 41, 7, 52]);
    assert!(t.remove(42).is_ok());
    assert_eq!(t.prefix_traverse()[0], 50);
    assert_eq!(t.infix_traverse(), vec![7, 15, 39, 40, 41, 50, 52, 55, 777]);
    assert_eq!(t.count(), 9);
}

#[test]
fn removing_everything_empties_the_tree() {
    let mut t = build(&[42, 39, 55, 40, 777, 50, 15, 41, 7, 52]);
    assert!(t.remove(42).is_ok());
    assert!(t.remove(39).is_ok());
    assert!(t.remove(50).is_ok());
    assert!(t.remove(52).is_ok());
    assert!(t.remove(55).is_ok());
    assert!(t.remove(777).is_ok());
    assert!(t.remove(42).is_err());
    assert!(t.remove(40).is_ok());
    assert!(t.remove(41).is_ok());
    assert!(t.remove(15).is_ok());
    assert!(t.remove(7).is_ok());
    assert_eq!(t.count(), 0);
    assert_eq!(t.format(), "empty tree");
}

#[test]
fn duplicates_go_right_and_leave_one_by_one() {
    let mut t = build(&[5, 5, 5, 3, 5]);
    assert_eq!(t.infix_traverse(), vec![3, 5, 5, 5, 5]);
    assert!(t.remove(5).is_ok());
    assert_eq!(t.infix_traverse(), vec![3, 5, 5, 5]);
    assert_eq!(t.count(), 4);
}

#[test]
fn removing_a_leaf_detaches_it() {
    let mut t = build(&[5, 3, 8]);
    assert!(t.remove(3).is_ok());
    assert_eq!(t.infix_traverse(), vec![5, 8]);
}

#[test]
fn removing_a_one_child_node_splices_the_child() {
    let mut t = build(&[5, 3, 8, 9]);
    assert!(t.remove(8).is_ok());
    assert_eq!(t.infix_traverse(), vec![3, 5, 9]);
    assert_eq!(t.prefix_traverse(), vec![5, 3, 9]);
}

#[test]
fn removing_the_only_node_empties_the_tree() {
    let mut t = build(&[11]);
    assert!(t.remove(11).is_ok());
    assert_eq!(t.count(), 0);
    assert_eq!(t.min(), None);
    assert_eq!(t.max(), None);
}

#[test]
fn insert_makes_contained_and_counts_up() {
    let mut t = build(&[10, 20, 30]);
    assert!(!t.contents(25));
    let before = t.count();
    t.insert(25);
    assert!(t.contents(25));
    assert_eq!(t.count(), before + 1);
}

#[test]
fn contents_agrees_with_in_order() {
    let t = build(&[8, 3, 10, 1, 6, 14, 4, 7, 13]);
    let seq = t.infix_traverse();
    for v in -1..16i64 {
        assert_eq!(t.contents(v), seq.contains(&v));
    }
}

#[test]
fn successful_remove_drops_one_occurrence() {
    let mut t = build(&[4, 4, 2, 9, 4]);
    let before = t.count();
    let mult_before = t.infix_traverse().iter().filter(|&&v| v == 4).count();
    assert!(t.remove(4).is_ok());
    assert_eq!(t.count(), before - 1);
    let mult_after = t.infix_traverse().iter().filter(|&&v| v == 4).count();
    assert_eq!(mult_after, mult_before - 1);
}

#[test]
fn in_order_is_sorted_and_matches_count() {
    let t = build(&[12, -4, 7, 7, 0, 99, -4, 55, 3]);
    let seq = t.infix_traverse();
    assert_eq!(seq.len(), t.count());
    for w in seq.windows(2) {
        assert!(w[0] <= w[1]);
    }
}

#[test]
fn negative_values_format_with_sign() {
    let t = build(&[-5, -10, 3]);
    assert_eq!(t.format(), "-5\n  -10\n  3");
}
