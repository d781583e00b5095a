use algokit::sorting::bubble_sort;
use algokit::sorting::cocktail_sort;
use algokit::sorting::comb_sort;
use algokit::sorting::doubly_selection_sort;
use algokit::sorting::merge_sort;
use algokit::sorting::merge_sort_by_key;
use algokit::sorting::odd_even_sort;
use algokit::sorting::selection_sort;
use algokit::sorting::KeyedItem;

#[test]
fn each_sort_orders_a_sample() {
    let data: Vec<i64> = vec![5, -3, 8, 0, 8, -3, 42, 1];
    let expected: Vec<i64> = vec![-3, -3, 0, 1, 5, 8, 8, 42];
    assert_eq!(merge_sort(&data), expected);
    assert_eq!(bubble_sort(&data), expected);
    assert_eq!(cocktail_sort(&data), expected);
    assert_eq!(odd_even_sort(&data), expected);
    assert_eq!(selection_sort(&data), expected);
    assert_eq!(doubly_selection_sort(&data), expected);
}

#[test]
fn each_sort_handles_empty_and_single() {
    let empty: Vec<i64> = vec![];
    let single: Vec<i64> = vec![7];
    assert_eq!(merge_sort(&empty), empty);
    assert_eq!(bubble_sort(&empty), empty);
    assert_eq!(cocktail_sort(&empty), empty);
    assert_eq!(odd_even_sort(&empty), empty);
    assert_eq!(selection_sort(&empty), empty);
    assert_eq!(doubly_selection_sort(&empty), empty);
    assert_eq!(merge_sort(&single), single);
    assert_eq!(bubble_sort(&single), single);
    assert_eq!(cocktail_sort(&single), single);
    assert_eq!(odd_even_sort(&single), single);
    assert_eq!(selection_sort(&single), single);
    assert_eq!(doubly_selection_sort(&single), single);
}

#[test]
fn permutations_of_one_multiset_sort_alike() {
    let p1: Vec<i64> = vec![3, 1, 4, 1, 5, 9, 2, 6];
    let p2: Vec<i64> = vec![9, 6, 5, 4, 3, 2, 1, 1];
    let p3: Vec<i64> = vec![1, 1, 2, 3, 4, 5, 6, 9];
    let reference = merge_sort(&p1);
    for p in [&p1, &p2, &p3] {
        assert_eq!(merge_sort(p), reference);
        assert_eq!(bubble_sort(p), reference);
        assert_eq!(cocktail_sort(p), reference);
        assert_eq!(odd_even_sort(p), reference);
        assert_eq!(selection_sort(p), reference);
        assert_eq!(doubly_selection_sort(p), reference);
    }
}

#[test]
fn sorts_leave_the_input_untouched() {
    let data: Vec<i64> = vec![2, 1, 3];
    let _ = bubble_sort(&data);
    let _ = merge_sort(&data);
    assert_eq!(data, vec![2, 1, 3]);
}

#[test]
fn comb_sort_returns_the_contents_unchanged() {
    let data: Vec<i64> = vec![3, 1, 2];
    assert_eq!(comb_sort(&data), vec![3, 1, 2]);
}

#[test]
fn merge_sort_by_key_is_stable() {
    let data = vec![
        KeyedItem { key: 2, tag: 0 },
        KeyedItem { key: 1, tag: 1 },
        KeyedItem { key: 2, tag: 2 },
        KeyedItem { key: 1, tag: 3 },
        KeyedItem { key: 2, tag: 4 },
        KeyedItem { key: 1, tag: 5 },
    ];
    let sorted = merge_sort_by_key(&data);
    let keys: Vec<i64> = sorted.iter().map(|p| p.key).collect();
    let tags: Vec<i64> = sorted.iter().map(|p| p.tag).collect();
    assert_eq!(keys, vec![1, 1, 1, 2, 2, 2]);
    assert_eq!(tags, vec![1, 3, 5, 0, 2, 4]);
}
