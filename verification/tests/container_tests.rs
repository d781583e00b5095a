use algokit::doubly_linked_list::DoublyLinkedList;
use algokit::linked_list::LinkedList;
use algokit::queue::Queue;
use algokit::stack::Stack;
use algokit::utils::random_vec;

#[test]
fn linked_list_positional_operations() {
    let mut l: LinkedList<i64> = LinkedList::new();
    assert_eq!(l.len(), 0);
    l.push_back(2);
    l.push_front(1);
    l.push_back(3);
    assert_eq!(l.len(), 3);
    assert_eq!(l.get(0), 1);
    assert_eq!(l.get(1), 2);
    assert_eq!(l.get(2), 3);
    l.set(1, 20);
    assert_eq!(l.get(1), 20);
    l.insert(1, 15);
    assert_eq!(l.len(), 4);
    assert_eq!(l.get(1), 15);
    l.remove(1);
    assert_eq!(l.len(), 3);
    assert_eq!(l.get(0), 1);
    assert_eq!(l.get(1), 20);
    assert_eq!(l.get(2), 3);
}

#[test]
fn linked_list_insert_at_bounds_matches_pushes() {
    let mut l: LinkedList<i64> = LinkedList::new();
    l.insert(0, 10);
    l.insert(1, 30);
    l.insert(0, 5);
    assert_eq!(l.len(), 3);
    assert_eq!(l.get(0), 5);
    assert_eq!(l.get(1), 10);
    assert_eq!(l.get(2), 30);
}

#[test]
fn doubly_linked_list_operations() {
    let mut l: DoublyLinkedList<i64> = DoublyLinkedList::new();
    l.push_back(2);
    l.push_front(1);
    l.push_back(3);
    assert_eq!(l.len(), 3);
    assert_eq!(l.get(0), 1);
    assert_eq!(l.get(2), 3);
    l.set(2, 30);
    assert_eq!(l.get(2), 30);
    l.insert(3, 40);
    assert_eq!(l.get(3), 40);
    l.remove(0);
    assert_eq!(l.len(), 3);
    assert_eq!(l.get(0), 2);
}

#[test]
fn list_get_after_set_and_insert_remove_identity() {
    let mut l: LinkedList<i64> = LinkedList::new();
    for v in [9, 8, 7, 6] {
        l.push_back(v);
    }
    l.set(2, 70);
    assert_eq!(l.get(2), 70);
    let snapshot: Vec<i64> = (0..l.len()).map(|i| l.get(i)).collect();
    l.insert(2, 1000);
    l.remove(2);
    let after: Vec<i64> = (0..l.len()).map(|i| l.get(i)).collect();
    assert_eq!(after, snapshot);
}

#[test]
fn stack_is_last_in_first_out() {
    let mut s: Stack<i64> = Stack::new();
    assert!(s.is_empty());
    assert_eq!(s.pop(), None);
    assert_eq!(s.top(), None);
    s.push(1);
    s.push(2);
    s.push(3);
    assert_eq!(s.len(), 3);
    assert_eq!(s.top(), Some(3));
    assert_eq!(s.pop(), Some(3));
    assert_eq!(s.pop(), Some(2));
    assert_eq!(s.pop(), Some(1));
    assert_eq!(s.pop(), None);
    assert!(s.is_empty());
}

#[test]
fn queue_pops_oldest_and_peeks_newest() {
    let mut q: Queue<i64> = Queue::new();
    assert!(q.is_empty());
    assert_eq!(q.pop(), None);
    assert_eq!(q.peek(), None);
    q.push(1);
    q.push(2);
    q.push(3);
    assert_eq!(q.len(), 3);
    assert_eq!(q.peek(), Some(3));
    assert_eq!(q.pop(), Some(1));
    assert_eq!(q.pop(), Some(2));
    assert_eq!(q.pop(), Some(3));
    assert_eq!(q.pop(), None);
    assert!(q.is_empty());
}

#[test]
fn random_vec_respects_length_and_bounds() {
    let v = random_vec(100, -5, 5);
    assert_eq!(v.len(), 100);
    for &x in &v {
        assert!((-5..5).contains(&x));
    }
}
