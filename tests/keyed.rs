use leptos_reconcile::keyed::{diff_keyed, map_keyed, KeyedList};
use leptos_reconcile::spawn::{queue_microtask, DisposalQueue};

fn fresh_list(keys: Vec<u64>, queue: &mut DisposalQueue) -> KeyedList {
    let mut list = KeyedList::new();
    map_keyed(&mut list, queue, keys);
    list
}

#[test]
fn test_map_keyed() {
    let mut list = KeyedList::new();
    let mut queue = DisposalQueue::new();
    let first = map_keyed(&mut list, &mut queue, vec![]);
    assert!(first.plan.slots.is_empty());
    assert!(first.disposed.is_empty());
    assert!(list.keys().is_empty());

    let second = map_keyed(&mut list, &mut queue, vec![0]);
    assert_eq!(second.plan.slots, vec![None]);
    assert!(second.disposed.is_empty());
    assert_eq!(list.keys(), &vec![0]);
    assert_eq!(list.handles().len(), 1);
    assert!(queue.is_empty());
}

#[test]
fn populate_creates_every_entry() {
    let mut queue = DisposalQueue::new();
    let list = fresh_list(vec![10, 20, 30], &mut queue);
    assert_eq!(list.handles(), &vec![0, 1, 2]);
    assert_eq!(list.next_handle(), 3);
}

#[test]
fn prefix_and_suffix_are_untouched() {
    let mut queue = DisposalQueue::new();
    let mut list = fresh_list(vec![1, 2, 3, 4, 5], &mut queue);
    let before = list.handles().clone();
    let u = map_keyed(&mut list, &mut queue, vec![1, 2, 9, 4, 5]);
    assert_eq!(u.plan.slots, vec![Some(0), Some(1), None, Some(3), Some(4)]);
    assert_eq!(u.plan.removed, vec![2]);
    assert_eq!(u.disposed, vec![before[2]]);
    let after = list.handles();
    assert_eq!(after[0], before[0]);
    assert_eq!(after[1], before[1]);
    assert_eq!(after[3], before[3]);
    assert_eq!(after[4], before[4]);
    assert!(!before.contains(&after[2]));
    assert!(queue.is_empty());
}

#[test]
fn rotation_moves_without_recreating() {
    let mut queue = DisposalQueue::new();
    let mut list = fresh_list(vec![1, 2, 3], &mut queue);
    let before = list.handles().clone();
    let u = map_keyed(&mut list, &mut queue, vec![3, 1, 2]);
    assert_eq!(u.plan.slots, vec![Some(2), Some(0), Some(1)]);
    assert!(u.plan.removed.is_empty());
    assert!(u.disposed.is_empty());
    assert_eq!(list.handles(), &vec![before[2], before[0], before[1]]);
    assert_eq!(list.next_handle(), 3);
}

#[test]
fn clearing_defers_every_disposal() {
    let mut queue = DisposalQueue::new();
    let mut list = fresh_list(vec![1, 2, 3], &mut queue);
    let before = list.handles().clone();
    let u = map_keyed(&mut list, &mut queue, vec![]);
    assert!(u.disposed.is_empty());
    assert!(list.keys().is_empty());
    assert!(list.handles().is_empty());
    assert!(!queue.is_empty());
    assert_eq!(queue.flush(), before);
    assert!(queue.is_empty());
}

#[test]
fn swap_and_shrink() {
    let mut queue = DisposalQueue::new();
    let mut list = fresh_list(vec![1, 2, 3, 4], &mut queue);
    let before = list.handles().clone();
    let u = map_keyed(&mut list, &mut queue, vec![4, 2]);
    assert_eq!(u.plan.slots, vec![Some(3), Some(1)]);
    assert_eq!(u.plan.removed, vec![0, 2]);
    assert_eq!(u.disposed, vec![before[0], before[2]]);
    assert_eq!(list.handles(), &vec![before[3], before[1]]);
}

#[test]
fn growth_keeps_old_entries() {
    let mut queue = DisposalQueue::new();
    let mut list = fresh_list(vec![1, 2], &mut queue);
    let u = map_keyed(&mut list, &mut queue, vec![0, 1, 5, 2, 6]);
    assert_eq!(u.plan.slots, vec![None, Some(0), None, Some(1), None]);
    assert!(u.disposed.is_empty());
    assert_eq!(list.handles(), &vec![2, 0, 3, 1, 4]);
    assert_eq!(list.next_handle(), 5);
}

#[test]
fn repeated_keys_reuse_and_release_each_once() {
    let d = diff_keyed(&vec![7, 7, 8], &vec![7, 9]);
    assert_eq!(d.slots, vec![Some(0), None]);
    assert_eq!(d.moves, vec![Some(0), None, None]);
    assert_eq!(d.removed, vec![1, 2]);

    let d = diff_keyed(&vec![5, 7, 7], &vec![7, 7, 7]);
    assert_eq!(d.slots, vec![None, Some(1), Some(2)]);
    assert_eq!(d.removed, vec![0]);
}

#[test]
fn diff_of_disjoint_sequences() {
    let d = diff_keyed(&vec![1, 2], &vec![3, 4, 5]);
    assert_eq!(d.slots, vec![None, None, None]);
    assert_eq!(d.moves, vec![None, None]);
    assert_eq!(d.removed, vec![0, 1]);
}

#[test]
fn queued_tasks_keep_their_order() {
    let mut queue = DisposalQueue::new();
    queue_microtask(&mut queue, vec![4, 5]);
    queue_microtask(&mut queue, vec![1]);
    assert_eq!(queue.flush(), vec![4, 5, 1]);
    assert!(queue.flush().is_empty());
}

#[test]
fn common_suffix_keeps_its_entries_with_repeated_keys() {
    let d = diff_keyed(&vec![3, 7], &vec![7, 7]);
    assert_eq!(d.slots, vec![None, Some(1)]);
    assert_eq!(d.removed, vec![0]);
}

#[test]
fn handle_counter_grows_by_the_created_entries() {
    let mut queue = DisposalQueue::new();
    let mut list = fresh_list(vec![1, 2, 3], &mut queue);
    map_keyed(&mut list, &mut queue, vec![3, 4, 1]);
    assert_eq!(list.next_handle(), 4);
    map_keyed(&mut list, &mut queue, vec![3, 4, 1]);
    assert_eq!(list.next_handle(), 4);
}
