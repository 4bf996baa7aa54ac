use leptos_reconcile::selector::{create_selector, create_selector_with_fn};

#[test]
fn selector_notifies_only_flipped_keys() {
    let mut s = create_selector(0);
    for key in 1..=6u64 {
        assert!(!s.is_selected(key));
    }
    assert!(s.set(5) == vec![5]);
    assert!(s.is_selected(5));
    assert!(s.set(5).is_empty());
    assert_eq!(s.set(4), vec![4, 5]);
    assert!(!s.is_selected(5));
    assert!(s.is_selected(4));
}

#[test]
fn selector_remembers_each_key_once() {
    let mut s = create_selector(2);
    assert!(s.is_selected(2));
    assert!(s.is_selected(2));
    assert_eq!(s.set(3), vec![2]);
}

#[test]
fn selector_with_custom_test() {
    let subs = vec![1, 2, 3, 4];
    let below = |k: u64, v: u64| k < v;
    assert_eq!(create_selector_with_fn(&subs, Some(2), 4, &below), vec![1, 2, 3]);
    assert!(create_selector_with_fn(&subs, Some(4), 4, &below).is_empty());
    assert_eq!(create_selector_with_fn(&subs, None, 2, &below), vec![1]);
}
