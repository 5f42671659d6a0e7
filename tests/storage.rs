use mistery::storage::Storage;

#[test]
fn storage_insert_get_remove() {
    let mut s: Storage<u32> = Storage::new();
    assert!(!s.contains(3));
    s.insert(3, 30);
    s.insert(1, 10);
    assert_eq!(s.get(3), Some(&30));
    assert_eq!(s.get(1), Some(&10));
    assert_eq!(s.get(2), None);
    s.insert(3, 33);
    assert_eq!(s.get(3), Some(&33));
    assert_eq!(s.remove(3), Some(33));
    assert_eq!(s.remove(3), None);
    assert!(!s.contains(3));
    assert!(s.contains(1));
}

#[test]
fn storage_keys_and_drain_in_order() {
    let mut s: Storage<char> = Storage::new();
    s.insert(5, 'e');
    s.insert(0, 'a');
    s.insert(2, 'c');
    assert_eq!(s.keys(), vec![0, 2, 5]);
    assert_eq!(s.drain(), vec![(0, 'a'), (2, 'c'), (5, 'e')]);
    assert!(s.keys().is_empty());
    assert!(s.drain().is_empty());
}
