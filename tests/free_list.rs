use quadtree::FreeList;

#[test]
fn t1() {
    let mut fl = FreeList::new();

    let idx1 = fl.insert(3);
    let idx2 = fl.insert(4);

    fl.erase(idx1);
    assert_eq!(*fl.get(idx2), 4);

    let idx3 = fl.insert(2);
    assert_eq!(idx1, idx3); // the freed slot is reused
    assert_eq!(*fl.get(idx3), 2);

    fl.erase(idx2);
    fl.erase(idx3);

    let idx = fl.insert(1);
    assert_eq!(idx, 0); // all slots free: the last freed comes back first
}

#[test]
fn free_list_counts_and_clear() {
    let mut fl = FreeList::new();
    for i in 0..5 {
        assert_eq!(fl.insert(i * 10), i);
    }
    assert_eq!(fl.elements_count(), 5);
    assert_eq!(fl.data_len(), 5);
    fl.erase(1);
    fl.erase(3);
    assert_eq!(fl.elements_count(), 3);
    assert_eq!(fl.data_len(), 5);
    // last in, first out
    assert_eq!(fl.insert(77), 3);
    assert_eq!(fl.insert(88), 1);
    assert_eq!(fl.insert(99), 5);
    assert_eq!(*fl.get(3), 77);
    assert_eq!(*fl.get(1), 88);
    fl.set(1, 11);
    assert_eq!(*fl.get(1), 11);
    assert!(fl.has_room());
    fl.clear();
    assert_eq!(fl.elements_count(), 0);
    assert_eq!(fl.data_len(), 0);
    assert_eq!(fl.insert(5), 0);
}
