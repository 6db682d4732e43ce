use piece_tree::arena::Arena;

#[test]
fn arena_reuses_last_freed_index() {
    let mut a: Arena<u32> = Arena::new();
    assert_eq!(a.size(), 0);
    assert_eq!(a.allocate(10), 0);
    assert_eq!(a.allocate(11), 1);
    assert_eq!(a.allocate(12), 2);
    assert_eq!(a.size(), 3);
    a.free(0);
    a.free(2);
    assert_eq!(a.size(), 1);
    assert_eq!(a.allocate(20), 2);
    assert_eq!(a.allocate(21), 0);
    assert_eq!(a.allocate(22), 3);
    assert_eq!(a.size(), 4);
    assert_eq!(*a.get(0), 21);
    assert_eq!(*a.get(1), 11);
    assert_eq!(*a.get(2), 20);
}

#[test]
fn arena_get_mut_writes_through() {
    let mut a: Arena<u32> = Arena::new();
    let i = a.allocate(5);
    *a.get_mut(i) = 7;
    assert_eq!(*a.get(i), 7);
}
