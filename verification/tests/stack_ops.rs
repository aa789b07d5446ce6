use epoch_map::stack::LinkedList;

#[test]
fn push_pop_order() {
    let mut s = LinkedList::new();
    let g = s.pin();
    assert_eq!(s.pop(&g), None);
    s.push(1, &g);
    s.push(2, &g);
    s.push(3, &g);
    assert_eq!(s.pop(&g), Some(3));
    assert_eq!(s.pop(&g), Some(2));
    s.push(4, &g);
    assert_eq!(s.pop(&g), Some(4));
    assert_eq!(s.pop(&g), Some(1));
    assert_eq!(s.pop(&g), None);
    s.unpin(g);
}

#[test]
fn pop_defers_reclamation() {
    let mut s = LinkedList::new();
    let g = s.pin();
    s.push(9, &g);
    assert_eq!(s.pop(&g), Some(9));
    assert_eq!(s.retired_count(), 1);
    // while the guard is live a sweep must keep the node queued
    s.collect();
    assert_eq!(s.retired_count(), 1);
    s.unpin(g);
    s.collect();
    assert_eq!(s.retired_count(), 0);
}
