use epoch_map::list::List;

#[test]
fn remove_defers_reclamation() {
    let mut m = List::new();
    m.insert(7, 7);
    assert_eq!(m.retired_count(), 0);
    assert!(m.remove(7));
    // the unlinked node is queued, not freed
    assert_eq!(m.retired_count(), 1);
    assert_eq!(m.get(7), None);
    m.collect();
    assert_eq!(m.retired_count(), 0);
}

#[test]
fn guard_blocks_reclamation() {
    let mut m = List::new();
    m.insert(1, 1);
    m.insert(2, 2);
    let g = m.pin();
    assert!(m.remove(1));
    assert!(m.remove(2));
    assert_eq!(m.retired_count(), 2);
    // while the guard is live, a sweep must keep both nodes queued
    m.collect();
    assert_eq!(m.retired_count(), 2);
    m.unpin(g);
    // with the guard gone the next sweep frees them
    m.collect();
    assert_eq!(m.retired_count(), 0);
}

#[test]
fn sweep_advances_the_epoch() {
    let mut m = List::new();
    assert_eq!(m.current_epoch(), 0);
    m.collect();
    assert_eq!(m.current_epoch(), 1);
    m.collect();
    assert_eq!(m.current_epoch(), 2);
}

#[test]
fn tombstoned_entry_invisible_before_collect() {
    let mut m = List::new();
    m.insert(4, 40);
    m.insert(5, 50);
    assert!(m.remove(4));
    // before any reclamation pass runs, lookups and iteration already skip
    // the dead entry
    assert_eq!(m.get(4), None);
    let entries = m.iterate();
    assert_eq!(entries.len(), 1);
    assert_eq!(entries[0], (5, 50));
}
