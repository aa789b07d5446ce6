use epoch_map::list::{InsertOutcome, List};

#[test]
fn single_thread_scenario() {
    let mut m = List::new();
    m.insert(1, 1);
    m.insert(2, 5);
    m.insert(12, 5);
    m.insert(13, 7);
    m.insert(0, 0);

    assert_eq!(m.insert(20, 3), InsertOutcome::Inserted);
    assert_eq!(m.insert(3, 2), InsertOutcome::Inserted);
    assert_eq!(m.insert(4, 1), InsertOutcome::Inserted);

    // a second insert for a present key updates in place: with no concurrent
    // racer the call must report Updated, never Conflict
    assert_eq!(m.insert(20, 5), InsertOutcome::Updated);
    assert_eq!(m.get(20), Some(5));

    assert_eq!(m.insert(3, 8), InsertOutcome::Updated);
    assert_eq!(m.get(3), Some(8));

    assert_eq!(m.get(12), Some(5));
    assert_eq!(m.get(1), Some(1));
    assert_eq!(m.get(0), Some(0));

    assert!(m.remove(1));
    assert_eq!(m.get(1), None);

    assert!(!m.remove(16));
}

#[test]
fn round_trip() {
    let mut m = List::new();
    assert_eq!(m.insert(42, 7), InsertOutcome::Inserted);
    assert_eq!(m.get(42), Some(7));
}

#[test]
fn remove_idempotent() {
    let mut m = List::new();
    m.insert(9, 1);
    assert!(m.remove(9));
    assert!(!m.remove(9));
    assert_eq!(m.get(9), None);
}

#[test]
fn get_on_empty() {
    let m = List::new();
    assert_eq!(m.get(5), None);
}

#[test]
fn default_is_empty() {
    let mut m = List::default();
    assert_eq!(m.get(0), None);
    assert!(!m.remove(0));
    assert!(m.iterate().is_empty());
    m.insert(1, 2);
    assert_eq!(m.get(1), Some(2));
}

#[test]
fn iterate_yields_each_key_once() {
    let mut m = List::new();
    for k in 0..10u64 {
        m.insert(k, k * 10);
    }
    m.insert(3, 77);
    m.remove(5);
    let entries = m.iterate();
    assert_eq!(entries.len(), 9);
    for i in 0..entries.len() {
        let (k, v) = entries[i];
        for j in 0..i {
            assert_ne!(entries[j].0, k);
        }
        if k == 3 {
            assert_eq!(v, 77);
        } else {
            assert_eq!(v, k * 10);
        }
        assert_ne!(k, 5);
    }
}
