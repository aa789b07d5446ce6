use epoch_map::skiplist::SkipList;

#[test]
fn basic_test() {
    let mut l = SkipList::new(32, 4);
    l.set(1, 1);
    l.set(2, 1);
    l.set(3, 1);
    l.set(4, 1);
    assert_eq!(l.get(1).unwrap(), 1);

    // modify value
    l.set(4, 7);
    assert_eq!(l.get(4).unwrap(), 7);

    // delete key
    assert_eq!(l.delete(3), Some(1));
    assert_eq!(l.delete(7), None);
}

#[test]
fn deletion_clears_every_level() {
    let mut l = SkipList::new(16, 2);
    for k in 0..200u64 {
        l.set(k, k);
    }
    assert_eq!(l.len(), 200);
    assert!(l.levels_in_use() <= l.max_levels());

    assert_eq!(l.delete(100), Some(100));
    // after the deletion no level's chain may still carry the key
    for i in 0..l.levels_in_use() {
        assert!(!l.keys_at_level(i).contains(&100));
    }
    assert_eq!(l.get(100), None);
    assert_eq!(l.len(), 199);

    // level 0 still chains every remaining key, in order
    let ks = l.keys_at_level(0);
    assert_eq!(ks.len(), 199);
    for w in ks.windows(2) {
        assert!(w[0] < w[1]);
    }
}

#[test]
fn pseudo_random_keys_respect_height_cap() {
    let mut l = SkipList::new(12, 2);
    let mut x: u64 = 1;
    for _ in 0..2000 {
        x = x.wrapping_mul(6364136223846793005).wrapping_add(1442695040888963407);
        l.set(x >> 40, x & 0xffff);
    }
    assert!(l.levels_in_use() <= 12);
    // every key reachable on a higher level is also in the map
    for i in 0..l.levels_in_use() {
        for k in l.keys_at_level(i) {
            assert!(l.get(k).is_some());
        }
    }
}

#[test]
fn front_is_smallest() {
    let mut l = SkipList::new(8, 3);
    assert_eq!(l.front(), None);
    l.set(30, 3);
    l.set(10, 1);
    l.set(20, 2);
    assert_eq!(l.front(), Some((10, 1)));
    assert_eq!(l.delete(10), Some(1));
    assert_eq!(l.front(), Some((20, 2)));
}

#[test]
fn empty_list_behaviour() {
    let mut l = SkipList::new(4, 4);
    assert_eq!(l.get(1), None);
    assert_eq!(l.delete(1), None);
    assert_eq!(l.len(), 0);
    assert_eq!(l.levels_in_use(), 0);
    assert!(l.keys_at_level(0).is_empty());
}
