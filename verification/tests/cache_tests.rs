use parity_cache::addr::Addr;
use parity_cache::cache::Cache;
use parity_cache::data::Data;

#[test]
fn put_then_read_round_trip() {
    let mut cache = Cache::with_capacity(4);
    cache.put(Addr::from(7), Data::Bool(true));
    assert_eq!(cache.read(&Addr::from(7)), Some(Data::Bool(true)));
    // repeated reads with no intervening writes agree
    assert_eq!(cache.read(&Addr::from(7)), cache.read(&Addr::from(7)));
    assert_eq!(cache.read(&Addr::from(8)), None);
}

#[test]
fn parity_eviction_scenario() {
    let mut cache = Cache::with_capacity(1);
    assert!(cache.put(Addr::from(0), Data::Int(1)).is_none());
    let ejected = cache.put(Addr::from(1), Data::Int(2));
    let ejected = ejected.expect("the second put must evict");
    assert_eq!(ejected.addr(), Addr::from(0));
    assert_eq!(cache.read(&Addr::from(0)), None);
    assert_eq!(cache.read(&Addr::from(1)), Some(Data::Int(2)));
}

#[test]
fn fill_to_capacity_then_evict_by_parity() {
    let mut cache = Cache::with_capacity(3);
    assert!(cache.put(Addr::from(10), Data::Int(10)).is_none());
    assert!(cache.put(Addr::from(20), Data::Int(20)).is_none());
    assert!(cache.put(Addr::from(30), Data::Int(30)).is_none());
    // queue front-to-back is 10, 20, 30; incoming 41 is odd, so the back
    // entry (30) leaves
    let e = cache.put(Addr::from(41), Data::Int(41)).unwrap();
    assert_eq!(e.addr(), Addr::from(30));
    assert_eq!(cache.read(&Addr::from(30)), None);
    assert_eq!(cache.iter().len(), 3);
    // queue is now 10, 20, 41; incoming 42 is even, so the front entry
    // (10) leaves
    let e = cache.put(Addr::from(42), Data::Int(42)).unwrap();
    assert_eq!(e.addr(), Addr::from(10));
    assert_eq!(cache.read(&Addr::from(10)), None);
    assert_eq!(cache.iter().len(), 3);
}

#[test]
fn capacity_never_exceeded_and_structures_agree() {
    let mut cache = Cache::with_capacity(2);
    for i in 0..10usize {
        cache.put(Addr::from(i), Data::Int(i as i32));
        assert!(cache.iter().len() <= 2);
        // every entry the queue refers to is the entry the index returns
        for e in cache.iter() {
            assert_eq!(cache.read(&e.addr()), Some(*e.data()));
        }
    }
}

#[test]
fn update_keeps_queue_position() {
    let mut cache = Cache::with_capacity(3);
    cache.put(Addr::from(1), Data::Int(1));
    cache.put(Addr::from(2), Data::Int(2));
    cache.put(Addr::from(3), Data::Int(3));
    let prev = cache.put(Addr::from(1), Data::Int(10)).unwrap();
    assert_eq!(*prev.data(), Data::Int(1));
    // most recently appended first: still 3, 2, 1
    let order: Vec<usize> = cache.iter().iter().map(|e| e.addr().value()).collect();
    assert_eq!(order, vec![3, 2, 1]);
    assert_eq!(cache.read(&Addr::from(1)), Some(Data::Int(10)));
}

#[test]
fn write_desynchronizes_put_stays_in_sync() {
    let mut cache = Cache::with_capacity(2);
    cache.put(Addr::from(4), Data::Int(1));
    // a fresh put is in sync with the backing store
    assert!(cache.iter()[0].sync);
    cache.write(Addr::from(4), Data::Int(2));
    let entries = cache.iter();
    assert_eq!(*entries[0].data(), Data::Int(2));
    assert!(!entries[0].sync);
    assert_eq!(entries[0].addr(), Addr::from(4));
    // a write of a brand-new address desynchronizes it too
    cache.write(Addr::from(5), Data::Int(5));
    assert_eq!(cache.read(&Addr::from(5)), Some(Data::Int(5)));
    for e in cache.iter() {
        assert!(!e.sync);
    }
}

#[test]
fn cache_traversals_follow_the_index() {
    let mut cache = Cache::with_capacity(8);
    for &i in &[5usize, 3, 8, 1, 4, 7, 9] {
        cache.put(Addr::from(i), Data::Int(i as i32));
    }
    let keys: Vec<usize> = cache.inorder_iter().iter().map(|e| e.addr().value()).collect();
    assert_eq!(keys, vec![1, 3, 4, 5, 7, 8, 9]);
    let pre = cache.preorder_iter();
    assert_eq!(pre[0].addr().value(), 5);
    assert_eq!(pre.len(), 7);
}

#[test]
fn float_payload_carried_by_bits() {
    let mut cache = Cache::with_capacity(2);
    cache.put(Addr::from(2), Data::Float(1.5f32.to_bits()));
    match cache.read(&Addr::from(2)) {
        Some(Data::Float(bits)) => assert_eq!(f32::from_bits(bits), 1.5f32),
        other => panic!("unexpected read result: {:?}", other),
    }
}

#[test]
fn addr_reference_values_and_parity_predicates() {
    // historical naming kept for compatibility: is_odd holds for even
    // numeric values and is_even for odd ones
    assert!(Addr::from(0).is_odd());
    assert!(!Addr::from(1).is_odd());
    assert!(Addr::from(1).is_even());
    assert!(!Addr::from(2).is_even());
    assert_eq!(Addr::from(9).value(), 9);

    let mut cache = Cache::with_capacity(2);
    cache.put(Addr::from(1), Data::Addr(Addr::from(6)));
    assert_eq!(cache.read(&Addr::from(1)), Some(Data::Addr(Addr::from(6))));
}
