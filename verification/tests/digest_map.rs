use chain_core::crypto::hash::H256;
use chain_core::digest_map::DigestMap;

/// A digest with a given start and a given end.
fn key(start: u8, end: u8) -> H256 {
    let mut bytes = [0u8; 32];
    bytes[0] = start;
    bytes[31] = end;
    H256::from_bytes(bytes)
}

#[test]
fn empty_map() {
    let map: DigestMap<u32> = DigestMap::new();
    assert_eq!(map.len(), 0);
    assert!(!map.contains_key(&key(0, 0)));
    assert!(map.get(&key(0, 0)).is_none());
}

#[test]
fn insert_get_and_replace() {
    let mut map: DigestMap<u32> = DigestMap::new();
    map.insert(key(1, 1), 11);
    map.insert(key(2, 1), 21);
    assert_eq!(map.len(), 2);
    assert_eq!(map.get(&key(1, 1)), Some(&11));
    assert_eq!(map.get(&key(2, 1)), Some(&21));
    map.insert(key(1, 1), 12);
    assert_eq!(map.len(), 2);
    assert_eq!(map.get(&key(1, 1)), Some(&12));
    assert!(map.contains_key(&key(2, 1)));
    assert!(!map.contains_key(&key(3, 1)));
}

#[test]
fn keys_that_start_alike_are_told_apart() {
    let mut map: DigestMap<u32> = DigestMap::new();
    for end in 0..50u8 {
        map.insert(key(7, end), end as u32);
    }
    assert_eq!(map.len(), 50);
    for end in 0..50u8 {
        assert_eq!(map.get(&key(7, end)), Some(&(end as u32)));
    }
    assert!(map.get(&key(7, 50)).is_none());
    assert!(map.get(&key(8, 3)).is_none());
}

#[test]
fn remove_in_every_position() {
    for victim in 0..6u8 {
        let mut map: DigestMap<u32> = DigestMap::new();
        for i in 0..6u8 {
            map.insert(key(i % 2, i), i as u32);
        }
        assert_eq!(map.remove(&key(victim % 2, victim)), Some(victim as u32));
        assert_eq!(map.remove(&key(victim % 2, victim)), None);
        assert_eq!(map.len(), 5);
        for i in 0..6u8 {
            if i == victim {
                assert!(!map.contains_key(&key(i % 2, i)));
            } else {
                assert_eq!(map.get(&key(i % 2, i)), Some(&(i as u32)));
            }
        }
        map.insert(key(victim % 2, victim), 99);
        assert_eq!(map.get(&key(victim % 2, victim)), Some(&99));
        assert_eq!(map.len(), 6);
    }
}

#[test]
fn remove_down_to_nothing_and_fill_again() {
    let mut map: DigestMap<u32> = DigestMap::new();
    for round in 0..3u32 {
        for i in 0..40u8 {
            map.insert(key(i % 5, i), round * 100 + i as u32);
        }
        assert_eq!(map.len(), 40);
        for i in (0..40u8).rev().step_by(2) {
            assert_eq!(map.remove(&key(i % 5, i)), Some(round * 100 + i as u32));
        }
        assert_eq!(map.len(), 20);
        for i in 0..40u8 {
            assert_eq!(map.contains_key(&key(i % 5, i)), i % 2 == 0);
        }
        for i in (0..40u8).step_by(2) {
            assert_eq!(map.remove(&key(i % 5, i)), Some(round * 100 + i as u32));
        }
        assert_eq!(map.len(), 0);
    }
}
