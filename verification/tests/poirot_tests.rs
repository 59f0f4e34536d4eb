use dedup::poirot::{ConcurrentHashMap, ConcurrentHashSet, SeaHashBuilder};

fn data1() -> Vec<u8> {
    (0..250u8).into_iter().collect()
}

fn data3() -> Vec<u8> {
    (0..100).into_iter().cycle().take(10000).collect()
}

#[test]
fn concurrent_set_insert_test() {
    let data = vec![5u8, 100u8, 200u8];
    let mut set = ConcurrentHashSet::default();
    set.insert(data[..].to_vec());

    assert!(set.contains(&data[..]));
}

#[test]
fn concurrent_set_realloc_test() {
    let data: Vec<u8> = (0..200u8).into_iter().collect();
    let mut set = ConcurrentHashSet::default();
    for s in data.windows(2) {
        set.insert(s.to_vec());
    }

    for s in data.windows(2) {
        assert!(set.contains(s));
    }
}

#[test]
fn set_rayon_filter_test() {
    let data = data3();
    let mut set = ConcurrentHashSet::default();
    let results: Vec<&[u8]> = data.windows(2).filter(|s| set.insert(s.to_vec())).collect();
    assert_eq!(results.len(), 100);
}

#[test]
fn set_detect_duplicates_test() {
    let data = data1();
    let mut set = ConcurrentHashSet::default();

    for s in data.windows(3) {
        assert!(set.insert(s.to_vec()));
    }

    for s in data.windows(3) {
        assert!(!set.insert(s.to_vec()));
    }
}

#[test]
fn set_with_every_constructor() {
    let seed = SeaHashBuilder { a: 1, b: 2, c: 3, d: 4 };
    let sets = vec![
        ConcurrentHashSet::new(),
        ConcurrentHashSet::with_capacity(1000),
        ConcurrentHashSet::with_capacity_and_concurrency_level(10, 0),
        ConcurrentHashSet::with_capacity_and_concurrency_level(10, 1),
        ConcurrentHashSet::with_capacity_and_concurrency_level(10, 3),
        ConcurrentHashSet::with_capacity_and_concurrency_level(0, 64),
        ConcurrentHashSet::with_capacity_and_hasher(5, seed),
        ConcurrentHashSet::with_capacity_and_hasher_and_concurrency_level(5, seed, 7),
    ];
    let data = data1();
    for mut set in sets {
        assert!(!set.contains(b"absent"));
        for s in data.windows(2) {
            assert!(set.insert(s.to_vec()));
        }
        for s in data.windows(2) {
            assert!(set.contains(s));
            assert!(!set.insert(s.to_vec()));
        }
        assert!(!set.contains(b"absent"));
    }
}

#[test]
fn map_insert_returns_the_value_it_replaces() {
    let mut map: ConcurrentHashMap<u32> = ConcurrentHashMap::new();
    assert_eq!(None, map.insert(b"spam".to_vec(), 1));
    assert_eq!(None, map.insert(b"ham".to_vec(), 2));
    assert_eq!(Some(1), map.insert(b"spam".to_vec(), 3));
    assert_eq!(Some(&3), map.get(b"spam"));
    assert_eq!(Some(&2), map.get(b"ham"));
    assert_eq!(None, map.get(b"eggs"));
    assert!(map.contains(b"ham"));
    assert!(!map.contains(b"eggs"));
}

#[test]
fn map_with_one_segment_holds_many_keys() {
    let mut map: ConcurrentHashMap<usize> =
        ConcurrentHashMap::with_capacity_and_hasher_and_concurrency_level(
            0,
            SeaHashBuilder::default(),
            1,
        );
    let data = data1();
    for (i, s) in data.windows(4).enumerate() {
        assert_eq!(None, map.insert(s.to_vec(), i));
    }
    for (i, s) in data.windows(4).enumerate() {
        assert_eq!(Some(&i), map.get(s));
    }
}

#[test]
fn builder_hashes_with_its_seed() {
    let seed = SeaHashBuilder { a: 500, b: 2873, c: 2389, d: 9283 };
    assert_eq!(seahash::hash_seeded(b"to be", 500, 2873, 2389, 9283), seed.hash(b"to be"));
    assert_eq!(seahash::hash(b"to be"), SeaHashBuilder::default().hash(b"to be"));
    assert_ne!(seed.hash(b"to be"), SeaHashBuilder::default().hash(b"to be"));
}

#[test]
fn segments_are_the_next_power_of_two() {
    let seed = SeaHashBuilder::default();
    for (level, segments) in
        [(0usize, 1usize), (1, 1), (2, 2), (3, 4), (4, 4), (5, 8), (16, 16), (17, 32), (1000, 1024)]
    {
        let map: ConcurrentHashMap<u8> =
            ConcurrentHashMap::with_capacity_and_hasher_and_concurrency_level(64, seed, level);
        assert_eq!(segments, map.segment_count());
        let set = ConcurrentHashSet::with_capacity_and_concurrency_level(64, level);
        assert_eq!(segments, set.segment_count());
    }
    assert_eq!(16, ConcurrentHashSet::new().segment_count());
    assert_eq!(16, ConcurrentHashSet::with_capacity(3).segment_count());
    assert_eq!(16, ConcurrentHashSet::with_capacity_and_hasher(3, seed).segment_count());
    assert_eq!(16, ConcurrentHashMap::<u8>::default().segment_count());
}

#[test]
fn set_concurrent_inserts_test() {
    let first = data1();
    let second: Vec<u8> = (0..250u8).into_iter().rev().collect();
    let mut set = ConcurrentHashSet::default();

    for s in first.windows(2) {
        set.insert(s.to_vec());
    }
    for s in second.windows(2) {
        set.insert(s.to_vec());
    }

    for s in first.windows(2) {
        assert!(set.contains(s));
    }

    for s in second.windows(2) {
        assert!(set.contains(s));
    }
}

#[test]
fn set_many_concurrent_inserts_test() {
    let data = data1();
    let mut set = ConcurrentHashSet::default();

    for t in 0..16 {
        for s in data.windows((t / 2) + 1) {
            set.insert(s.to_vec());
        }
    }

    for t in 0..16 {
        for s in data.windows((t / 2) + 1) {
            assert!(set.contains(s));
        }
    }
}
