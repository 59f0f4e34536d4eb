use dedup::gumshoe::{GumSet, ValueNode};

fn data1() -> Vec<u8> {
    (0..250u8).into_iter().collect()
}

fn data3() -> Vec<u8> {
    (0..100).into_iter().cycle().take(10000).collect()
}

#[test]
fn gumset_insert_test() {
    let data = vec![5u8, 100u8, 200u8];
    let mut set = GumSet::new();
    set.insert(&data[..]);

    assert!(set.contains(&data[..]));
}

#[test]
fn gumset_realloc_test() {
    let data: Vec<u8> = (0..200u8).into_iter().collect();
    let mut set = GumSet::new();
    for s in data.windows(2) {
        set.insert(s);
    }

    for s in data.windows(2) {
        assert!(set.contains(s));
    }
}

#[test]
fn lib_rayon_filter_test() {
    let data = data3();
    let mut set = GumSet::new();
    let results: Vec<&[u8]> = data.windows(2).filter(|s| set.insert(s)).collect();
    assert_eq!(results.len(), 100);
}

#[test]
fn lib_detect_duplicates_test() {
    let data = data1();
    let mut set = GumSet::new();

    for s in data.windows(3) {
        assert!(set.insert(s));
    }

    for s in data.windows(3) {
        assert!(!set.insert(s));
    }
}

#[test]
fn gumset_holds_nothing_it_was_not_given() {
    let data = data1();
    let mut set = GumSet::new();
    for s in data.windows(2) {
        set.insert(s);
    }
    assert!(!set.contains(&[1u8, 1u8]));
    assert!(!set.contains(&[1u8]));
    assert!(!set.contains(&[0u8, 1u8, 2u8]));
}

#[test]
fn gumset_empty_set_holds_nothing() {
    let set = GumSet::new();
    assert!(!set.contains(b""));
    assert!(!set.contains(b"a"));
}

#[test]
fn gumset_hash_is_seahash() {
    let set = GumSet::new();
    assert_eq!(seahash::hash(b"to be or not to be"), set.hash64(b"to be or not to be"));
    assert_ne!(set.hash64(b"a"), set.hash64(b"b"));
}

#[test]
fn gumset_insert_files_the_key_under_its_seahash() {
    let mut set = GumSet::new();
    assert!(set.insert(b"spam"));
    assert!(set.contains_fingerprint(seahash::hash(b"spam"), b"spam"));
    assert!(!set.contains_fingerprint(seahash::hash(b"spam") ^ 1, b"spam"));
}

#[test]
fn fingerprints_with_equal_hash_and_different_bytes_are_distinct() {
    let mut set = GumSet::new();
    let hash = 0xdead_beef_dead_beefu64;
    assert!(set.insert_fingerprint(hash, b"first"));
    assert!(set.insert_fingerprint(hash, b"second"));
    assert!(set.insert_fingerprint(hash, b"third"));
    assert!(!set.insert_fingerprint(hash, b"first"));
    assert!(!set.insert_fingerprint(hash, b"second"));
    assert!(!set.insert_fingerprint(hash, b"third"));
    assert!(set.contains_fingerprint(hash, b"first"));
    assert!(set.contains_fingerprint(hash, b"second"));
    assert!(set.contains_fingerprint(hash, b"third"));
    assert!(!set.contains_fingerprint(hash, b"fourth"));
    assert!(!set.contains_fingerprint(hash ^ (1 << 63), b"first"));
}

#[test]
fn fingerprints_with_equal_bytes_and_different_hash_are_distinct() {
    let mut set = GumSet::new();
    assert!(set.insert_fingerprint(1, b"k"));
    assert!(set.insert_fingerprint(2, b"k"));
    assert!(!set.insert_fingerprint(1, b"k"));
    assert!(set.contains_fingerprint(2, b"k"));
    assert!(!set.contains_fingerprint(3, b"k"));
}

#[test]
fn fingerprints_that_part_only_in_the_last_four_bits() {
    let mut set = GumSet::new();
    let low = 0x0123_4567_89ab_cdefu64;
    for top in 0..16u64 {
        let hash = (low & 0x0fff_ffff_ffff_ffff) | (top << 60);
        assert!(set.insert_fingerprint(hash, b"same"));
    }
    for top in 0..16u64 {
        let hash = (low & 0x0fff_ffff_ffff_ffff) | (top << 60);
        assert!(set.contains_fingerprint(hash, b"same"));
        assert!(!set.insert_fingerprint(hash, b"same"));
    }
}

#[test]
fn value_nodes_compare_hash_and_bytes() {
    let a = ValueNode::new(7, b"x");
    assert!(a.eq(&ValueNode::new(7, b"x")));
    assert!(!a.eq(&ValueNode::new(8, b"x")));
    assert!(!a.eq(&ValueNode::new(7, b"y")));
    assert!(!a.eq(&ValueNode::new(7, b"xx")));
    assert!(a.is(7, b"x"));
}

#[test]
fn gumset_default_is_empty() {
    let mut set = GumSet::default();
    assert!(!set.contains(b"a"));
    assert!(set.insert(b"a"));
    assert!(set.contains(b"a"));
}

fn data2() -> Vec<u8> {
    (0..250u8).into_iter().rev().collect()
}

#[test]
fn lib_concurrent_inserts_test() {
    let first = data1();
    let second = data2();
    let mut set = GumSet::new();

    for s in first.windows(2) {
        set.insert(s);
    }
    for s in second.windows(2) {
        set.insert(s);
    }

    for s in first.windows(2) {
        assert!(set.contains(s));
    }

    for s in second.windows(2) {
        assert!(set.contains(s));
    }
}

#[test]
fn lib_many_concurrent_inserts_test() {
    let data = data1();
    let mut set = GumSet::new();

    for t in 0..16 {
        for s in data.windows((t / 2) + 1) {
            set.insert(s);
        }
    }

    for t in 0..16 {
        for s in data.windows((t / 2) + 1) {
            assert!(set.contains(s));
        }
    }
}
