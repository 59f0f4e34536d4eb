use dedup::fastchr::{fastchr, fastchr_with, Fastchr, FastchrSplit, Lanes};

const LONG_PREFIX_LEN: usize = 500000;
const SHORT_PREFIX_LEN: usize = 16 * 2 - 1;
const ODD_PREFIX_LEN: usize = 50003;
const BURIED_SAMPLE_LEN: usize = 241;
const NEEDLE: u8 = 70;

fn generate_long_sample() -> Vec<u8> {
    std::iter::repeat(14u8)
        .take(LONG_PREFIX_LEN)
        .chain(std::iter::once(NEEDLE))
        .chain(std::iter::repeat(200u8).take(ODD_PREFIX_LEN))
        .collect()
}

fn generate_short_sample() -> Vec<u8> {
    std::iter::repeat(14u8).take(SHORT_PREFIX_LEN).chain(std::iter::once(NEEDLE)).collect()
}

fn generate_odd_sample() -> Vec<u8> {
    std::iter::repeat(14u8).take(ODD_PREFIX_LEN).chain(std::iter::once(NEEDLE)).collect()
}

fn generate_long_negative_sample() -> Vec<u8> {
    std::iter::repeat(231).take(ODD_PREFIX_LEN).collect()
}

fn generate_buried_sample() -> Vec<u8> {
    std::iter::repeat(231u8)
        .take(BURIED_SAMPLE_LEN)
        .chain(std::iter::once(NEEDLE))
        .chain(std::iter::repeat(231u8).take(3))
        .chain(std::iter::once(NEEDLE))
        .chain(std::iter::repeat(231u8).take(ODD_PREFIX_LEN))
        .collect()
}

/// A fixed pseudo-random byte stream.
fn generate_mixed_sample(len: usize) -> Vec<u8> {
    let mut state: u64 = 0x2545_f491_4f6c_dd1d;
    let mut out = Vec::with_capacity(len);
    for _ in 0..len {
        state ^= state << 13;
        state ^= state >> 7;
        state ^= state << 17;
        out.push((state >> 24) as u8);
    }
    out
}

const ALL_LANES: [Lanes; 3] = [Lanes::Avx2, Lanes::Sse2, Lanes::Scalar];

#[test]
fn buried_sample_test() {
    let data = generate_buried_sample();
    assert_eq!(Some(BURIED_SAMPLE_LEN), fastchr(NEEDLE, &data));
}

#[test]
fn negative_sample_test() {
    let data = generate_long_negative_sample();
    assert_eq!(None, fastchr(NEEDLE, &data));
}

#[test]
fn qbf_test() {
    let haystack = b"the quick brown fox";
    assert_eq!(Some(8), fastchr(b'k', haystack));
}

#[test]
fn memchr_odd_compat_test() {
    let data = generate_odd_sample();
    assert_eq!(memchr::memchr(NEEDLE, &data), fastchr(NEEDLE, &data));
}

#[test]
fn memchr_short_compat_test() {
    let data = generate_short_sample();
    assert_eq!(memchr::memchr(NEEDLE, &data), fastchr(NEEDLE, &data));
}

#[test]
fn long_find_test() {
    let data = generate_long_sample();
    assert_eq!(Some(LONG_PREFIX_LEN), fastchr(NEEDLE, &data));
}

#[test]
fn short_find_test() {
    let data = generate_short_sample();
    assert_eq!(Some(SHORT_PREFIX_LEN), fastchr(NEEDLE, &data));
}

#[test]
fn odd_find_test() {
    let data = generate_odd_sample();
    assert_eq!(Some(ODD_PREFIX_LEN), fastchr(NEEDLE, &data));
}

#[test]
fn empty_find_test() {
    let data = Vec::new();
    assert_eq!(None, fastchr(NEEDLE, &data));
}

#[test]
fn memchr_iter_count_equivalence() {
    let random_data: Vec<u8> = generate_mixed_sample(LONG_PREFIX_LEN * 2);
    assert_eq!(
        memchr::Memchr::new(NEEDLE, &random_data).count(),
        Fastchr::new(NEEDLE, &random_data).collect().len()
    )
}

#[test]
fn memchr_dense_iter_count_equivalence() {
    let dense_data: Vec<u8> = std::iter::repeat(NEEDLE).take(ODD_PREFIX_LEN).collect();
    assert_eq!(
        memchr::Memchr::new(NEEDLE, &dense_data).count(),
        Fastchr::new(NEEDLE, &dense_data).collect().len()
    )
}

#[test]
fn every_lane_width_finds_the_first_match() {
    let samples = [
        generate_buried_sample(),
        generate_long_negative_sample(),
        generate_short_sample(),
        generate_odd_sample(),
        generate_long_sample(),
        Vec::new(),
        vec![NEEDLE],
        generate_mixed_sample(1000),
    ];
    for data in samples.iter() {
        let expected = data.iter().position(|&b| b == NEEDLE);
        for lanes in ALL_LANES {
            assert_eq!(expected, fastchr_with(lanes, NEEDLE, data));
        }
    }
}

#[test]
fn first_match_at_every_offset_of_a_short_haystack() {
    for len in 0..100usize {
        for at in 0..len {
            let mut data = vec![0u8; len];
            data[at] = 1;
            if at + 5 < len {
                data[at + 5] = 1;
            }
            for lanes in ALL_LANES {
                assert_eq!(Some(at), fastchr_with(lanes, 1, &data));
                assert_eq!(None, fastchr_with(lanes, 2, &data));
            }
        }
    }
}

#[test]
fn single_needle_at_position_zero() {
    for lanes in ALL_LANES {
        assert_eq!(Some(0), fastchr_with(lanes, 9, &[9]));
    }
}

#[test]
fn cursor_yields_positions_in_order() {
    let slice = [100, 50, 70, 50, 100, 100, 50];
    for lanes in ALL_LANES {
        let mut iter = Fastchr::with_lanes(lanes, 50, &slice[..]);
        assert_eq!(iter.next().unwrap(), 1);
        assert_eq!(iter.next().unwrap(), 3);
        assert_eq!(iter.next().unwrap(), 6);
        assert!(iter.next().is_none());
        assert!(iter.next().is_none());
    }
}

#[test]
fn cursor_matches_a_plain_scan_for_every_lane_width() {
    let data = generate_mixed_sample(5000);
    for needle in [0u8, 7, 70, 255] {
        let expected: Vec<usize> =
            data.iter().enumerate().filter(|(_, &b)| b == needle).map(|(i, _)| i).collect();
        for lanes in ALL_LANES {
            assert_eq!(expected, Fastchr::with_lanes(lanes, needle, &data).collect());
        }
    }
}

#[test]
fn cursor_on_dense_haystack_for_every_lane_width() {
    for len in [0usize, 1, 15, 16, 17, 31, 32, 33, 63, 64, 65, 200] {
        let data = vec![NEEDLE; len];
        let expected: Vec<usize> = (0..len).collect();
        for lanes in ALL_LANES {
            assert_eq!(expected, Fastchr::with_lanes(lanes, NEEDLE, &data).collect());
        }
    }
}

#[test]
fn cursor_size_hint_is_bounded_by_the_haystack() {
    let data = [1u8, 2, 3];
    let iter = Fastchr::new(2, &data);
    assert_eq!((0, Some(3)), iter.size_hint());
}

#[test]
fn split_yields_pieces_between_needles() {
    let slice = [10, 40, 33, 20];
    let mut iter = FastchrSplit::new(40, &slice[..]);
    assert_eq!(iter.next().unwrap(), &[10]);
    assert_eq!(iter.next().unwrap(), &[33, 20]);
    assert!(iter.next().is_none());
}

#[test]
fn split_yields_final_empty_piece_once() {
    let slice = [100, 50, 70, 50, 100, 100, 50];
    let mut iter = FastchrSplit::new(50, &slice[..]);
    assert_eq!(iter.size_hint(), (1, Some(8)));
    assert_eq!(iter.next().unwrap(), &[100]);
    assert_eq!(iter.next().unwrap(), &[70]);
    assert_eq!(iter.next().unwrap(), &[100, 100]);
    assert_eq!(iter.next().unwrap(), &[] as &[u8]);
    assert!(iter.next().is_none());
    assert!(iter.next().is_none());
    assert_eq!(iter.size_hint(), (0, Some(0)));
}

#[test]
fn split_of_empty_haystack_is_one_empty_piece() {
    let pieces = FastchrSplit::new(b'\n', &[]).collect();
    assert_eq!(pieces, vec![&[] as &[u8]]);
}

#[test]
fn split_collect_agrees_with_slice_split() {
    let data = b"spam\nham\n\neggs";
    let expected: Vec<&[u8]> = data.split(|&b| b == b'\n').collect();
    assert_eq!(expected, FastchrSplit::new(b'\n', data).collect());
}
