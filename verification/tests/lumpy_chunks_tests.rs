use dedup::lumpy_chunks::{LumpyChunks, LumpyChunksIter};

fn newline(slice: &[u8]) -> Option<usize> {
    slice.iter().position(|&b| b == b'\n')
}

#[test]
fn chunks_end_before_a_break_point() {
    let data = b"aaa\nbbbbbb\ncc\ndddd";
    let chunks = data[..].lumpy_chunks(4, newline).collect();
    assert_eq!(vec![&b"aaa\nbbbbbb"[..], &b"\ncc\ndddd"[..]], chunks);
}

#[test]
fn chunks_put_together_are_the_slice() {
    let data: Vec<u8> = (0..1000u32).map(|i| if i % 7 == 0 { b'\n' } else { b'x' }).collect();
    for rough_size in [0usize, 1, 2, 5, 13, 100, 999, 1000, 5000] {
        let chunks = LumpyChunksIter::new(&data[..], rough_size, newline).collect();
        assert_eq!(data, chunks.concat());
        for chunk in chunks.iter() {
            assert!(!chunk.is_empty());
        }
        for chunk in chunks.iter().rev().skip(1) {
            assert!(chunk.len() >= rough_size);
        }
    }
}

#[test]
fn remainder_without_break_point_is_the_last_chunk() {
    let data = b"aaaa\nbbbbbbbb";
    let mut chunks = data[..].lumpy_chunks(2, newline);
    assert_eq!(Some(&b"aaaa"[..]), chunks.next());
    assert_eq!(Some(&b"\nbbbbbbbb"[..]), chunks.next());
    assert_eq!(None, chunks.next());
    assert_eq!(None, chunks.next());
}

#[test]
fn short_slice_is_one_chunk() {
    let data = b"a\nb";
    assert_eq!(vec![&data[..]], data[..].lumpy_chunks(3, newline).collect());
    assert_eq!(vec![&data[..]], data[..].lumpy_chunks(100, newline).collect());
}

#[test]
fn empty_slice_has_no_chunk() {
    let data: &[u8] = b"";
    assert!(data.lumpy_chunks(3, newline).collect().is_empty());
}

#[test]
fn rough_size_zero_never_yields_an_empty_chunk() {
    let data = b"\n\n\n";
    let chunks = data[..].lumpy_chunks(0, newline).collect();
    assert_eq!(vec![&b"\n"[..], &b"\n"[..], &b"\n"[..]], chunks);
}

#[test]
fn chunks_of_other_elements() {
    let data = [1u32, 2, 0, 3, 4, 5, 0, 6];
    let chunks = data[..].lumpy_chunks(3, |s: &[u32]| s.iter().position(|&x| x == 0)).collect();
    assert_eq!(vec![&[1u32, 2, 0, 3, 4, 5][..], &[0u32, 6][..]], chunks);
}

#[test]
fn rough_size_zero_asks_about_the_whole_remainder() {
    let data = [1u8, 2, 3, 4, 5];
    let mut chunks = LumpyChunksIter::new(&data[..], 0, |s: &[u8]| Some(s.len().min(2)));
    assert_eq!(Some(&[1u8, 2][..]), chunks.next());
    assert_eq!(Some(&[3u8, 4][..]), chunks.next());
    assert_eq!(Some(&[5u8][..]), chunks.next());
    assert_eq!(None, chunks.next());
}

#[test]
fn rough_size_zero_without_break_point_gives_the_whole_remainder() {
    let data = [1u8, 2, 3, 4, 5];
    let finder = |s: &[u8]| if s.len() == 5 { None } else { Some(1) };
    let mut chunks = LumpyChunksIter::new(&data[..], 0, finder);
    assert_eq!(Some(&data[..]), chunks.next());
    assert_eq!(None, chunks.next());
}

#[test]
fn break_point_at_the_start_is_passed_over_once() {
    let data = [0u8, 7, 7, 0, 7];
    let zero = |s: &[u8]| s.iter().position(|&b| b == 0);
    let chunks = LumpyChunksIter::new(&data[..], 0, zero).collect();
    assert_eq!(vec![&[0u8, 7, 7][..], &[0u8, 7][..]], chunks);
}

#[test]
fn chunk_has_rough_size_and_what_the_finder_reports() {
    let data = [9u8, 9, 9, 9, 1, 9, 9, 1, 9];
    let one = |s: &[u8]| s.iter().position(|&b| b == 1);
    let mut chunks = LumpyChunksIter::new(&data[..], 2, one);
    assert_eq!(Some(&[9u8, 9, 9, 9][..]), chunks.next());
    assert_eq!(Some(&[1u8, 9, 9][..]), chunks.next());
    assert_eq!(Some(&[1u8, 9][..]), chunks.next());
    assert_eq!(None, chunks.next());
}
