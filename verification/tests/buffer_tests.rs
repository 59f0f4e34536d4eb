use dedup::buffer::{dedup_chunk, work_chunks, BufferDeduper, WORK_CHUNK_SIZE};
use dedup::config::{Options, Terminator};
use dedup::fastchr::Lanes;
use dedup::gumshoe::GumSet;
use dedup::output::TetheredBufWriter;

static BREAKFAST: &str = "\
spam
ham
eggs
ham
ham eggs
eggs
ham
spam
";

static BREAKFAST_DEDUP: &str = "\
spam
ham
eggs
ham eggs
";

fn options(delim: u8) -> Options {
    Options::with_delim(delim)
}

fn run_sweep(input: &[u8], opts: Options) -> (Vec<u8>, Option<u64>) {
    let mut output: Vec<u8> = Vec::new();
    let count = BufferDeduper::new(input, &mut output, opts).run().unwrap();
    (output, count)
}

fn run_chunked(input: &[u8], opts: Options) -> (Vec<u8>, Option<u64>) {
    let mut output: Vec<u8> = Vec::new();
    let count = BufferDeduper::new(input, &mut output, opts).run_chunked().unwrap();
    (output, count)
}

fn both(input: &[u8], opts: Options) -> (Vec<u8>, Option<u64>) {
    let swept = run_sweep(input, opts);
    let chunked = run_chunked(input, opts);
    assert_eq!(swept, chunked);
    for rough_size in [0usize, 1, 2, 3, 7, 64] {
        let mut output: Vec<u8> = Vec::new();
        let count =
            BufferDeduper::new(input, &mut output, opts).run_with_chunks_of(rough_size).unwrap();
        assert_eq!(swept, (output, count));
    }
    swept
}

#[test]
fn buf_breakfast_dedup() {
    let mut output: Vec<u8> = Vec::new();
    {
        let dedup = BufferDeduper::new(BREAKFAST.as_bytes(), &mut output, Options::default());
        dedup.run().unwrap();
    }
    assert_eq!(BREAKFAST_DEDUP, std::str::from_utf8(&output).unwrap());
}

#[test]
fn breakfast_in_both_modes() {
    let (output, count) = both(BREAKFAST.as_bytes(), Options::default());
    assert_eq!(BREAKFAST_DEDUP.as_bytes(), &output[..]);
    assert_eq!(None, count);
}

#[test]
fn distinct_records_pass_unchanged() {
    let (output, _) = both(b"a\nb\nc\n", Options::default());
    assert_eq!(b"a\nb\nc\n".to_vec(), output);
}

#[test]
fn empty_input_gives_empty_output_and_count_zero() {
    let (output, count) = both(b"", Options::default());
    assert!(output.is_empty());
    assert_eq!(None, count);
    let mut counting = Options::default();
    counting.line_count = true;
    let (output, count) = both(b"", counting);
    assert!(output.is_empty());
    assert_eq!(Some(0), count);
}

#[test]
fn repeats_of_one_record_collapse() {
    let (output, _) = both(b"x\nx\nx\nx\n", Options::default());
    assert_eq!(b"x\n".to_vec(), output);
}

#[test]
fn zero_byte_terminator() {
    let (output, _) = both(b"a\0b\0a\0", options(0));
    assert_eq!(b"a\0b\0".to_vec(), output);
}

#[test]
fn input_without_terminator_is_one_record() {
    let (output, _) = both(b"lonely", Options::default());
    assert_eq!(b"lonely\n".to_vec(), output);
}

#[test]
fn unterminated_last_record_gets_a_terminator() {
    let (output, _) = both(b"a\nb\na", Options::default());
    assert_eq!(b"a\nb\n".to_vec(), output);
    let (output, _) = both(b"a\nb\nc", Options::default());
    assert_eq!(b"a\nb\nc\n".to_vec(), output);
}

#[test]
fn sweep_of_a_lone_terminator_gives_no_record() {
    let (output, count) = run_sweep(b"\n", Options::default());
    assert!(output.is_empty());
    assert_eq!(None, count);
    let mut counting = Options::default();
    counting.line_count = true;
    let (output, count) = run_sweep(b"\n", counting);
    assert!(output.is_empty());
    assert_eq!(Some(0), count);
}

#[test]
fn sweep_drops_a_last_survivor_that_is_empty() {
    let (output, _) = run_sweep(b"x\n\n", Options::default());
    assert_eq!(b"x\n".to_vec(), output);
    let (output, _) = run_sweep(b"\nx\n", Options::default());
    assert_eq!(b"\nx\n".to_vec(), output);
    let (output, _) = run_sweep(b"x\n\nx", Options::default());
    assert_eq!(b"x\n".to_vec(), output);
    let mut counting = Options::default();
    counting.line_count = true;
    assert_eq!(Some(1), run_sweep(b"x\n\n", counting).1);
    assert_eq!(Some(2), run_sweep(b"\nx\n", counting).1);
}

#[test]
fn chunked_run_counts_every_terminated_record() {
    let mut counting = Options::default();
    counting.line_count = true;
    for rough_size in [0usize, 1, 64] {
        let mut output: Vec<u8> = Vec::new();
        let count = BufferDeduper::new(b"\n", &mut output, Options::default())
            .run_with_chunks_of(rough_size)
            .unwrap();
        assert_eq!((b"\n".to_vec(), None), (output, count));
        let mut output: Vec<u8> = Vec::new();
        let count = BufferDeduper::new(b"x\n\n", &mut output, Options::default())
            .run_with_chunks_of(rough_size)
            .unwrap();
        assert_eq!((b"x\n\n".to_vec(), None), (output, count));
        let mut output: Vec<u8> = Vec::new();
        let count =
            BufferDeduper::new(b"\n", &mut output, counting).run_with_chunks_of(rough_size);
        assert_eq!(Ok(Some(1)), count);
        assert!(output.is_empty());
    }
    assert_eq!((b"\n".to_vec(), None), run_chunked(b"\n", Options::default()));
}

#[test]
fn empty_records_in_the_middle_are_records() {
    let (output, _) = both(b"a\n\nb\n\n", Options::default());
    assert_eq!(b"a\n\nb\n".to_vec(), output);
}

#[test]
fn count_replaces_output() {
    let mut counting = Options::default();
    counting.line_count = true;
    let (output, count) = both(BREAKFAST.as_bytes(), counting);
    assert!(output.is_empty());
    assert_eq!(Some(4), count);
}

#[test]
fn repeated_keeps_every_occurrence_but_the_first() {
    let mut repeats = Options::default();
    repeats.repeated = true;
    let (output, _) = both(BREAKFAST.as_bytes(), repeats);
    assert_eq!(b"ham\neggs\nham\nspam\n".to_vec(), output);
    repeats.line_count = true;
    let (_, count) = both(BREAKFAST.as_bytes(), repeats);
    assert_eq!(Some(4), count);
}

#[test]
fn carriage_returns_stay_unless_asked_for() {
    let (output, _) = both(b"a\r\na\nb\r\n", Options::default());
    assert_eq!(b"a\r\na\nb\r\n".to_vec(), output);
    let mut crlf = Options::default();
    crlf.term = Terminator::CRLF;
    let (output, _) = both(b"a\r\na\nb\r\n", crlf);
    assert_eq!(b"a\nb\n".to_vec(), output);
}

#[test]
fn output_goes_behind_what_the_sink_holds() {
    let mut output: Vec<u8> = b">>".to_vec();
    BufferDeduper::new(b"a\na\n", &mut output, Options::default()).run().unwrap();
    assert_eq!(b">>a\n".to_vec(), output);
    BufferDeduper::new(b"b\n", &mut output, Options::default()).run_chunked().unwrap();
    assert_eq!(b">>a\nb\n".to_vec(), output);
}

#[test]
fn every_lane_width_gives_the_same_output() {
    let mut input: Vec<u8> = Vec::new();
    for i in 0..3000u32 {
        input.extend_from_slice(format!("record {}", i % 700).as_bytes());
        input.push(b'\n');
    }
    let mut expected: Vec<u8> = Vec::new();
    for i in 0..700u32 {
        expected.extend_from_slice(format!("record {}", i).as_bytes());
        expected.push(b'\n');
    }
    for lanes in [Lanes::Avx2, Lanes::Sse2, Lanes::Scalar] {
        let mut opts = Options::default();
        opts.lanes = lanes;
        let (output, _) = both(&input, opts);
        assert_eq!(expected, output);
    }
}

#[test]
fn dedup_of_deduped_input_changes_nothing() {
    let (once, _) = both(BREAKFAST.as_bytes(), Options::default());
    let (twice, _) = both(&once, Options::default());
    assert_eq!(once, twice);
}

#[test]
fn survivors_are_slices_of_the_buffer_in_input_order() {
    let input = b"b\na\nb\nc\na\n";
    let mut set = GumSet::new();
    let kept = BufferDeduper::survivors(input, &Options::default(), &mut set);
    assert_eq!(vec![&b"b"[..], &b"a"[..], &b"c"[..], &b""[..]], kept);
    assert!(set.contains(b"c"));
    assert!(set.contains(b""));
}

#[test]
fn chunks_end_with_the_terminator() {
    let input = b"aaaa\nbb\ncccccc\nd\nee";
    let chunks = work_chunks(input, b'\n', 4, Lanes::Scalar);
    assert_eq!(
        vec![&b"aaaa\n"[..], &b"bb\ncccccc\n"[..], &b"d\nee"[..]],
        chunks
    );
    let joined: Vec<u8> = chunks.concat();
    assert_eq!(input.to_vec(), joined);
}

#[test]
fn short_input_is_one_chunk() {
    let chunks = work_chunks(b"a\nb\n", b'\n', WORK_CHUNK_SIZE, Lanes::Avx2);
    assert_eq!(vec![&b"a\nb\n"[..]], chunks);
    assert!(work_chunks(b"", b'\n', WORK_CHUNK_SIZE, Lanes::Avx2).is_empty());
}

#[test]
fn workers_share_one_set_across_chunks() {
    let opts = Options::default();
    let mut set = GumSet::new();
    let mut writer = TetheredBufWriter::with_capacity(64);
    assert_eq!(2, dedup_chunk(&mut set, b"a\nb\na\n", &opts, &mut writer));
    assert_eq!(1, dedup_chunk(&mut set, b"b\nc\n", &opts, &mut writer));
    assert_eq!(0, dedup_chunk(&mut set, b"", &opts, &mut writer));
    assert_eq!(1, dedup_chunk(&mut set, b"c\nd", &opts, &mut writer));
    assert_eq!(vec![b"a\nb\nc\nd\n".to_vec()], writer.finish());
}

#[test]
fn record_longer_than_the_staging_buffer_is_one_payload() {
    let opts = Options::default();
    let mut set = GumSet::new();
    let mut writer = TetheredBufWriter::with_capacity(8);
    let input = b"ab\ncd\nthis record is long\nef\n";
    assert_eq!(4, dedup_chunk(&mut set, input, &opts, &mut writer));
    assert_eq!(
        vec![b"ab\ncd\n".to_vec(), b"this record is long\n".to_vec(), b"ef\n".to_vec()],
        writer.finish()
    );
}

#[test]
fn chunks_in_another_order_give_the_same_records() {
    let opts = Options::default();
    let chunks: [&[u8]; 3] = [b"a\nb\na\n", b"b\nc\n", b"c\nd\na\n"];
    let mut outputs: Vec<Vec<Vec<u8>>> = Vec::new();
    for order in [[0usize, 1, 2], [2, 1, 0], [1, 0, 2], [1, 2, 0]] {
        let mut set = GumSet::new();
        let mut writer = TetheredBufWriter::with_capacity(64);
        let mut count = 0;
        for k in order {
            count += dedup_chunk(&mut set, chunks[k], &opts, &mut writer);
        }
        assert_eq!(4, count);
        let written: Vec<u8> = writer.finish().concat();
        let mut records: Vec<Vec<u8>> =
            written.split(|&b| b == b'\n').map(|r| r.to_vec()).collect();
        assert_eq!(Some(Vec::new()), records.pop());
        outputs.push(records);
    }
    assert_eq!(vec![b"a".to_vec(), b"b".to_vec(), b"c".to_vec(), b"d".to_vec()], outputs[0]);
    assert_eq!(vec![b"c".to_vec(), b"d".to_vec(), b"a".to_vec(), b"b".to_vec()], outputs[1]);
    for records in outputs.iter_mut() {
        records.sort();
        assert_eq!(vec![b"a".to_vec(), b"b".to_vec(), b"c".to_vec(), b"d".to_vec()], *records);
    }
}
