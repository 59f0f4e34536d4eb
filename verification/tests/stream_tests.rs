use dedup::config::{Options, Terminator};
use dedup::stream::{StreamFilter, StreamStep, UnsortedStreamDeduper};

static BREAKFAST: &str = "\
spam
ham
eggs
ham
ham eggs
eggs
ham
spam
";

static BREAKFAST_DEDUP: &str = "\
spam
ham
eggs
ham eggs
";

#[test]
fn stream_breakfast_dedup() {
    let mut output: Vec<u8> = Vec::new();
    let reader = BREAKFAST.as_bytes();
    {
        let dedup = UnsortedStreamDeduper::new(reader, &mut output, Options::default());
        dedup.run().unwrap();
    }
    assert_eq!(BREAKFAST_DEDUP, std::str::from_utf8(&output).unwrap());
}

#[test]
fn stream_run_counts_the_records_it_writes() {
    let mut output: Vec<u8> = Vec::new();
    let count =
        UnsortedStreamDeduper::new(BREAKFAST.as_bytes(), &mut output, Options::default()).run();
    assert_eq!(Ok(4), count);
}

#[test]
fn stream_run_on_empty_input() {
    let mut output: Vec<u8> = Vec::new();
    let count = UnsortedStreamDeduper::new(b"", &mut output, Options::default()).run();
    assert_eq!(Ok(0), count);
    assert!(output.is_empty());
}

#[test]
fn stream_run_terminates_the_last_record() {
    let mut output: Vec<u8> = Vec::new();
    let count = UnsortedStreamDeduper::new(b"a\nb\na", &mut output, Options::default()).run();
    assert_eq!(Ok(2), count);
    assert_eq!(b"a\nb\n".to_vec(), output);

    let mut output: Vec<u8> = Vec::new();
    let count = UnsortedStreamDeduper::new(b"abc", &mut output, Options::default()).run();
    assert_eq!(Ok(1), count);
    assert_eq!(b"abc\n".to_vec(), output);
}

#[test]
fn stream_run_with_zero_byte_terminator() {
    let mut output: Vec<u8> = Vec::new();
    UnsortedStreamDeduper::new(b"a\0b\0a\0", &mut output, Options::with_delim(0)).run().unwrap();
    assert_eq!(b"a\0b\0".to_vec(), output);
}

#[test]
fn filter_says_what_to_write_for_each_read() {
    let mut filter = StreamFilter::new(Options::default());
    assert_eq!(StreamStep::Write(b"spam\n".to_vec()), filter.step(b"spam\n".to_vec()));
    assert_eq!(StreamStep::Write(b"ham\n".to_vec()), filter.step(b"ham\n".to_vec()));
    assert_eq!(StreamStep::Skip, filter.step(b"spam\n".to_vec()));
    assert_eq!(StreamStep::Skip, filter.step(b"ham".to_vec()));
    assert_eq!(StreamStep::Write(b"eggs\n".to_vec()), filter.step(b"eggs".to_vec()));
    assert_eq!(StreamStep::Write(b"\n".to_vec()), filter.step(b"\n".to_vec()));
    assert_eq!(StreamStep::Skip, filter.step(b"\n".to_vec()));
    assert_eq!(StreamStep::Done, filter.step(Vec::new()));
    assert_eq!(StreamStep::Skip, filter.step(b"eggs\n".to_vec()));
}

#[test]
fn filter_cuts_the_carriage_return_when_asked() {
    let mut crlf = Options::default();
    crlf.term = Terminator::CRLF;
    let mut filter = StreamFilter::new(crlf);
    assert_eq!(StreamStep::Write(b"a\n".to_vec()), filter.step(b"a\r\n".to_vec()));
    assert_eq!(StreamStep::Skip, filter.step(b"a\n".to_vec()));
    assert_eq!(StreamStep::Skip, filter.step(b"a\r".to_vec()));
    let mut plain = StreamFilter::new(Options::default());
    assert_eq!(StreamStep::Write(b"a\r\n".to_vec()), plain.step(b"a\r\n".to_vec()));
    assert_eq!(StreamStep::Write(b"a\n".to_vec()), plain.step(b"a\n".to_vec()));
}
