use dedup::output::{TetheredBufWriter, DEFAULT_BUF_SIZE};

#[test]
fn default_buffer_is_eight_mebibytes() {
    assert_eq!(1 << 23, DEFAULT_BUF_SIZE);
}

#[test]
fn small_writes_are_staged_until_the_buffer_is_full() {
    let mut writer = TetheredBufWriter::with_capacity(10);
    assert_eq!(4, writer.write(b"aaaa"));
    assert_eq!(4, writer.write(b"bbbb"));
    assert!(writer.take_writes().is_empty());
    assert_eq!(4, writer.write(b"cccc"));
    assert_eq!(vec![b"aaaabbbb".to_vec()], writer.take_writes());
    assert_eq!(vec![b"cccc".to_vec()], writer.finish());
}

#[test]
fn write_that_fills_the_buffer_exactly_flushes_first() {
    let mut writer = TetheredBufWriter::with_capacity(8);
    writer.write(b"aaaa");
    writer.write(b"bbbb");
    assert_eq!(vec![b"aaaa".to_vec()], writer.take_writes());
    assert_eq!(vec![b"bbbb".to_vec()], writer.finish());
}

#[test]
fn large_write_goes_past_the_buffer_after_the_staged_bytes() {
    let mut writer = TetheredBufWriter::with_capacity(4);
    writer.write(b"ab");
    assert_eq!(6, writer.write(b"cdefgh"));
    assert_eq!(vec![b"ab".to_vec(), b"cdefgh".to_vec()], writer.take_writes());
    assert!(writer.finish().is_empty());
}

#[test]
fn record_and_terminator_are_never_parted() {
    let mut writer = TetheredBufWriter::with_capacity(6);
    writer.write_record(b"ab", b'\n');
    writer.write_record(b"cd", b'\n');
    writer.write_record(b"efghij", b'\n');
    writer.write_record(b"k", b'\n');
    assert_eq!(
        vec![b"ab\n".to_vec(), b"cd\n".to_vec(), b"efghij\n".to_vec(), b"k\n".to_vec()],
        writer.finish()
    );
}

#[test]
fn flush_makes_the_staged_bytes_a_payload() {
    let mut writer = TetheredBufWriter::new();
    writer.flush();
    assert!(writer.take_writes().is_empty());
    writer.write(b"abc");
    writer.flush();
    writer.flush();
    assert_eq!(vec![b"abc".to_vec()], writer.take_writes());
}

#[test]
fn write_all_overtakes_the_staged_bytes() {
    let mut writer = TetheredBufWriter::with_capacity(100);
    writer.write(b"staged");
    writer.write_all(b"direct");
    assert_eq!(vec![b"direct".to_vec(), b"staged".to_vec()], writer.finish());
}

#[test]
fn writer_without_capacity_stages_nothing() {
    let mut writer = TetheredBufWriter::with_capacity(0);
    writer.write(b"a");
    writer.write_record(b"", b'\n');
    assert_eq!(vec![b"a".to_vec(), b"\n".to_vec()], writer.take_writes());
}
