use dedup::unsorted::UnsortedBufferDeduper;

static BREAKFAST: &str = "\
spam
ham
eggs
ham
ham eggs
eggs
ham
spam
";

static BREAKFAST_DEDUP: &str = "\
spam
ham
eggs
ham eggs
";

#[test]
fn breakfast_dedup() {
    let mut output: Vec<u8> = Vec::new();
    {
        let dedup = UnsortedBufferDeduper::new(BREAKFAST.as_bytes(), &mut output);
        dedup.run().unwrap();
    }
    assert_eq!(BREAKFAST_DEDUP, std::str::from_utf8(&output).unwrap());
}

#[test]
fn one_pass_run_counts_every_record() {
    let mut output: Vec<u8> = Vec::new();
    let count = UnsortedBufferDeduper::new(BREAKFAST.as_bytes(), &mut output).run().unwrap();
    assert_eq!(8, count);
}

#[test]
fn one_pass_run_on_empty_input_writes_nothing() {
    let mut output: Vec<u8> = Vec::new();
    let count = UnsortedBufferDeduper::new(b"", &mut output).run().unwrap();
    assert_eq!(0, count);
    assert!(output.is_empty());
}

#[test]
fn one_pass_run_terminates_the_last_record() {
    let mut output: Vec<u8> = Vec::new();
    let count = UnsortedBufferDeduper::new(b"a\nb\na\nc", &mut output).run().unwrap();
    assert_eq!(4, count);
    assert_eq!(b"a\nb\nc\n".to_vec(), output);
}

#[test]
fn one_pass_run_appends_to_what_the_sink_holds() {
    let mut output: Vec<u8> = b"head:".to_vec();
    UnsortedBufferDeduper::new(b"x\nx\n", &mut output).run().unwrap();
    assert_eq!(b"head:x\n".to_vec(), output);
}

#[test]
fn one_pass_run_on_a_lone_terminator_sees_one_empty_record() {
    let mut output: Vec<u8> = Vec::new();
    let count = UnsortedBufferDeduper::new(b"\n", &mut output).run().unwrap();
    assert_eq!(1, count);
    assert_eq!(b"\n".to_vec(), output);
}
