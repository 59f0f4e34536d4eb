use dedup::args::{parse_to_byte_literal, replace_with_stdout, Args};
use dedup::config::{Options, Terminator, CARRIAGE_RETURN, LINE_FEED};
use dedup::error::{exit_code, DedupError};
use dedup::fastchr::Lanes;

#[test]
fn single_input_test() {
    let m = Args::from_values(Some("inputfile"), None, false, None).unwrap();

    assert_eq!(m.input.as_deref(), Some("inputfile"));
}

#[test]
fn no_mmap_test() {
    let m = Args::from_values(Some("inputfile"), None, true, None).unwrap();

    assert!(!m.mmap);
}

#[test]
fn input_output_test() {
    let m = Args::from_values(Some("inputfile"), Some("outputfile"), false, None).unwrap();

    assert_eq!(m.output.as_deref(), Some("outputfile"));
}

#[test]
fn output_input_test() {
    let m = Args::from_values(Some("inputfile"), Some("outputfile"), false, None).unwrap();

    assert_eq!(m.output.as_deref(), Some("outputfile"));
    assert_eq!(m.input.as_deref(), Some("inputfile"));
}

#[test]
fn specify_delim_test() {
    let m = Args::from_values(Some("inputfile"), None, false, Some("\\t")).unwrap();

    assert_eq!(m.delim, b'\t');
    assert_eq!(parse_to_byte_literal("\\t").unwrap(), b'\t');
}

#[test]
fn unspecified_delim_test() {
    let m = Args::from_values(Some("inputfile"), None, false, None).unwrap();

    assert_eq!(m.delim, b'\n');
    assert!(m.mmap);
}

#[test]
fn every_escape_has_its_byte() {
    assert_eq!(Ok(b'\n'), parse_to_byte_literal("\\n"));
    assert_eq!(Ok(b'\t'), parse_to_byte_literal("\\t"));
    assert_eq!(Ok(b'\0'), parse_to_byte_literal("\\0"));
    assert_eq!(Ok(b'\\'), parse_to_byte_literal("\\\\"));
    assert_eq!(Ok(b'\''), parse_to_byte_literal("\\'"));
    assert_eq!(Ok(b'"'), parse_to_byte_literal("\\\""));
}

#[test]
fn single_byte_stands_for_itself() {
    assert_eq!(Ok(b','), parse_to_byte_literal(","));
    assert_eq!(Ok(b'\\'), parse_to_byte_literal("\\"));
    assert_eq!(Ok(b'n'), parse_to_byte_literal("n"));
}

#[test]
fn bad_delimiters_are_refused_with_the_argument_in_the_message() {
    for bad in ["", "ab", "abc", "\\x", "n\\", "\u{e9}", "\\nn"] {
        let expected = DedupError::ArgumentParseError(format!(
            "Invalid delimiter specified, only single byte characters are permitted. Found: {}",
            bad
        ));
        assert_eq!(Err(expected.clone()), parse_to_byte_literal(bad));
        assert_eq!(
            Err(expected),
            Args::from_values(Some("inputfile"), None, false, Some(bad))
        );
    }
}

#[test]
fn dash_stands_for_standard_input() {
    assert_eq!(None, replace_with_stdout("-"));
    assert_eq!(Some("--"), replace_with_stdout("--"));
    assert_eq!(Some("file"), replace_with_stdout("file"));
    assert_eq!(Some(""), replace_with_stdout(""));
    let m = Args::from_values(Some("-"), Some("-"), false, None).unwrap();
    assert_eq!(None, m.input);
    assert_eq!(m.output.as_deref(), Some("-"));
    let m = Args::from_values(None, None, false, None).unwrap();
    assert_eq!(None, m.input);
    assert_eq!(None, m.output);
}

#[test]
fn options_follow_the_arguments() {
    let m = Args::from_values(Some("inputfile"), None, false, Some("\\0")).unwrap();
    let opts = Options::from(&m);
    assert_eq!(opts, Options::from(m.clone()));
    assert_eq!(Terminator::Any(0), opts.term);
    assert_eq!(Options::with_delim(0), opts);
}

#[test]
fn default_options() {
    let opts = Options::default();
    assert_eq!(Terminator::Any(b'\n'), opts.term);
    assert_eq!(0, opts.num_threads);
    assert!(!opts.line_count);
    assert!(!opts.repeated);
    assert_eq!(Lanes::Scalar, opts.lanes);
}

#[test]
fn terminator_byte_and_trim() {
    assert_eq!(b'\n', LINE_FEED);
    assert_eq!(b'\r', CARRIAGE_RETURN);
    assert_eq!(Terminator::CRLF, Terminator::default());
    assert_eq!(b'\n', Terminator::CRLF.byte());
    assert_eq!(7, Terminator::Any(7).byte());
    assert_eq!(b"ab", Terminator::CRLF.trim(b"ab\r"));
    assert_eq!(b"ab\r", Terminator::CRLF.trim(b"ab\r\r"));
    assert_eq!(b"ab", Terminator::CRLF.trim(b"ab"));
    assert_eq!(b"", Terminator::CRLF.trim(b""));
    assert_eq!(b"ab\r", Terminator::Any(b'\n').trim(b"ab\r"));
}

#[test]
fn closed_pipe_is_no_failure() {
    assert_eq!(DedupError::ClosedPipe, DedupError::from_io(true, "broken pipe".to_string()));
    assert_eq!(
        DedupError::IO("disk full".to_string()),
        DedupError::from_io(false, "disk full".to_string())
    );
    assert_eq!(0, DedupError::ClosedPipe.exit_code());
    assert_eq!(1, DedupError::IO("disk full".to_string()).exit_code());
    assert_eq!(1, DedupError::ArgumentParseError("bad".to_string()).exit_code());
    assert_eq!(1, DedupError::UnknownError("worker".to_string()).exit_code());
    assert_eq!(0, exit_code(&Ok(3)));
    assert_eq!(0, exit_code(&Err(DedupError::ClosedPipe)));
    assert_eq!(1, exit_code(&Err(DedupError::IO("x".to_string()))));
}

#[test]
fn errors_have_their_text() {
    assert_eq!("A closed pipe was encountered", DedupError::ClosedPipe.to_string());
    assert_eq!("disk full", DedupError::IO("disk full".to_string()).to_string());
    assert_eq!("bad", DedupError::ArgumentParseError("bad".to_string()).message());
    assert_eq!("worker", DedupError::UnknownError("worker".to_string()).message());
}
