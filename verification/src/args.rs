//! The command line, once it has been split into its values.

use crate::config::Options;
use crate::config::LINE_FEED;
use crate::error::DedupError;
use vstd::prelude::*;
use vstd::string::*;

verus! {

const BACKSLASH: u8 = 92;

const DASH: u8 = 45;

/// The byte that a delimiter argument stands for: a single byte stands for
/// itself, and backslash with one of `n t 0 \ ' "` for the byte that the
/// escape names.
pub open spec fn byte_literal(bytes: Seq<u8>) -> Option<u8> {
    if bytes.len() == 1 {
        Some(bytes[0])
    } else if bytes.len() == 2 && bytes[0] == 92 {
        if bytes[1] == 110 {
            Some(10u8)
        } else if bytes[1] == 116 {
            Some(9u8)
        } else if bytes[1] == 48 {
            Some(0u8)
        } else if bytes[1] == 92 {
            Some(92u8)
        } else if bytes[1] == 39 {
            Some(39u8)
        } else if bytes[1] == 34 {
            Some(34u8)
        } else {
            None
        }
    } else {
        None
    }
}

/// What the error says when `input` is no delimiter.
pub open spec fn bad_delimiter_message(input: Seq<char>) -> Seq<char> {
    "Invalid delimiter specified, only single byte characters are permitted. Found: "@ + input
}

fn bad_delimiter(input: &str) -> (e: DedupError)
    ensures
        e == DedupError::ArgumentParseError(e->ArgumentParseError_0),
        e->ArgumentParseError_0@ == bad_delimiter_message(input@),
{
    let text: String = String::from_str(
        "Invalid delimiter specified, only single byte characters are permitted. Found: ",
    ).concat(input);
    DedupError::ArgumentParseError(text)
}

/// Reads a delimiter argument.
pub fn parse_to_byte_literal(input: &str) -> (r: Result<u8, DedupError>)
    ensures
        match byte_literal(input.spec_bytes()) {
            Some(b) => r == Ok::<u8, DedupError>(b),
            None => r matches Err(DedupError::ArgumentParseError(text)) && text@
                == bad_delimiter_message(input@),
        },
{
    let bytes: &[u8] = input.as_bytes();
    if bytes.len() == 1 {
        return Ok(bytes[0]);
    }
    if bytes.len() != 2 {
        return Err(bad_delimiter(input));
    }
    if bytes[0] != BACKSLASH {
        return Err(bad_delimiter(input));
    }
    let second: u8 = bytes[1];
    if second == 110 {
        Ok(LINE_FEED)
    } else if second == 116 {
        Ok(9)
    } else if second == 48 {
        Ok(0)
    } else if second == 92 {
        Ok(BACKSLASH)
    } else if second == 39 {
        Ok(39)
    } else if second == 34 {
        Ok(34)
    } else {
        Err(bad_delimiter(input))
    }
}

/// The input path that an argument names: `-` names no path, and stands
/// for standard input.
pub fn replace_with_stdout(input: &str) -> (r: Option<&str>)
    ensures
        input@ == "-"@ ==> r is None,
        input@ != "-"@ ==> r == Some(input),
{
    let bytes: &[u8] = input.as_bytes();
    if bytes.len() == 1 && bytes[0] == DASH {
        proof {
            lemma_single_dash(input);
        }
        None
    } else {
        proof {
            lemma_dash_bytes();
        }
        Some(input)
    }
}

proof fn lemma_single_dash(input: &str)
    requires
        input.spec_bytes() == seq![45u8],
    ensures
        input@ == "-"@,
{
    reveal_strlit("-");
    vstd::utf8::encode_utf8_decode_utf8(input@);
    lemma_dash_bytes();
    vstd::utf8::encode_utf8_decode_utf8("-"@);
}

proof fn lemma_dash_bytes()
    ensures
        "-".spec_bytes() == seq![45u8],
{
    reveal_strlit("-");
    is_ascii_spec_bytes("-");
}

/// The values of the command line.
#[derive(Debug, Clone, PartialEq, Eq)]
pub struct Args {
    /// The file to read; `None` for standard input.
    pub input: Option<String>,
    /// The file to write; `None` for standard output.
    pub output: Option<String>,
    /// Whether the input file may be mapped into memory.
    pub mmap: bool,
    /// The byte that ends a record.
    pub delim: u8,
}

impl Args {
    /// The values of a command line whose arguments have been told apart.
    /// No delimiter argument stands for a line feed.
    pub fn from_values(
        input: Option<&str>,
        output: Option<&str>,
        no_mmap: bool,
        delimiter: Option<&str>,
    ) -> (r: Result<Args, DedupError>)
        ensures
            match delimiter {
                Some(d) => match byte_literal(d.spec_bytes()) {
                    Some(b) => r is Ok && r->Ok_0.delim == b,
                    None => r matches Err(DedupError::ArgumentParseError(text)) && text@
                        == bad_delimiter_message(d@),
                },
                None => r is Ok && r->Ok_0.delim == 10,
            },
            r matches Ok(args) ==> {
                &&& args.mmap == !no_mmap
                &&& match input {
                    Some(path) => if path@ == "-"@ {
                        args.input is None
                    } else {
                        args.input matches Some(p) && p@ == path@
                    },
                    None => args.input is None,
                }
                &&& match output {
                    Some(path) => args.output matches Some(p) && p@ == path@,
                    None => args.output is None,
                }
            },
    {
        let delim: u8 = match delimiter {
            Some(d) => match parse_to_byte_literal(d) {
                Ok(b) => b,
                Err(e) => {
                    return Err(e);
                },
            },
            None => LINE_FEED,
        };
        let input: Option<String> = match input {
            Some(path) => match replace_with_stdout(path) {
                Some(p) => Some(String::from_str(p)),
                None => None,
            },
            None => None,
        };
        let output: Option<String> = match output {
            Some(path) => Some(String::from_str(path)),
            None => None,
        };
        Ok(Args { input, output, mmap: !no_mmap, delim })
    }
}

impl From<Args> for Options {
    /// The options that the command line asks for.
    fn from(src: Args) -> (r: Options) {
        Options::with_delim(src.delim)
    }
}

impl vstd::std_specs::convert::FromSpecImpl<Args> for Options {
    open spec fn obeys_from_spec() -> bool {
        true
    }

    open spec fn from_spec(src: Args) -> Options {
        Options::plain(src.delim)
    }
}

impl<'a> From<&'a Args> for Options {
    /// The options that the command line asks for.
    fn from(src: &'a Args) -> (r: Options) {
        Options::with_delim(src.delim)
    }
}

impl<'a> vstd::std_specs::convert::FromSpecImpl<&'a Args> for Options {
    open spec fn obeys_from_spec() -> bool {
        true
    }

    open spec fn from_spec(src: &'a Args) -> Options {
        Options::plain(src.delim)
    }
}

} // verus!
