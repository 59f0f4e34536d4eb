//! What a dedup run is told to do.

use crate::fastchr::Lanes;
use vstd::prelude::*;

verus! {

/// The line feed, `\n`.
pub const LINE_FEED: u8 = 10;

/// The carriage return, `\r`.
pub const CARRIAGE_RETURN: u8 = 13;

/// How records end.
#[derive(Debug, Copy, Clone, PartialEq, Eq, Structural)]
pub enum Terminator {
    /// Records end with a line feed, and a carriage return right before
    /// the line feed is not part of the record.
    CRLF,
    /// Records end with this byte.
    Any(u8),
}

impl Terminator {
    /// The byte that ends a record.
    pub open spec fn spec_byte(&self) -> u8 {
        match self {
            Terminator::CRLF => LINE_FEED,
            Terminator::Any(b) => *b,
        }
    }

    /// The byte that ends a record.
    #[verifier::when_used_as_spec(spec_byte)]
    pub fn byte(&self) -> (b: u8)
        ensures
            b == self.spec_byte(),
    {
        match self {
            Terminator::CRLF => LINE_FEED,
            Terminator::Any(b) => *b,
        }
    }

    /// The record in a piece of input that was cut off at the terminator.
    pub open spec fn record_of(&self, piece: Seq<u8>) -> Seq<u8> {
        match self {
            Terminator::CRLF => if piece.len() > 0 && piece.last() == CARRIAGE_RETURN {
                piece.drop_last()
            } else {
                piece
            },
            Terminator::Any(_) => piece,
        }
    }

    /// Cuts from `piece` what the terminator says is not part of the
    /// record.
    pub fn trim<'a>(&self, piece: &'a [u8]) -> (record: &'a [u8])
        ensures
            record@ == self.record_of(piece@),
    {
        match self {
            Terminator::CRLF => {
                let len: usize = piece.len();
                if len > 0 && piece[len - 1] == CARRIAGE_RETURN {
                    vstd::slice::slice_subrange(piece, 0, len - 1)
                } else {
                    piece
                }
            },
            Terminator::Any(_) => piece,
        }
    }
}

impl Default for Terminator {
    /// Lines as text files of any origin have them.
    fn default() -> (r: Terminator)
        ensures
            r == Terminator::CRLF,
    {
        Terminator::CRLF
    }
}

/// The options of a dedup run.
#[derive(Debug, Clone, Copy, PartialEq, Eq, Structural)]
pub struct Options {
    /// How records end.
    pub term: Terminator,
    /// How many workers to run; 0 stands for one worker per core.
    pub num_threads: usize,
    /// Count the records that would be written instead of writing them.
    pub line_count: bool,
    /// Keep the repeats instead of the first occurrences.
    pub repeated: bool,
    /// The lane width with which terminators are searched.
    pub lanes: Lanes,
}

impl Options {
    /// Plain options for records that end with `delim`: nothing is cut from
    /// the records, all cores are used, first occurrences are written, and
    /// the search uses no lanes.
    pub open spec fn plain(delim: u8) -> Options {
        Options {
            term: Terminator::Any(delim),
            num_threads: 0,
            line_count: false,
            repeated: false,
            lanes: Lanes::Scalar,
        }
    }

    /// Plain options for records that end with `delim`.
    pub fn with_delim(delim: u8) -> (r: Options)
        ensures
            r == Options::plain(delim),
    {
        Options {
            term: Terminator::Any(delim),
            num_threads: 0,
            line_count: false,
            repeated: false,
            lanes: Lanes::Scalar,
        }
    }
}

impl Default for Options {
    /// Plain options for records that end with a line feed.
    fn default() -> (r: Options)
        ensures
            r == Options::plain(LINE_FEED),
    {
        Options::with_delim(LINE_FEED)
    }
}

} // verus!
