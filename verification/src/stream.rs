//! Deduplication of input that arrives read by read.
//!
//! Whoever reads the input hands each read to a filter, which says what to
//! write for it. A read holds the bytes up to and including the next
//! terminator, or what was left at the end of the input; an empty read
//! stands for the end.

use crate::config::Options;
use crate::config::Terminator;
use crate::error::DedupError;
use crate::fastchr::fastchr_with;
use crate::fastchr::split;
use crate::poirot::ConcurrentHashSet;
use crate::records::deduped_after;
use crate::records::known_with;
use crate::records::lemma_known_with_nothing;
use crate::records::lemma_last_piece;
use crate::records::lemma_records_push;
use crate::records::lemma_render_push;
use crate::records::lemma_survivors_push;
use crate::records::lemma_take_piece;
use crate::records::pieces;
use crate::records::records;
use crate::records::render;
use crate::records::survivors_after;
use vstd::prelude::*;

verus! {

/// The record in a read: the read without the terminator byte at its end,
/// if there is one, and without what the terminator cuts from records.
pub open spec fn read_record(buf: Seq<u8>, term: Terminator) -> Seq<u8> {
    term.record_of(
        if buf.len() > 0 && buf.last() == term.spec_byte() {
            buf.drop_last()
        } else {
            buf
        },
    )
}

/// What is to be done after a read.
#[derive(Debug, Clone, PartialEq, Eq)]
pub enum StreamStep {
    /// The record is new: write these bytes, which are the record and the
    /// terminator byte.
    Write(Vec<u8>),
    /// The record was seen before: write nothing.
    Skip,
    /// The input has ended.
    Done,
}

/// The records that a stream has shown so far.
pub struct StreamFilter {
    opts: Options,
    dup_store: ConcurrentHashSet,
}

impl StreamFilter {
    /// The options of the run.
    pub closed spec fn opts(&self) -> Options {
        self.opts
    }

    /// The records seen so far.
    pub closed spec fn view(&self) -> Set<Seq<u8>> {
        self.dup_store@
    }

    /// The filter is in order.
    pub closed spec fn wf(&self) -> bool {
        self.dup_store.wf()
    }

    /// A filter that has seen nothing.
    pub fn new(options: Options) -> (r: StreamFilter)
        ensures
            r.wf(),
            r.opts() == options,
            r@ == Set::<Seq<u8>>::empty(),
    {
        StreamFilter { opts: options, dup_store: ConcurrentHashSet::with_capacity(128) }
    }

    /// Takes one read and says what to write for it.
    pub fn step(&mut self, buf: Vec<u8>) -> (r: StreamStep)
        requires
            old(self).wf(),
        ensures
            final(self).wf(),
            final(self).opts() == old(self).opts(),
            buf@.len() == 0 ==> r == StreamStep::Done && final(self)@ == old(self)@,
            buf@.len() > 0 ==> {
                let record = read_record(buf@, old(self).opts().term);
                &&& final(self)@ == old(self)@.insert(record)
                &&& if old(self)@.contains(record) {
                    r == StreamStep::Skip
                } else {
                    r matches StreamStep::Write(bytes) && bytes@ == record + seq![
                        old(self).opts().term.spec_byte(),
                    ]
                }
            },
    {
        let mut buf: Vec<u8> = buf;
        if buf.len() == 0 {
            return StreamStep::Done;
        }
        let term: Terminator = self.opts.term;
        let delim: u8 = term.byte();
        let ghost read: Seq<u8> = buf@;
        if buf[buf.len() - 1] == delim {
            buf.pop();
        }
        let kept: usize = term.trim(buf.as_slice()).len();
        buf.truncate(kept);
        proof {
            assert(buf@ =~= read_record(read, term));
        }
        if self.dup_store.contains(buf.as_slice()) {
            StreamStep::Skip
        } else {
            let mut bytes: Vec<u8> = Vec::with_capacity(buf.len());
            bytes.extend_from_slice(buf.as_slice());
            bytes.push(delim);
            self.dup_store.insert(buf);
            StreamStep::Write(bytes)
        }
    }
}

/// A dedup run over input that is read record by record, here from a
/// buffer, and that writes to a byte vector.
pub struct UnsortedStreamDeduper<'a> {
    /// The input.
    pub input: &'a [u8],
    /// Where the output goes: behind what is already there.
    pub out: &'a mut Vec<u8>,
    /// The options of the run, and the records seen so far.
    pub filter: StreamFilter,
}

impl<'a> UnsortedStreamDeduper<'a> {
    /// A run over `input` with the options `options`.
    pub fn new(input: &'a [u8], output: &'a mut Vec<u8>, options: Options) -> (r:
        UnsortedStreamDeduper<'a>)
        ensures
            r.input == input,
            r.filter.wf(),
            r.filter.opts() == options,
            r.filter@ == Set::<Seq<u8>>::empty(),
            *r.out == *old(output),
            *final(r.out) == *final(output),
    {
        UnsortedStreamDeduper { input, out: output, filter: StreamFilter::new(options) }
    }

    /// Reads the input record by record and writes each record the first
    /// time it occurs, with the terminator byte behind it; a last record
    /// that the input does not terminate is written like the others.
    /// Records that the filter holds at the start count as seen. Returns
    /// the number of records written.
    pub fn run(self) -> (r: Result<u64, DedupError>)
        requires
            self.filter.wf(),
        ensures
            r == Ok::<u64, DedupError>(
                survivors_after(
                    self.filter@,
                    records(self.input@, self.filter.opts().term),
                    false,
                ).len() as u64,
            ),
            survivors_after(
                self.filter@,
                records(self.input@, self.filter.opts().term),
                false,
            ).len() <= self.input@.len(),
            final(self.out)@ == old(self.out)@ + deduped_after(
                self.filter@,
                self.input@,
                self.filter.opts().term,
                false,
            ),
    {
        let whole: &'a [u8] = self.input;
        let out: &'a mut Vec<u8> = self.out;
        let mut filter: StreamFilter = self.filter;
        let term: Terminator = filter.opts.term;
        let delim: u8 = term.byte();
        let lanes = filter.opts.lanes;
        let total: usize = whole.len();
        let mut rest: &'a [u8] = whole;
        let mut count: u64 = 0;
        let ghost known: Set<Seq<u8>> = filter@;
        let ghost start: Seq<u8> = out@;
        let ghost mut done: Seq<Seq<u8>> = Seq::empty();
        let ghost mut seen: Seq<Seq<u8>> = Seq::empty();
        let ghost mut at_end: bool = false;
        proof {
            lemma_known_with_nothing(known);
        }
        loop
            invariant
                filter.wf(),
                filter.opts() == self.filter.opts(),
                term == filter.opts().term,
                delim == term.spec_byte(),
                filter@ == known_with(known, seen),
                seen == done.map_values(|piece: Seq<u8>| term.record_of(piece)),
                out@ == start + render(survivors_after(known, seen, false), delim),
                count == survivors_after(known, seen, false).len(),
                count <= done.len(),
                done.len() + rest@.len() <= whole@.len() == total,
                if at_end {
                    rest@.len() == 0 && pieces(whole@, delim) == done
                } else {
                    split(whole@, delim) == done + split(rest@, delim)
                },
            ensures
                pieces(whole@, delim) == done,
            decreases rest@.len(),
        {
            let rest_len: usize = rest.len();
            let read: &'a [u8] = match fastchr_with(lanes, delim, rest) {
                Some(u) => vstd::slice::slice_subrange(rest, 0, u + 1),
                None => rest,
            };
            let read_len: usize = read.len();
            let ghost piece: Seq<u8> = if read@.len() > 0 && read@.last() == delim {
                read@.drop_last()
            } else {
                read@
            };
            let ghost whole_rest: Seq<u8> = rest@;
            let step: StreamStep = filter.step(vstd::slice::slice_to_vec(read));
            if read_len == 0 {
                proof {
                    if !at_end {
                        lemma_last_piece(whole@, delim, done, rest@);
                    }
                }
                break ;
            }
            proof {
                let record = read_record(read@, term);
                lemma_survivors_push(known, seen, record, false);
                lemma_render_push(survivors_after(known, seen, false), record, delim);
                lemma_records_push(term, done, piece);
            }
            match step {
                StreamStep::Write(bytes) => {
                    out.extend_from_slice(bytes.as_slice());
                    proof {
                        assert(out@ =~= start + render(survivors_after(known, seen, false), delim)
                            + read_record(read@, term) + seq![delim]);
                    }
                    count = count + 1;
                },
                _ => {},
            }
            rest = vstd::slice::slice_subrange(rest, read_len, rest_len);
            proof {
                if read_len == rest_len && read@.last() != delim {
                    lemma_last_piece(whole@, delim, done, whole_rest);
                    at_end = true;
                } else {
                    let u = read_len - 1;
                    assert(whole_rest.subrange(0, u as int) =~= piece);
                    lemma_take_piece(whole@, delim, done, whole_rest, u as int);
                }
                done = done.push(piece);
                seen = seen.push(read_record(read@, term));
            }
        }
        proof {
            crate::buffer::lemma_pieces_fit(whole@, delim);
        }
        Ok(count)
    }
}

} // verus!
