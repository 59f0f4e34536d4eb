//! Deduplication of a buffer in one pass, record after record.

use crate::config::Options;
use crate::config::LINE_FEED;
use crate::error::DedupError;
use crate::gumshoe::GumSet;
use crate::records::screen;
use crate::records::deduped_after;
use crate::records::emit;
use crate::records::known_with;
use crate::records::lemma_known_with_nothing;
use crate::records::lemma_render_push;
use crate::records::lemma_survivors_push;
use crate::records::records;
use crate::records::survivors_after;
use crate::records::render;
use crate::fastchr::split;
use crate::fastchr::lemma_split_at_first;
use crate::fastchr::lemma_split_whole;
use vstd::prelude::*;

verus! {

/// A dedup run over a buffer that writes to a byte vector.
pub struct UnsortedBufferDeduper<'a> {
    /// The input.
    pub buffer: &'a [u8],
    /// The options of the run. Of these, the run looks at the terminator.
    pub opts: Options,
    /// Where the output goes: behind what is already there.
    pub out_stream: &'a mut Vec<u8>,
    /// The records seen so far.
    pub dup_store: GumSet<'a>,
}

impl<'a> UnsortedBufferDeduper<'a> {
    /// A run over `buffer` with the default options.
    pub fn new(buffer: &'a [u8], out_stream: &'a mut Vec<u8>) -> (r: UnsortedBufferDeduper<'a>)
        ensures
            r.buffer == buffer,
            r.opts == Options::plain(LINE_FEED),
            r.dup_store.wf(),
            r.dup_store@ == Set::<Seq<u8>>::empty(),
            *r.out_stream == *old(out_stream),
            *final(r.out_stream) == *final(out_stream),
    {
        UnsortedBufferDeduper {
            buffer,
            out_stream,
            dup_store: GumSet::new(),
            opts: Options::default(),
        }
    }

    /// Writes each record of the buffer the first time it occurs, with the
    /// terminator byte behind it; a last record that the input does not
    /// terminate is written like the others. Records that the set of
    /// records holds at the start count as seen. Returns the number of
    /// records in the buffer.
    pub fn run(self) -> (r: Result<u64, DedupError>)
        requires
            self.dup_store.wf(),
        ensures
            r == Ok::<u64, DedupError>(records(self.buffer@, self.opts.term).len() as u64),
            records(self.buffer@, self.opts.term).len() <= self.buffer@.len(),
            final(self.out_stream)@ == old(self.out_stream)@ + deduped_after(
                self.dup_store@,
                self.buffer@,
                self.opts.term,
                false,
            ),
    {
        let term = self.opts.term;
        let delim: u8 = term.byte();
        let whole: &'a [u8] = self.buffer;
        let out: &'a mut Vec<u8> = self.out_stream;
        let mut dup_store: GumSet<'a> = self.dup_store;
        let total: usize = whole.len();
        let mut rest: &'a [u8] = whole;
        let mut count: u64 = 0;
        let ghost start: Seq<u8> = out@;
        let ghost known: Set<Seq<u8>> = dup_store@;
        let ghost mut done: Seq<Seq<u8>> = Seq::empty();
        let ghost mut seen: Seq<Seq<u8>> = Seq::empty();
        proof {
            lemma_known_with_nothing(known);
        }
        loop
            invariant_except_break
                dup_store.wf(),
                dup_store@ == known_with(known, seen),
            invariant
                delim == term.spec_byte(),
                split(whole@, delim) == done + split(rest@, delim),
                seen == done.map_values(|piece: Seq<u8>| term.record_of(piece)),
                out@ == start + render(survivors_after(known, seen, false), delim),
                count == done.len(),
                count + rest@.len() <= whole@.len() == total,
            ensures
                dup_store.wf(),
                dup_store@ == known_with(known, seen),
                forall|j: int| 0 <= j < rest@.len() ==> rest@[j] != delim,
            decreases rest@.len(),
        {
            let rest_len: usize = rest.len();
            match memchr::memchr(delim, rest) {
                Some(u) => {
                    let piece: &'a [u8] = vstd::slice::slice_subrange(rest, 0, u);
                    let ele: &'a [u8] = term.trim(piece);
                    let keep: bool = screen(&mut dup_store, ele, false);
                    if keep {
                        emit(out, ele, delim);
                    }
                    proof {
                        lemma_survivors_push(known, seen, ele@, false);
                        lemma_split_at_first(rest@, delim, u as int);
                        lemma_render_push(survivors_after(known, seen, false), ele@, delim);
                        let after = rest@.subrange(u + 1, rest@.len() as int);
                        assert(done.push(piece@) + split(after, delim) =~= done + (seq![piece@]
                            + split(after, delim)));
                        assert(seen.push(ele@) =~= done.push(piece@).map_values(
                            |piece: Seq<u8>| term.record_of(piece),
                        ));
                        done = done.push(piece@);
                        seen = seen.push(ele@);
                    }
                    rest = vstd::slice::slice_subrange(rest, u + 1, rest_len);
                    count = count + 1;
                },
                None => {
                    break ;
                },
            }
        }
        proof {
            lemma_split_whole(rest@, delim);
            assert(split(whole@, delim) =~= done.push(rest@));
        }
        if rest.len() > 0 {
            let ele: &'a [u8] = term.trim(rest);
            let keep: bool = screen(&mut dup_store, ele, false);
            if keep {
                emit(out, ele, delim);
            }
            proof {
                lemma_survivors_push(known, seen, ele@, false);
                lemma_render_push(survivors_after(known, seen, false), ele@, delim);
                assert(seen.push(ele@) =~= done.push(rest@).map_values(
                    |piece: Seq<u8>| term.record_of(piece),
                ));
            }
            count = count + 1;
        } else {
            proof {
                assert(done.push(rest@).drop_last() =~= done);
            }
        }
        Ok(count)
    }
}

} // verus!
