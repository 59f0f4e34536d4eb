//! Deduplication of a buffer: in one sweep over all its records, or chunk
//! by chunk, as workers would share it.

use crate::config::Options;
use crate::config::Terminator;
use crate::error::DedupError;
use crate::fastchr::fastchr_with;
use crate::fastchr::lemma_split_nonempty;
use crate::fastchr::split;
use crate::fastchr::Fastchr;
use crate::fastchr::FastchrSplit;
use crate::fastchr::Lanes;
use crate::gumshoe::GumSet;
use crate::lumpy_chunks::concat;
use crate::lumpy_chunks::contents;
use crate::lumpy_chunks::is_cut;
use crate::lumpy_chunks::is_next_cut;
use crate::lumpy_chunks::finder_reports;
use crate::lumpy_chunks::LumpyChunksIter;
use crate::output::keeps_records_whole;
use crate::output::lemma_concat_push;
use crate::output::lemma_keeps_whole_on;
use crate::output::lemma_unit_keeps_whole;
use crate::output::payload_views;
use crate::output::TetheredBufWriter;
use crate::records::deduped_after;
use crate::records::emit;
use crate::records::known_with;
use crate::records::lemma_known_with_nothing;
use crate::records::lemma_last_piece;
use crate::records::lemma_records_push;
use crate::records::lemma_records_concat;
use crate::records::lemma_render_concat;
use crate::records::lemma_render_push;
use crate::records::lemma_survivors_concat;
use crate::records::lemma_survivors_push;
use crate::records::lemma_take_piece;
use crate::records::pieces;
use crate::records::all_records;
use crate::records::lemma_split_fits;
use crate::records::records;
use crate::records::swept_after;
use crate::records::render;
use crate::records::screen;
use crate::records::survivors_after;
use vstd::prelude::*;

verus! {

/// Rough size of the chunks that workers take: 128 MiB.
pub const WORK_CHUNK_SIZE: usize = 134217728;

/// The records of a chunk that survive when the records of `known` have
/// been seen already.
pub open spec fn chunk_survivors(
    known: Set<Seq<u8>>,
    chunk: Seq<u8>,
    opts: Options,
) -> Seq<Seq<u8>> {
    survivors_after(known, records(chunk, opts.term), opts.repeated)
}

/// What a writer holds after the records `seen`, if it held `base` before
/// them: `base` and what is written for the survivors, or, when only a
/// count is asked for, `base` alone.
pub open spec fn written_for(
    base: Seq<u8>,
    known: Set<Seq<u8>>,
    seen: Seq<Seq<u8>>,
    opts: Options,
) -> Seq<u8> {
    if opts.line_count {
        base
    } else {
        base + render(survivors_after(known, seen, opts.repeated), opts.term.spec_byte())
    }
}

/// Takes one record: looks it up, remembers it, and hands it to the writer
/// if it survives and records are to be written. Says whether it survives.
fn take_record<'a>(
    set: &mut GumSet<'a>,
    record: &'a [u8],
    opts: &Options,
    writer: &mut TetheredBufWriter,
    Ghost(base): Ghost<Seq<u8>>,
    Ghost(known): Ghost<Set<Seq<u8>>>,
    Ghost(seen): Ghost<Seq<Seq<u8>>>,
) -> (keep: bool)
    requires
        old(set).wf(),
        old(writer).wf(),
        old(set)@ == known_with(known, seen),
        old(writer).pending() == written_for(base, known, seen, *opts),
    ensures
        final(set).wf(),
        final(writer).wf(),
        final(writer).capacity() == old(writer).capacity(),
        final(set)@ == known_with(known, seen.push(record@)),
        final(writer).pending() == written_for(base, known, seen.push(record@), *opts),
        if keep && !opts.line_count {
            &&& final(writer).written() == old(writer).written_after(
                record@ + seq![opts.term.spec_byte()],
            )
            &&& final(writer).staged() == old(writer).staged_after(
                record@ + seq![opts.term.spec_byte()],
            )
        } else {
            &&& final(writer).written() == old(writer).written()
            &&& final(writer).staged() == old(writer).staged()
        },
        keeps_records_whole(
            old(writer).written(),
            old(writer).staged(),
            final(writer).written(),
            final(writer).staged(),
            opts.term.spec_byte(),
        ),
        survivors_after(known, seen.push(record@), opts.repeated).len() == survivors_after(
            known,
            seen,
            opts.repeated,
        ).len() + if keep {
            1int
        } else {
            0int
        },
{
    let keep: bool = screen(set, record, opts.repeated);
    proof {
        lemma_survivors_push(known, seen, record@, opts.repeated);
        lemma_render_push(
            survivors_after(known, seen, opts.repeated),
            record@,
            opts.term.spec_byte(),
        );
    }
    if keep && !opts.line_count {
        proof {
            lemma_unit_keeps_whole(
                writer,
                record@ + seq![opts.term.spec_byte()],
                opts.term.spec_byte(),
            );
        }
        writer.write_record(record, opts.term.byte());
    } else {
        proof {
            assert(writer.written().subrange(0, writer.written().len() as int)
                =~= writer.written());
        }
    }
    keep
}

/// Works through one chunk: every record that survives is handed to
/// `writer` with the terminator byte behind it, in the order of the chunk;
/// when only a count is asked for, nothing is written. A record and its
/// terminator go to the writer as one unit, so payloads, and what is
/// staged, end where a record ends and hold whole records only. Returns
/// the number of surviving records.
pub fn dedup_chunk<'a>(
    set: &mut GumSet<'a>,
    chunk: &'a [u8],
    opts: &Options,
    writer: &mut TetheredBufWriter,
) -> (count: u64)
    requires
        old(set).wf(),
        old(writer).wf(),
    ensures
        final(set).wf(),
        final(set)@ == known_with(old(set)@, records(chunk@, opts.term)),
        final(writer).wf(),
        final(writer).capacity() == old(writer).capacity(),
        count == chunk_survivors(old(set)@, chunk@, *opts).len(),
        final(writer).pending() == written_for(
            old(writer).pending(),
            old(set)@,
            records(chunk@, opts.term),
            *opts,
        ),
        keeps_records_whole(
            old(writer).written(),
            old(writer).staged(),
            final(writer).written(),
            final(writer).staged(),
            opts.term.spec_byte(),
        ),
{
    let term: Terminator = opts.term;
    let delim: u8 = term.byte();
    let len: usize = chunk.len();
    let mut positions: Fastchr<'a> = Fastchr::with_lanes(opts.lanes, delim, chunk);
    let mut start: usize = 0;
    let mut count: u64 = 0;
    let ghost known: Set<Seq<u8>> = set@;
    let ghost base: Seq<u8> = writer.pending();
    let ghost written: Seq<Seq<u8>> = writer.written();
    let ghost staged: Seq<u8> = writer.staged();
    let ghost mut done: Seq<Seq<u8>> = Seq::empty();
    let ghost mut seen: Seq<Seq<u8>> = Seq::empty();
    proof {
        assert(chunk@.subrange(0, len as int) =~= chunk@);
        assert(written.subrange(0, written.len() as int) =~= written);
        lemma_known_with_nothing(known);
        positions.lemma_cursor_in_bounds();
    }
    loop
        invariant_except_break
            positions.wf(),
            positions.needle() == delim,
            positions.haystack() == chunk@,
            start <= positions.cursor() <= len,
            forall|j: int| start <= j < positions.cursor() ==> chunk@[j] != delim,
        invariant
            set.wf(),
            writer.wf(),
            writer.capacity() == old(writer).capacity(),
            delim == term.spec_byte(),
            term == opts.term,
            len == chunk@.len(),
            start <= len,
            split(chunk@, delim) == done + split(chunk@.subrange(start as int, len as int), delim),
            seen == done.map_values(|p: Seq<u8>| term.record_of(p)),
            set@ == known_with(known, seen),
            count == survivors_after(known, seen, opts.repeated).len(),
            count <= done.len() <= start,
            writer.pending() == written_for(base, known, seen, *opts),
            keeps_records_whole(written, staged, writer.written(), writer.staged(), delim),
        ensures
            forall|j: int| start <= j < len ==> chunk@[j] != delim,
        decreases len - positions.cursor(),
    {
        match positions.next() {
            Some(end) => {
                let piece: &'a [u8] = vstd::slice::slice_subrange(chunk, start, end);
                let record: &'a [u8] = term.trim(piece);
                let ghost then_written: Seq<Seq<u8>> = writer.written();
                let ghost then_staged: Seq<u8> = writer.staged();
                let keep: bool = take_record(
                    set,
                    record,
                    opts,
                    writer,
                    Ghost(base),
                    Ghost(known),
                    Ghost(seen),
                );
                proof {
                    lemma_keeps_whole_on(
                        written,
                        staged,
                        then_written,
                        then_staged,
                        writer.written(),
                        writer.staged(),
                        delim,
                    );
                    let rest = chunk@.subrange(start as int, len as int);
                    assert(rest.subrange(0, end - start) =~= piece@);
                    assert(rest.subrange(end - start + 1, rest.len() as int) =~= chunk@.subrange(
                        end + 1,
                        len as int,
                    ));
                    lemma_take_piece(chunk@, delim, done, rest, end - start);
                    lemma_records_push(term, done, piece@);
                    done = done.push(piece@);
                    seen = seen.push(record@);
                }
                if keep {
                    count = count + 1;
                }
                start = end + 1;
            },
            None => {
                break ;
            },
        }
    }
    proof {
        lemma_last_piece(chunk@, delim, done, chunk@.subrange(start as int, len as int));
    }
    if start < len {
        let piece: &'a [u8] = vstd::slice::slice_subrange(chunk, start, len);
        let record: &'a [u8] = term.trim(piece);
        let ghost then_written: Seq<Seq<u8>> = writer.written();
        let ghost then_staged: Seq<u8> = writer.staged();
        let keep: bool = take_record(
            set,
            record,
            opts,
            writer,
            Ghost(base),
            Ghost(known),
            Ghost(seen),
        );
        proof {
            lemma_keeps_whole_on(
                written,
                staged,
                then_written,
                then_staged,
                writer.written(),
                writer.staged(),
                delim,
            );
            lemma_records_push(term, done, piece@);
        }
        if keep {
            count = count + 1;
        }
    }
    count
}

/// `found` says where `tail` may be cut: right behind its first terminator
/// byte, or nowhere if it has none.
pub open spec fn is_break_report(tail: Seq<u8>, delim: u8, found: Option<usize>) -> bool {
    match found {
        Some(u) => {
            &&& 0 < u <= tail.len()
            &&& tail[u - 1] == delim
            &&& forall|j: int| 0 <= j < u - 1 ==> tail[j] != delim
        },
        None => forall|j: int| 0 <= j < tail.len() ==> tail[j] != delim,
    }
}

/// `chunk` has more than `rough_size` bytes and ends with the first
/// terminator byte that lies at index `rough_size` or behind it.
pub open spec fn ends_at_first_break(chunk: Seq<u8>, delim: u8, rough_size: usize) -> bool {
    &&& chunk.len() > rough_size
    &&& chunk.last() == delim
    &&& forall|j: int| rough_size <= j < chunk.len() - 1 ==> chunk[j] != delim
}

/// `chunk` is what was left when no further chunk could be cut: it has no
/// more than `rough_size` bytes, or no terminator byte from index
/// `rough_size` on but, at most, at its very end.
pub open spec fn is_last_chunk(chunk: Seq<u8>, delim: u8, rough_size: usize) -> bool {
    ||| chunk.len() <= rough_size
    ||| forall|j: int| rough_size <= j < chunk.len() ==> chunk[j] != delim
    ||| ends_at_first_break(chunk, delim, rough_size)
}

/// Cuts `buffer` into chunks for workers. As long as more than
/// `rough_size` bytes are left and a terminator byte lies at index
/// `rough_size` of what is left or behind it, a chunk is cut off behind
/// the first such byte; what is left then is the last chunk. So every chunk but the last ends with the
/// terminator byte, and no record lies across two chunks.
pub fn work_chunks<'a>(buffer: &'a [u8], delim: u8, rough_size: usize, lanes: Lanes) -> (chunks:
    Vec<&'a [u8]>)
    ensures
        concat(contents(chunks@)) == buffer@,
        forall|k: int| 0 <= k < chunks@.len() ==> (#[trigger] chunks@[k])@.len() > 0,
        forall|k: int|
            0 <= k < chunks@.len() - 1 ==> ends_at_first_break(
                (#[trigger] chunks@[k])@,
                delim,
                rough_size,
            ),
        chunks@.len() > 0 ==> is_last_chunk(chunks@.last()@, delim, rough_size),
{
    let finder = |tail: &[u8]| -> (r: Option<usize>)
        ensures
            is_break_report(tail@, delim, r),
        {
            proof {
                vstd::slice::axiom_spec_len(tail);
            }
            match fastchr_with(lanes, delim, tail) {
                Some(i) => Some(i + 1),
                None => None,
            }
        };
    let mut cursor = LumpyChunksIter::new(buffer, rough_size, finder);
    let mut chunks: Vec<&'a [u8]> = Vec::new();
    loop
        invariant_except_break
            cursor.finder_in_bounds(),
            cursor.rough_size() == rough_size,
            cursor.break_point_finder() == finder,
            forall|tail: &[u8], found: Option<usize>| #[trigger]
                call_ensures(finder, (tail,), found) ==> is_break_report(tail@, delim, found),
            concat(contents(chunks@)) + cursor.remainder() == buffer@,
            forall|k: int| 0 <= k < chunks@.len() ==> (#[trigger] chunks@[k])@.len() > 0,
            forall|k: int|
                0 <= k < chunks@.len() - 1 ==> ends_at_first_break(
                    (#[trigger] chunks@[k])@,
                    delim,
                    rough_size,
                ),
            chunks@.len() > 0 ==> ends_at_first_break(chunks@.last()@, delim, rough_size) || (
            cursor.remainder().len() == 0 && is_last_chunk(chunks@.last()@, delim, rough_size)),
        ensures
            concat(contents(chunks@)) == buffer@,
            forall|k: int| 0 <= k < chunks@.len() ==> (#[trigger] chunks@[k])@.len() > 0,
            forall|k: int|
                0 <= k < chunks@.len() - 1 ==> ends_at_first_break(
                    (#[trigger] chunks@[k])@,
                    delim,
                    rough_size,
                ),
            chunks@.len() > 0 ==> is_last_chunk(chunks@.last()@, delim, rough_size),
        decreases cursor.remainder().len(),
    {
        let ghost before: Seq<&[u8]> = chunks@;
        let ghost left: Seq<u8> = cursor.remainder();
        match cursor.next() {
            Some(chunk) => {
                chunks.push(chunk);
                proof {
                    assert(contents(chunks@) =~= contents(before).push(chunk@));
                    lemma_concat_push(contents(before), chunk@);
                    assert((concat(contents(before)) + chunk@) + cursor.remainder() =~= concat(
                        contents(before),
                    ) + (chunk@ + cursor.remainder()));
                    lemma_cut_at_break(finder, rough_size, delim, left, chunk@, cursor.remainder());
                }
            },
            None => {
                assert(concat(contents(chunks@)) + cursor.remainder() =~= concat(
                    contents(chunks@),
                ));
                break ;
            },
        }
    }
    chunks
}

/// A chunk cut with a finder that reports the place behind the first
/// terminator byte ends at the first such byte behind its lead, or is the
/// last chunk.
proof fn lemma_cut_at_break<P: Fn(&[u8]) -> Option<usize>>(
    finder: P,
    rough_size: usize,
    delim: u8,
    before: Seq<u8>,
    chunk: Seq<u8>,
    after: Seq<u8>,
)
    requires
        is_next_cut(finder, rough_size, before, chunk, after),
        forall|tail: &[u8], found: Option<usize>| #[trigger]
            call_ensures(finder, (tail,), found) ==> is_break_report(tail@, delim, found),
    ensures
        ends_at_first_break(chunk, delim, rough_size) || (after.len() == 0 && is_last_chunk(
            chunk,
            delim,
            rough_size,
        )),
{
    if before.len() > rough_size {
        let found = choose|found: Option<usize>|
            {
                &&& #[trigger] finder_reports(finder, before, rough_size as int, found)
                &&& if rough_size == 0 && found == Some(0usize) {
                    exists|again: Option<usize>|
                        {
                            &&& #[trigger] finder_reports(finder, before, 1, again)
                            &&& is_cut(before, 1, again, chunk, after)
                        }
                } else {
                    is_cut(before, rough_size as int, found, chunk, after)
                }
            };
        let tail = choose|tail: &[u8]|
            tail@ == before.subrange(rough_size as int, before.len() as int)
                && #[trigger] call_ensures(finder, (tail,), found);
        assert(is_break_report(tail@, delim, found));
        match found {
            Some(u) => {
                assert(chunk.last() == tail@[u - 1]);
                assert forall|j: int| rough_size <= j < chunk.len() - 1 implies chunk[j]
                    != delim by {
                    assert(chunk[j] == tail@[j - rough_size]);
                }
            },
            None => {
                assert forall|j: int| rough_size <= j < chunk.len() implies chunk[j]
                    != delim by {
                    assert(chunk[j] == tail@[j - rough_size]);
                }
            },
        }
    }
}

/// A dedup run over a buffer that writes to a byte vector.
pub struct BufferDeduper<'a> {
    /// The input.
    pub buffer: &'a [u8],
    /// The options of the run.
    pub opts: Options,
    /// Where the output goes: behind what is already there.
    pub out: &'a mut Vec<u8>,
    /// The records seen so far.
    pub dup_store: GumSet<'a>,
}

/// What a run chunk by chunk leaves in its sink and what it returns, when
/// it started with the records of `known` seen already: with a count asked for, the
/// sink as it was and the number of survivors; else the sink with the
/// output behind what it held, and no number.
pub open spec fn run_result(
    known: Set<Seq<u8>>,
    buffer: Seq<u8>,
    opts: Options,
    before: Seq<u8>,
    after: Seq<u8>,
    r: Result<Option<u64>, DedupError>,
) -> bool {
    let kept = survivors_after(known, records(buffer, opts.term), opts.repeated);
    if opts.line_count {
        after == before && r == Ok::<Option<u64>, DedupError>(Some(kept.len() as u64))
    } else {
        after == before + deduped_after(known, buffer, opts.term, opts.repeated) && r == Ok::<
            Option<u64>,
            DedupError,
        >(None)
    }
}

/// What a sweep leaves in its sink and what it returns, when it started
/// with the records of `known` seen already: with a count asked for, the
/// sink as it was and the number of records that the sweep keeps; else the
/// sink with these records behind what it held, each with the terminator
/// byte behind it, and no number.
pub open spec fn sweep_result(
    known: Set<Seq<u8>>,
    buffer: Seq<u8>,
    opts: Options,
    before: Seq<u8>,
    after: Seq<u8>,
    r: Result<Option<u64>, DedupError>,
) -> bool {
    let kept = swept_after(known, buffer, opts.term, opts.repeated);
    if opts.line_count {
        after == before && r == Ok::<Option<u64>, DedupError>(Some(kept.len() as u64))
    } else {
        after == before + render(kept, opts.term.spec_byte()) && r == Ok::<
            Option<u64>,
            DedupError,
        >(None)
    }
}

impl<'a> BufferDeduper<'a> {
    /// A run over `buffer` with the options `opts`.
    pub fn new(buffer: &'a [u8], output: &'a mut Vec<u8>, opts: Options) -> (r: BufferDeduper<'a>)
        ensures
            r.buffer == buffer,
            r.opts == opts,
            r.dup_store.wf(),
            r.dup_store@ == Set::<Seq<u8>>::empty(),
            *r.out == *old(output),
            *final(r.out) == *final(output),
    {
        BufferDeduper { buffer, out: output, dup_store: GumSet::new(), opts }
    }

    /// The records of the buffer that pass the filter, in the order of the
    /// input: the buffer is split at every terminator, and each piece, the
    /// one behind the last terminator too, is kept or dropped by what the
    /// set of records says of its record.
    pub fn survivors(
        buffer: &'a [u8],
        opts: &Options,
        dup_store: &mut GumSet<'a>,
    ) -> (output: Vec<&'a [u8]>)
        requires
            old(dup_store).wf(),
        ensures
            final(dup_store).wf(),
            final(dup_store)@ == known_with(old(dup_store)@, all_records(buffer@, opts.term)),
            contents(output@) == survivors_after(
                old(dup_store)@,
                all_records(buffer@, opts.term),
                opts.repeated,
            ),
            output@.len() <= buffer@.len() + 1,
    {
        let term: Terminator = opts.term;
        let delim: u8 = term.byte();
        let found: Vec<&'a [u8]> = FastchrSplit::with_lanes(opts.lanes, delim, buffer).collect();
        let total: usize = found.len();
        let ghost known: Set<Seq<u8>> = dup_store@;
        let ghost all: Seq<Seq<u8>> = all_records(buffer@, term);
        let mut output: Vec<&'a [u8]> = Vec::new();
        let mut k: usize = 0;
        proof {
            lemma_split_fits(buffer@, delim);
            lemma_known_with_nothing(known);
            assert(all.subrange(0, 0) =~= Seq::<Seq<u8>>::empty());
        }
        while k < total
            invariant
                dup_store.wf(),
                k <= total == found@.len(),
                total == all.len(),
                total <= buffer@.len() + 1,
                term == opts.term,
                forall|i: int|
                    0 <= i < total ==> all[i] == term.record_of((#[trigger] found@[i])@),
                dup_store@ == known_with(known, all.subrange(0, k as int)),
                contents(output@) == survivors_after(
                    known,
                    all.subrange(0, k as int),
                    opts.repeated,
                ),
                output@.len() <= k,
            decreases total - k,
        {
            let record: &'a [u8] = term.trim(found[k]);
            let keep: bool = screen(dup_store, record, opts.repeated);
            let ghost kept: Seq<&[u8]> = output@;
            if keep {
                output.push(record);
            }
            proof {
                let seen = all.subrange(0, k as int);
                assert(all.subrange(0, k + 1) =~= seen.push(record@));
                lemma_survivors_push(known, seen, record@, opts.repeated);
                if keep {
                    assert(contents(output@) =~= contents(kept).push(record@));
                }
            }
            k += 1;
        }
        proof {
            assert(all.subrange(0, total as int) =~= all);
        }
        output
    }

    /// Sweeps the buffer: every piece between terminators is filtered, the
    /// piece behind the last terminator too, and a last survivor that is
    /// empty is then dropped. What is left is written, each record with the
    /// terminator byte behind it, in the order of the input; or, when a
    /// count is asked for, counted, and nothing is written. Records that
    /// the set of records holds at the start count as seen.
    ///
    /// So a buffer of one terminator byte gives no output and a count of 0.
    pub fn run(self) -> (r: Result<Option<u64>, DedupError>)
        requires
            self.dup_store.wf(),
        ensures
            sweep_result(
                self.dup_store@,
                self.buffer@,
                self.opts,
                old(self.out)@,
                final(self.out)@,
                r,
            ),
    {
        let opts: Options = self.opts;
        let delim: u8 = opts.term.byte();
        let out: &'a mut Vec<u8> = self.out;
        let mut dup_store: GumSet<'a> = self.dup_store;
        let output: Vec<&'a [u8]> = BufferDeduper::survivors(self.buffer, &opts, &mut dup_store);
        let mut len: usize = output.len();
        if len > 0 && output[len - 1].len() == 0 {
            len = len - 1;
        }
        let ghost kept: Seq<Seq<u8>> = swept_after(
            self.dup_store@,
            self.buffer@,
            opts.term,
            opts.repeated,
        );
        proof {
            assert(kept =~= contents(output@).subrange(0, len as int));
        }
        if !opts.line_count {
            let ghost start: Seq<u8> = out@;
            let mut i: usize = 0;
            proof {
                assert(kept.subrange(0, 0) =~= Seq::<Seq<u8>>::empty());
                assert(out@ =~= start + render(kept.subrange(0, 0), delim));
            }
            while i < len
                invariant
                    i <= len <= output@.len(),
                    kept == contents(output@).subrange(0, len as int),
                    out@ == start + render(kept.subrange(0, i as int), delim),
                decreases len - i,
            {
                emit(out, output[i], delim);
                proof {
                    assert(kept.subrange(0, i + 1) =~= kept.subrange(0, i as int).push(
                        output@[i as int]@,
                    ));
                    lemma_render_push(kept.subrange(0, i as int), output@[i as int]@, delim);
                }
                i += 1;
            }
            proof {
                assert(kept.subrange(0, len as int) =~= kept);
            }
            Ok(None)
        } else {
            Ok(Some(len as u64))
        }
    }

    /// Dedups the buffer chunk by chunk: the buffer is cut into chunks of
    /// `WORK_CHUNK_SIZE` bytes or more, one worker takes the chunks in the
    /// order of the input and stages what it writes, and the payloads go to
    /// the sink in the order in which they were made.
    ///
    /// A worker writes a record when it has seen it, so here no survivor is
    /// held back or dropped: every terminated record counts, an empty one
    /// too, and only an empty piece behind the last terminator stands for
    /// no record. A buffer of one terminator byte gives that byte as
    /// output and a count of 1, where `run` gives nothing and 0.
    pub fn run_chunked(self) -> (r: Result<Option<u64>, DedupError>)
        requires
            self.dup_store.wf(),
        ensures
            run_result(
                self.dup_store@,
                self.buffer@,
                self.opts,
                old(self.out)@,
                final(self.out)@,
                r,
            ),
    {
        self.run_with_chunks_of(WORK_CHUNK_SIZE)
    }

    /// Does what `run_chunked` does, with chunks of `rough_size` bytes or
    /// more. How the buffer is cut does not show in the result.
    pub fn run_with_chunks_of(self, rough_size: usize) -> (r: Result<Option<u64>, DedupError>)
        requires
            self.dup_store.wf(),
        ensures
            run_result(
                self.dup_store@,
                self.buffer@,
                self.opts,
                old(self.out)@,
                final(self.out)@,
                r,
            ),
    {
        let opts: Options = self.opts;
        let delim: u8 = opts.term.byte();
        let buffer: &'a [u8] = self.buffer;
        let out: &'a mut Vec<u8> = self.out;
        let mut dup_store: GumSet<'a> = self.dup_store;
        let buffer_len: usize = buffer.len();
        let chunks: Vec<&'a [u8]> = work_chunks(buffer, delim, rough_size, opts.lanes);
        let mut writer: TetheredBufWriter = TetheredBufWriter::new();
        let mut total: u64 = 0;
        let mut k: usize = 0;
        let ghost known: Set<Seq<u8>> = dup_store@;
        let ghost base: Seq<u8> = writer.pending();
        proof {
            lemma_known_with_nothing(known);
            lemma_pieces_fit(Seq::<u8>::empty(), delim);
        }
        while k < chunks.len()
            invariant
                dup_store.wf(),
                writer.wf(),
                k <= chunks@.len(),
                buffer@.len() == buffer_len,
                concat(contents(chunks@)) == buffer@,
                forall|j: int|
                    0 <= j < chunks@.len() - 1 ==> (#[trigger] chunks@[j])@.len() > 0
                        && chunks@[j]@.last() == delim,
                delim == opts.term.spec_byte(),
                ({
                    let head = concat(contents(chunks@).subrange(0, k as int));
                    let seen = records(head, opts.term);
                    &&& head.len() <= buffer@.len()
                    &&& k < chunks@.len() ==> head.len() == 0 || head.last() == delim
                    &&& dup_store@ == known_with(known, seen)
                    &&& total == survivors_after(known, seen, opts.repeated).len()
                    &&& total <= head.len()
                    &&& writer.pending() == written_for(base, known, seen, opts)
                }),
            decreases chunks@.len() - k,
        {
            let chunk: &'a [u8] = chunks[k];
            let ghost head: Seq<u8> = concat(contents(chunks@).subrange(0, k as int));
            let ghost seen: Seq<Seq<u8>> = records(head, opts.term);
            let count: u64 = dedup_chunk(&mut dup_store, chunk, &opts, &mut writer);
            proof {
                let more = records(chunk@, opts.term);
                assert(contents(chunks@).subrange(0, k + 1) =~= contents(chunks@).subrange(
                    0,
                    k as int,
                ).push(chunk@));
                lemma_concat_push(contents(chunks@).subrange(0, k as int), chunk@);
                lemma_records_concat(head, chunk@, opts.term);
                lemma_survivors_concat(known, seen, more, opts.repeated);
                lemma_render_concat(
                    survivors_after(known, seen, opts.repeated),
                    survivors_after(known_with(known, seen), more, opts.repeated),
                    delim,
                );
                lemma_pieces_fit(chunk@, delim);
                lemma_survivors_fit(known_with(known, seen), more, opts.repeated);
                lemma_prefix_fits(contents(chunks@), k + 1);
                assert(written_for(base, known, seen + more, opts) =~= written_for(
                    written_for(base, known, seen, opts),
                    known_with(known, seen),
                    more,
                    opts,
                ));
            }
            total = total + count;
            k += 1;
        }
        proof {
            assert(contents(chunks@).subrange(0, chunks@.len() as int) =~= contents(chunks@));
        }
        if !opts.line_count {
            let payloads: Vec<Vec<u8>> = writer.finish();
            let ghost start: Seq<u8> = out@;
            let mut i: usize = 0;
            while i < payloads.len()
                invariant
                    i <= payloads@.len(),
                    out@ == start + concat(payload_views(payloads@).subrange(0, i as int)),
                decreases payloads@.len() - i,
            {
                out.extend_from_slice(payloads[i].as_slice());
                proof {
                    let sent = payload_views(payloads@);
                    assert(sent.subrange(0, i + 1) =~= sent.subrange(0, i as int).push(
                        payloads@[i as int]@,
                    ));
                    lemma_concat_push(sent.subrange(0, i as int), payloads@[i as int]@);
                }
                i += 1;
            }
            proof {
                let sent = payload_views(payloads@);
                assert(sent.subrange(0, payloads@.len() as int) =~= sent);
            }
            Ok(None)
        } else {
            Ok(Some(total))
        }
    }
}

/// Input has no more records than bytes.
pub proof fn lemma_pieces_fit(input: Seq<u8>, byte: u8)
    ensures
        pieces(input, byte).len() <= input.len(),
    decreases input.len(),
{
    lemma_split_nonempty(input, byte);
    if exists|k: int| 0 <= k < input.len() && input[k] == byte {
        let k = choose|k: int| 0 <= k < input.len() && input[k] == byte;
        let i = crate::fastchr::lemma_first_occurrence(input, byte, k);
        let tail = input.subrange(i + 1, input.len() as int);
        crate::fastchr::lemma_split_at_first(input, byte, i);
        lemma_pieces_fit(tail, byte);
        lemma_split_nonempty(tail, byte);
    } else {
        crate::fastchr::lemma_split_whole(input, byte);
    }
}

/// No more records survive than there are.
pub proof fn lemma_survivors_fit(known: Set<Seq<u8>>, records: Seq<Seq<u8>>, repeated: bool)
    ensures
        survivors_after(known, records, repeated).len() <= records.len(),
    decreases records.len(),
{
    if records.len() > 0 {
        lemma_survivors_fit(known, records.drop_last(), repeated);
    }
}

/// The first `k` parts hold no more elements than all parts.
pub proof fn lemma_prefix_fits<T>(parts: Seq<Seq<T>>, k: int)
    requires
        0 <= k <= parts.len(),
    ensures
        concat(parts.subrange(0, k)).len() <= concat(parts).len(),
    decreases parts.len() - k,
{
    if k < parts.len() {
        lemma_prefix_fits(parts, k + 1);
        assert(parts.subrange(0, k + 1) =~= parts.subrange(0, k).push(parts[k]));
        lemma_concat_push(parts.subrange(0, k), parts[k]);
    } else {
        assert(parts.subrange(0, k) =~= parts);
    }
}

} // verus!
