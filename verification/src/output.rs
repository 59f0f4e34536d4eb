//! Staging of output on its way to a sink that several writers share.
//!
//! A writer collects small writes in a buffer and hands the sink one
//! payload at a time. The sink takes each payload in one piece, so the
//! bytes of two writers never mix inside a payload.

use crate::lumpy_chunks::concat;
use vstd::prelude::*;

verus! {

/// Default capacity of the staging buffer: 8 MiB.
pub const DEFAULT_BUF_SIZE: usize = 8388608;

/// What each vector of `payloads` holds.
pub open spec fn payload_views(payloads: Seq<Vec<u8>>) -> Seq<Seq<u8>> {
    Seq::new(payloads.len(), |k: int| payloads[k]@)
}

/// A staging buffer and the payloads that it has made ready for the sink.
pub struct TetheredBufWriter {
    buf: Vec<u8>,
    capacity: usize,
    outbox: Vec<Vec<u8>>,
}

impl TetheredBufWriter {
    /// The bytes that are staged.
    pub closed spec fn staged(&self) -> Seq<u8> {
        self.buf@
    }

    /// The size from which on a write goes past the buffer.
    pub closed spec fn capacity(&self) -> usize {
        self.capacity
    }

    /// The payloads that are ready for the sink, oldest first.
    pub closed spec fn written(&self) -> Seq<Seq<u8>> {
        payload_views(self.outbox@)
    }

    /// All bytes that the writer was given and has not handed over, in the
    /// order in which the sink will see them.
    pub open spec fn pending(&self) -> Seq<u8> {
        concat(self.written()) + self.staged()
    }

    /// Whether taking `unit` makes the staged bytes a payload first:
    /// `unit` does not fit behind them.
    pub open spec fn flushes_for(&self, unit: Seq<u8>) -> bool {
        self.staged().len() + unit.len() >= self.capacity()
    }

    /// The payloads that are ready once `unit` has been taken: the staged
    /// bytes, if there are any and `unit` does not fit behind them, become
    /// a payload, and `unit`, if it is as large as the buffer, becomes a
    /// payload of its own behind that.
    pub open spec fn written_after(&self, unit: Seq<u8>) -> Seq<Seq<u8>> {
        let sent = if self.flushes_for(unit) && self.staged().len() > 0 {
            self.written().push(self.staged())
        } else {
            self.written()
        };
        if unit.len() >= self.capacity() {
            sent.push(unit)
        } else {
            sent
        }
    }

    /// The bytes that are staged once `unit` has been taken: `unit` behind
    /// what was staged, or `unit` alone if it did not fit behind it, or
    /// nothing if `unit` is as large as the buffer.
    pub open spec fn staged_after(&self, unit: Seq<u8>) -> Seq<u8> {
        let flushed = if self.flushes_for(unit) {
            Seq::<u8>::empty()
        } else {
            self.staged()
        };
        if unit.len() >= self.capacity() {
            flushed
        } else {
            flushed + unit
        }
    }

    /// The staged bytes stay below the capacity.
    pub closed spec fn wf(&self) -> bool {
        self.buf@.len() == 0 || self.buf@.len() < self.capacity
    }

    /// A writer with a buffer of `DEFAULT_BUF_SIZE` bytes.
    pub fn new() -> (r: TetheredBufWriter)
        ensures
            r.wf(),
            r.capacity() == DEFAULT_BUF_SIZE,
            r.staged() == Seq::<u8>::empty(),
            r.written() == Seq::<Seq<u8>>::empty(),
    {
        TetheredBufWriter::with_capacity(DEFAULT_BUF_SIZE)
    }

    /// A writer with a buffer of `capacity` bytes.
    pub fn with_capacity(capacity: usize) -> (r: TetheredBufWriter)
        ensures
            r.wf(),
            r.capacity() == capacity,
            r.staged() == Seq::<u8>::empty(),
            r.written() == Seq::<Seq<u8>>::empty(),
    {
        let r = TetheredBufWriter {
            buf: Vec::with_capacity(capacity),
            capacity,
            outbox: Vec::new(),
        };
        r
    }

    /// Makes the staged bytes a payload, unless there are none.
    fn flush_buf(&mut self)
        ensures
            final(self).wf(),
            final(self).capacity() == old(self).capacity(),
            final(self).staged() == Seq::<u8>::empty(),
            final(self).written() == if old(self).staged().len() > 0 {
                old(self).written().push(old(self).staged())
            } else {
                old(self).written()
            },
            final(self).pending() == old(self).pending(),
    {
        if self.buf.len() > 0 {
            let mut payload: Vec<u8> = Vec::with_capacity(self.capacity);
            std::mem::swap(&mut payload, &mut self.buf);
            self.outbox.push(payload);
            proof {
                lemma_concat_push(old(self).written(), old(self).staged());
            }
        }
    }

    /// Makes `data` a payload of its own.
    fn send(&mut self, data: &[u8])
        ensures
            final(self).capacity() == old(self).capacity(),
            final(self).staged() == old(self).staged(),
            final(self).written() == old(self).written().push(data@),
    {
        let mut payload: Vec<u8> = Vec::with_capacity(data.len());
        payload.extend_from_slice(data);
        assert(payload@ =~= data@);
        self.outbox.push(payload);
    }

    /// Takes `data`. If it does not fit behind the staged bytes, these
    /// become a payload first. If it is as large as the buffer, it becomes
    /// a payload of its own; else it is staged. Returns the number of bytes
    /// taken, which is all of them.
    pub fn write(&mut self, data: &[u8]) -> (taken: usize)
        requires
            old(self).wf(),
        ensures
            final(self).wf(),
            final(self).capacity() == old(self).capacity(),
            taken == data@.len(),
            final(self).pending() == old(self).pending() + data@,
            final(self).written() == old(self).written_after(data@),
            final(self).staged() == old(self).staged_after(data@),
    {
        let room: usize = if self.buf.len() < self.capacity {
            self.capacity - self.buf.len()
        } else {
            0
        };
        if data.len() >= room {
            self.flush_buf();
        }
        if data.len() >= self.capacity {
            let ghost before: Seq<Seq<u8>> = self.written();
            self.send(data);
            proof {
                lemma_concat_push(before, data@);
            }
        } else {
            self.buf.extend_from_slice(data);
            proof {
                assert(self.staged() =~= (if old(self).staged().len() + data@.len() >= old(
                    self,
                ).capacity() {
                    Seq::<u8>::empty()
                } else {
                    old(self).staged()
                }) + data@);
            }
        }
        data.len()
    }

    /// Takes a record and the byte that ends it as one unit: the two are
    /// staged together or sent together, never apart.
    pub fn write_record(&mut self, record: &[u8], terminator: u8)
        requires
            old(self).wf(),
        ensures
            final(self).wf(),
            final(self).capacity() == old(self).capacity(),
            final(self).pending() == old(self).pending() + record@ + seq![terminator],
            final(self).written() == old(self).written_after(record@ + seq![terminator]),
            final(self).staged() == old(self).staged_after(record@ + seq![terminator]),
    {
        let room: usize = if self.buf.len() < self.capacity {
            self.capacity - self.buf.len()
        } else {
            0
        };
        let ghost unit: Seq<u8> = record@ + seq![terminator];
        if record.len() >= room || record.len() + 1 >= room {
            self.flush_buf();
        }
        if record.len() >= self.capacity || record.len() + 1 >= self.capacity {
            let ghost before: Seq<Seq<u8>> = self.written();
            let mut payload: Vec<u8> = Vec::with_capacity(record.len());
            payload.extend_from_slice(record);
            payload.push(terminator);
            assert(payload@ =~= unit);
            self.outbox.push(payload);
            proof {
                assert(self.written() =~= before.push(unit));
                lemma_concat_push(before, unit);
            }
        } else {
            self.buf.extend_from_slice(record);
            self.buf.push(terminator);
            proof {
                assert(self.staged() =~= (if old(self).staged().len() + unit.len() >= old(
                    self,
                ).capacity() {
                    Seq::<u8>::empty()
                } else {
                    old(self).staged()
                }) + unit);
            }
        }
    }

    /// Makes the staged bytes a payload, unless there are none.
    pub fn flush(&mut self)
        ensures
            final(self).wf(),
            final(self).capacity() == old(self).capacity(),
            final(self).staged() == Seq::<u8>::empty(),
            final(self).written() == if old(self).staged().len() > 0 {
                old(self).written().push(old(self).staged())
            } else {
                old(self).written()
            },
            final(self).pending() == old(self).pending(),
    {
        self.flush_buf();
    }

    /// Makes `data` a payload of its own, whatever its size, and leaves
    /// the staged bytes where they are: the sink gets `data` before them.
    pub fn write_all(&mut self, data: &[u8])
        ensures
            final(self).wf() == old(self).wf(),
            final(self).capacity() == old(self).capacity(),
            final(self).staged() == old(self).staged(),
            final(self).written() == old(self).written().push(data@),
    {
        self.send(data);
    }

    /// Hands over the payloads that are ready, oldest first. The staged
    /// bytes stay.
    pub fn take_writes(&mut self) -> (payloads: Vec<Vec<u8>>)
        ensures
            final(self).wf() == old(self).wf(),
            final(self).capacity() == old(self).capacity(),
            final(self).staged() == old(self).staged(),
            final(self).written() == Seq::<Seq<u8>>::empty(),
            payload_views(payloads@) == old(self).written(),
    {
        let mut payloads: Vec<Vec<u8>> = Vec::new();
        std::mem::swap(&mut payloads, &mut self.outbox);
        payloads
    }

    /// Ends the writer: the staged bytes become the last payload, and all
    /// payloads are handed over.
    pub fn finish(self) -> (payloads: Vec<Vec<u8>>)
        ensures
            concat(payload_views(payloads@)) == self.pending(),
            payload_views(payloads@) == if self.staged().len() > 0 {
                self.written().push(self.staged())
            } else {
                self.written()
            },
    {
        let mut writer: TetheredBufWriter = self;
        writer.flush_buf();
        writer.outbox
    }
}

/// `bytes` end where a record ends: they are empty or end with the
/// terminator byte. No record holds that byte, so bytes that are made of
/// records with their terminators, and end so, hold whole records only.
pub open spec fn ends_whole(bytes: Seq<u8>, byte: u8) -> bool {
    bytes.len() == 0 || bytes.last() == byte
}

/// A writer that had the payloads `written` ready and the bytes `staged`
/// staged has come to have `later_written` and `later_staged` without
/// parting a record: the payloads it had are the first it has, and if what
/// was staged ended where a record ends, so does every payload made since,
/// and so does what is staged now.
pub open spec fn keeps_records_whole(
    written: Seq<Seq<u8>>,
    staged: Seq<u8>,
    later_written: Seq<Seq<u8>>,
    later_staged: Seq<u8>,
    byte: u8,
) -> bool {
    &&& written.len() <= later_written.len()
    &&& later_written.subrange(0, written.len() as int) == written
    &&& ends_whole(staged, byte) ==> {
        &&& ends_whole(later_staged, byte)
        &&& forall|k: int|
            written.len() <= k < later_written.len() ==> ends_whole(
                #[trigger] later_written[k],
                byte,
            )
    }
}

/// A writer that takes a unit which ends with the terminator byte parts
/// no record.
pub proof fn lemma_unit_keeps_whole(writer: &TetheredBufWriter, unit: Seq<u8>, byte: u8)
    requires
        unit.len() > 0,
        unit.last() == byte,
    ensures
        keeps_records_whole(
            writer.written(),
            writer.staged(),
            writer.written_after(unit),
            writer.staged_after(unit),
            byte,
        ),
{
    let written = writer.written();
    let later = writer.written_after(unit);
    assert(later.subrange(0, written.len() as int) =~= written);
}

/// A writer that parts no record in a first run of writes, and none in a
/// second, parts none in both.
pub proof fn lemma_keeps_whole_on(
    written: Seq<Seq<u8>>,
    staged: Seq<u8>,
    then_written: Seq<Seq<u8>>,
    then_staged: Seq<u8>,
    later_written: Seq<Seq<u8>>,
    later_staged: Seq<u8>,
    byte: u8,
)
    requires
        keeps_records_whole(written, staged, then_written, then_staged, byte),
        keeps_records_whole(then_written, then_staged, later_written, later_staged, byte),
    ensures
        keeps_records_whole(written, staged, later_written, later_staged, byte),
{
    assert(later_written.subrange(0, written.len() as int) =~= written) by {
        assert forall|k: int| 0 <= k < written.len() implies later_written[k] == written[k] by {
            assert(later_written.subrange(0, then_written.len() as int)[k] == then_written[k]);
            assert(then_written.subrange(0, written.len() as int)[k] == written[k]);
        }
    }
    if ends_whole(staged, byte) {
        assert forall|k: int| written.len() <= k < later_written.len() implies ends_whole(
            #[trigger] later_written[k],
            byte,
        ) by {
            if k < then_written.len() {
                assert(later_written.subrange(0, then_written.len() as int)[k]
                    == then_written[k]);
            }
        }
    }
}

/// One more part: the elements of the longer sequence of parts.
pub proof fn lemma_concat_push<T>(parts: Seq<Seq<T>>, part: Seq<T>)
    ensures
        concat(parts.push(part)) == concat(parts) + part,
{
    assert(parts.push(part).drop_last() =~= parts);
}

} // verus!
