//! What a dedup run has to produce, stated over the bytes of its input.

use crate::config::Terminator;
use crate::fastchr::lemma_split_at_first;
use crate::fastchr::lemma_first_occurrence;
use crate::fastchr::lemma_split_clean;
use crate::fastchr::lemma_split_concat;
use crate::fastchr::lemma_split_nonempty;
use crate::fastchr::lemma_split_whole;
use crate::fastchr::split;
use crate::gumshoe::GumSet;
use vstd::prelude::*;

verus! {

/// The pieces of `input` that hold a record: all pieces between
/// terminators, but for an empty piece after the last terminator, which
/// stands for no record.
pub open spec fn pieces(input: Seq<u8>, byte: u8) -> Seq<Seq<u8>> {
    let all = split(input, byte);
    if all.last().len() == 0 {
        all.drop_last()
    } else {
        all
    }
}

/// The records of `input`, in order.
pub open spec fn records(input: Seq<u8>, term: Terminator) -> Seq<Seq<u8>> {
    pieces(input, term.spec_byte()).map_values(|piece: Seq<u8>| term.record_of(piece))
}

/// The records that are written when the records of `known` have been seen
/// already: those that are not in `known` and did not occur before, in the
/// order in which they occur; or, with `repeated`, all others.
pub open spec fn survivors_after(
    known: Set<Seq<u8>>,
    records: Seq<Seq<u8>>,
    repeated: bool,
) -> Seq<Seq<u8>>
    decreases records.len(),
{
    if records.len() == 0 {
        Seq::empty()
    } else {
        let before = records.drop_last();
        let seen = known.contains(records.last()) || before.contains(records.last());
        if seen == repeated {
            survivors_after(known, before, repeated).push(records.last())
        } else {
            survivors_after(known, before, repeated)
        }
    }
}

/// The records that are written: the first occurrence of each record, in
/// the order in which they occur; or, with `repeated`, every occurrence but
/// the first.
pub open spec fn survivors(records: Seq<Seq<u8>>, repeated: bool) -> Seq<Seq<u8>> {
    survivors_after(Set::empty(), records, repeated)
}

/// The bytes that are written for `records`: each record, followed by the
/// terminator byte.
pub open spec fn render(records: Seq<Seq<u8>>, byte: u8) -> Seq<u8>
    decreases records.len(),
{
    if records.len() == 0 {
        Seq::empty()
    } else {
        render(records.drop_last(), byte) + records.last() + seq![byte]
    }
}

/// The output of a dedup run over `input` that starts when the records of
/// `known` have been seen already.
pub open spec fn deduped_after(
    known: Set<Seq<u8>>,
    input: Seq<u8>,
    term: Terminator,
    repeated: bool,
) -> Seq<u8> {
    render(survivors_after(known, records(input, term), repeated), term.spec_byte())
}

/// The output of a dedup run over `input`.
pub open spec fn deduped(input: Seq<u8>, term: Terminator, repeated: bool) -> Seq<u8> {
    deduped_after(Set::empty(), input, term, repeated)
}

/// The records of all pieces of `input`, the piece behind the last
/// terminator among them, be it empty or not.
pub open spec fn all_records(input: Seq<u8>, term: Terminator) -> Seq<Seq<u8>> {
    split(input, term.spec_byte()).map_values(|piece: Seq<u8>| term.record_of(piece))
}

/// `records` without its last record, if that is empty.
pub open spec fn without_last_empty(records: Seq<Seq<u8>>) -> Seq<Seq<u8>> {
    if records.len() > 0 && records.last().len() == 0 {
        records.drop_last()
    } else {
        records
    }
}

/// The records that a sweep over `input` writes, or counts, when the
/// records of `known` have been seen already. Every piece of the input is
/// filtered, the empty piece behind a last terminator like any other; then
/// a last survivor that is empty is dropped.
pub open spec fn swept_after(
    known: Set<Seq<u8>>,
    input: Seq<u8>,
    term: Terminator,
    repeated: bool,
) -> Seq<Seq<u8>> {
    without_last_empty(survivors_after(known, all_records(input, term), repeated))
}

/// The records of `known` and those of `seen`.
pub open spec fn known_with(known: Set<Seq<u8>>, seen: Seq<Seq<u8>>) -> Set<Seq<u8>> {
    Set::new(|record: Seq<u8>| known.contains(record) || seen.contains(record))
}

/// One more record: what survives of the longer sequence.
pub proof fn lemma_survivors_push(
    known: Set<Seq<u8>>,
    seen: Seq<Seq<u8>>,
    record: Seq<u8>,
    repeated: bool,
)
    ensures
        survivors_after(known, seen.push(record), repeated) == if known_with(known, seen).contains(
            record,
        ) == repeated {
            survivors_after(known, seen, repeated).push(record)
        } else {
            survivors_after(known, seen, repeated)
        },
        known_with(known, seen.push(record)) == known_with(known, seen).insert(record),
{
    assert(seen.push(record).drop_last() =~= seen);
    assert(seen.push(record).last() == record);
}

/// One more record: what is written for the longer sequence.
pub proof fn lemma_render_push(records: Seq<Seq<u8>>, record: Seq<u8>, byte: u8)
    ensures
        render(records.push(record), byte) == render(records, byte) + record + seq![byte],
{
    assert(records.push(record).drop_last() =~= records);
}

/// Before any record has been seen, what is known is what was known.
pub proof fn lemma_known_with_nothing(known: Set<Seq<u8>>)
    ensures
        known_with(known, Seq::empty()) == known,
{
}

/// With the pieces `done` cut off and `rest` left, a terminator first at
/// `u` in `rest` ends one more piece.
pub proof fn lemma_take_piece(
    whole: Seq<u8>,
    byte: u8,
    done: Seq<Seq<u8>>,
    rest: Seq<u8>,
    u: int,
)
    requires
        split(whole, byte) == done + split(rest, byte),
        0 <= u < rest.len(),
        rest[u] == byte,
        forall|j: int| 0 <= j < u ==> rest[j] != byte,
    ensures
        split(whole, byte) == done.push(rest.subrange(0, u)) + split(
            rest.subrange(u + 1, rest.len() as int),
            byte,
        ),
{
    lemma_split_at_first(rest, byte, u);
}

/// With the pieces `done` cut off and a `rest` without terminator left,
/// the pieces that hold a record are `done` and, unless it is empty, `rest`.
pub proof fn lemma_last_piece(whole: Seq<u8>, byte: u8, done: Seq<Seq<u8>>, rest: Seq<u8>)
    requires
        split(whole, byte) == done + split(rest, byte),
        forall|j: int| 0 <= j < rest.len() ==> rest[j] != byte,
    ensures
        pieces(whole, byte) == if rest.len() == 0 {
            done
        } else {
            done.push(rest)
        },
{
    lemma_split_whole(rest, byte);
}

/// The record of one more piece comes behind the records of the pieces
/// before it.
pub proof fn lemma_records_push(term: Terminator, done: Seq<Seq<u8>>, piece: Seq<u8>)
    ensures
        done.push(piece).map_values(|p: Seq<u8>| term.record_of(p)) == done.map_values(
            |p: Seq<u8>| term.record_of(p),
        ).push(term.record_of(piece)),
{
    assert(done.push(piece).map_values(|p: Seq<u8>| term.record_of(p)) =~= done.map_values(
        |p: Seq<u8>| term.record_of(p),
    ).push(term.record_of(piece)));
}

/// Input that ends with the terminator, or is empty, holds whole records
/// only: the records of that input and of more input behind it are the
/// records of the one and the records of the other.
pub proof fn lemma_records_concat(head: Seq<u8>, tail: Seq<u8>, term: Terminator)
    requires
        head.len() == 0 || head.last() == term.spec_byte(),
    ensures
        records(head + tail, term) == records(head, term) + records(tail, term),
{
    let byte = term.spec_byte();
    lemma_pieces_concat(head, tail, byte);
}

/// The pieces that hold a record, for input in two parts of which the
/// first ends with the terminator or is empty.
pub proof fn lemma_pieces_concat(head: Seq<u8>, tail: Seq<u8>, byte: u8)
    requires
        head.len() == 0 || head.last() == byte,
    ensures
        pieces(head + tail, byte) == pieces(head, byte) + pieces(tail, byte),
{
    lemma_split_nonempty(tail, byte);
    if head.len() == 0 {
        lemma_split_whole(head, byte);
    } else {
        let front = head.drop_last();
        let nothing = Seq::<u8>::empty();
        assert(head =~= front + seq![byte] + nothing);
        lemma_split_concat(front, nothing, byte);
        lemma_split_concat(front, tail, byte);
        lemma_split_whole(nothing, byte);
    }
}

/// What survives of records in two runs is what survives of the first
/// run, and what survives of the second after the first has been seen.
pub proof fn lemma_survivors_concat(
    known: Set<Seq<u8>>,
    first: Seq<Seq<u8>>,
    second: Seq<Seq<u8>>,
    repeated: bool,
)
    ensures
        survivors_after(known, first + second, repeated) == survivors_after(
            known,
            first,
            repeated,
        ) + survivors_after(known_with(known, first), second, repeated),
        known_with(known, first + second) == known_with(known_with(known, first), second),
    decreases second.len(),
{
    if second.len() == 0 {
        assert(known_with(known, first + second) =~= known_with(
            known_with(known, first),
            second,
        ));
        assert(survivors_after(known, first, repeated) + Seq::<Seq<u8>>::empty()
            =~= survivors_after(known, first, repeated));
    } else {
        let init = second.drop_last();
        let last = second.last();
        lemma_survivors_concat(known, first, init, repeated);
        assert(second =~= init.push(last));
        lemma_survivors_push(known, first + init, last, repeated);
        lemma_survivors_push(known_with(known, first), init, last, repeated);
    }
}

/// What is written for records in two runs is what is written for the
/// first and then what is written for the second.
pub proof fn lemma_render_concat(first: Seq<Seq<u8>>, second: Seq<Seq<u8>>, byte: u8)
    ensures
        render(first + second, byte) == render(first, byte) + render(second, byte),
    decreases second.len(),
{
    if !(second.len() == 0) {
        let init = second.drop_last();
        let last = second.last();
        lemma_render_concat(first, init, byte);
        assert(first + second =~= (first + init).push(last));
        lemma_render_push(first + init, last, byte);
    }
}

/// `record` has no byte `byte` in it.
pub open spec fn is_free_of(record: Seq<u8>, byte: u8) -> bool {
    forall|j: int| 0 <= j < record.len() ==> record[j] != byte
}

/// Every survivor is one of the records.
pub proof fn lemma_survivors_are_records(
    known: Set<Seq<u8>>,
    records: Seq<Seq<u8>>,
    repeated: bool,
)
    ensures
        forall|k: int|
            0 <= k < survivors_after(known, records, repeated).len() ==> records.contains(
                #[trigger] survivors_after(known, records, repeated)[k],
            ),
    decreases records.len(),
{
    if records.len() > 0 {
        let before = records.drop_last();
        lemma_survivors_are_records(known, before, repeated);
        assert forall|k: int|
            0 <= k < survivors_after(known, records, repeated).len() implies records.contains(
            #[trigger] survivors_after(known, records, repeated)[k],
        ) by {
            let survivor = survivors_after(known, records, repeated)[k];
            if k < survivors_after(known, before, repeated).len() {
                let j = choose|j: int| 0 <= j < before.len() && before[j] == survivor;
                assert(records[j] == survivor);
            }
        }
    }
}

/// Among the first occurrences no record comes twice.
pub proof fn lemma_first_occurrences_differ(records: Seq<Seq<u8>>)
    ensures
        survivors(records, false).no_duplicates(),
    decreases records.len(),
{
    if records.len() > 0 {
        let before = records.drop_last();
        lemma_first_occurrences_differ(before);
        lemma_survivors_are_records(Set::empty(), before, false);
    }
}

/// Every record is among the first occurrences, and nothing else is.
pub proof fn lemma_first_occurrences_cover(records: Seq<Seq<u8>>)
    ensures
        forall|record: Seq<u8>|
            records.contains(record) <==> survivors(records, false).contains(record),
    decreases records.len(),
{
    if records.len() > 0 {
        let before = records.drop_last();
        let last = records.last();
        lemma_first_occurrences_cover(before);
        lemma_survivors_are_records(Set::empty(), records, false);
        assert forall|record: Seq<u8>| records.contains(record) implies survivors(
            records,
            false,
        ).contains(record) by {
            let j = choose|j: int| 0 <= j < records.len() && records[j] == record;
            if before.contains(record) {
                let kept = survivors(before, false);
                let k = choose|k: int| 0 <= k < kept.len() && kept[k] == record;
                assert(survivors(records, false)[k] == record);
            } else {
                assert(j == records.len() - 1) by {
                    if j < records.len() - 1 {
                        assert(before[j] == record);
                    }
                }
                let kept = survivors(records, false);
                assert(kept[kept.len() - 1] == record);
            }
        }
    }
}

/// In whatever order two runs of records are taken, the same records
/// survive, each once: what survives in one order is what survives in the
/// other, in another order at most. Within a run, survivors keep the order
/// of the run.
pub proof fn lemma_order_of_runs(first: Seq<Seq<u8>>, second: Seq<Seq<u8>>)
    ensures
        survivors(first + second, false).no_duplicates(),
        survivors(second + first, false).no_duplicates(),
        forall|record: Seq<u8>|
            survivors(first + second, false).contains(record) <==> survivors(
                second + first,
                false,
            ).contains(record),
        survivors(first + second, false) == survivors(first, false) + survivors_after(
            known_with(Set::empty(), first),
            second,
            false,
        ),
{
    lemma_first_occurrences_differ(first + second);
    lemma_first_occurrences_differ(second + first);
    lemma_first_occurrences_cover(first + second);
    lemma_first_occurrences_cover(second + first);
    lemma_survivors_concat(Set::empty(), first, second, false);
    assert forall|record: Seq<u8>| #[trigger]
        (first + second).contains(record) <==> (second + first).contains(record) by {
        if (first + second).contains(record) {
            let j = choose|j: int| 0 <= j < (first + second).len() && (first + second)[j] == record;
            if j < first.len() {
                assert((second + first)[second.len() + j] == record);
            } else {
                assert((second + first)[j - first.len()] == record);
            }
        }
        if (second + first).contains(record) {
            let j = choose|j: int| 0 <= j < (second + first).len() && (second + first)[j] == record;
            if j < second.len() {
                assert((first + second)[first.len() + j] == record);
            } else {
                assert((first + second)[j - second.len()] == record);
            }
        }
    }
    assert forall|record: Seq<u8>|
        survivors(first + second, false).contains(record) <==> survivors(
            second + first,
            false,
        ).contains(record) by {
        assert((first + second).contains(record) <==> (second + first).contains(record));
    }
}

/// Records that all differ are their own first occurrences.
pub proof fn lemma_all_first(records: Seq<Seq<u8>>)
    requires
        records.no_duplicates(),
    ensures
        survivors(records, false) == records,
    decreases records.len(),
{
    if records.len() > 0 {
        let before = records.drop_last();
        lemma_all_first(before);
    }
}

/// What is written for records is empty or ends with the terminator byte.
pub proof fn lemma_render_ends(records: Seq<Seq<u8>>, byte: u8)
    ensures
        render(records, byte).len() == 0 || render(records, byte).last() == byte,
{
}

/// A record without the terminator byte, written out, reads back as that
/// record alone.
pub proof fn lemma_one_piece(record: Seq<u8>, byte: u8)
    requires
        is_free_of(record, byte),
    ensures
        pieces(record + seq![byte], byte) == seq![record],
{
    let nothing = Seq::<u8>::empty();
    lemma_split_concat(record, nothing, byte);
    lemma_split_whole(record, byte);
    lemma_split_whole(nothing, byte);
}

/// Records without the terminator byte in them, written out, read back as
/// they were.
pub proof fn lemma_read_back(records: Seq<Seq<u8>>, byte: u8)
    requires
        forall|k: int| 0 <= k < records.len() ==> is_free_of(#[trigger] records[k], byte),
    ensures
        pieces(render(records, byte), byte) == records,
    decreases records.len(),
{
    if records.len() == 0 {
        lemma_split_whole(Seq::<u8>::empty(), byte);
    } else {
        let before = records.drop_last();
        let last = records.last();
        lemma_read_back(before, byte);
        lemma_render_ends(before, byte);
        lemma_one_piece(last, byte);
        lemma_pieces_concat(render(before, byte), last + seq![byte], byte);
        assert(render(records, byte) =~= render(before, byte) + (last + seq![byte]));
    }
}

/// The pieces of input that is empty or ends with the terminator byte,
/// written out, are that input.
pub proof fn lemma_write_back(input: Seq<u8>, byte: u8)
    requires
        input.len() == 0 || input.last() == byte,
    ensures
        render(pieces(input, byte), byte) == input,
    decreases input.len(),
{
    if input.len() == 0 {
        lemma_split_whole(input, byte);
    } else {
        let i = lemma_first_occurrence(input, byte, input.len() - 1);
        let first = input.subrange(0, i);
        let tail = input.subrange(i + 1, input.len() as int);
        assert(input =~= (first + seq![byte]) + tail);
        lemma_one_piece(first, byte);
        lemma_pieces_concat(first + seq![byte], tail, byte);
        lemma_write_back(tail, byte);
        lemma_render_concat(seq![first], pieces(tail, byte), byte);
        lemma_render_push(Seq::empty(), first, byte);
    }
}

/// With a terminator that cuts nothing, the records are the pieces.
pub proof fn lemma_records_are_pieces(input: Seq<u8>, byte: u8)
    ensures
        records(input, Terminator::Any(byte)) == pieces(input, byte),
{
}

/// The output of a run, read as input, holds the first occurrences of the
/// records of the run's input, in their order.
pub proof fn lemma_output_holds_first_occurrences(input: Seq<u8>, byte: u8)
    ensures
        records(deduped(input, Terminator::Any(byte), false), Terminator::Any(byte)) == survivors(
            records(input, Terminator::Any(byte)),
            false,
        ),
{
    let term = Terminator::Any(byte);
    let all = records(input, term);
    let kept = survivors(all, false);
    lemma_records_are_pieces(input, byte);
    lemma_survivors_are_records(Set::empty(), all, false);
    lemma_split_clean(input, byte);
    lemma_split_nonempty(input, byte);
    lemma_read_back(kept, byte);
    lemma_records_are_pieces(render(kept, byte), byte);
}

/// A run over the output of a run writes that output again.
pub proof fn lemma_dedup_is_idempotent(input: Seq<u8>, byte: u8)
    ensures
        deduped(deduped(input, Terminator::Any(byte), false), Terminator::Any(byte), false)
            == deduped(input, Terminator::Any(byte), false),
{
    let term = Terminator::Any(byte);
    lemma_output_holds_first_occurrences(input, byte);
    lemma_first_occurrences_differ(records(input, term));
    lemma_all_first(survivors(records(input, term), false));
}

/// A run over input in which no record comes twice, and which is empty or
/// ends with the terminator byte, writes the input as it is.
pub proof fn lemma_single_occurrences_pass(input: Seq<u8>, byte: u8)
    requires
        records(input, Terminator::Any(byte)).no_duplicates(),
        input.len() == 0 || input.last() == byte,
    ensures
        deduped(input, Terminator::Any(byte), false) == input,
{
    lemma_records_are_pieces(input, byte);
    lemma_all_first(records(input, Terminator::Any(byte)));
    lemma_write_back(input, byte);
}

/// A run over input without a byte in it sees no record and writes
/// nothing.
pub proof fn lemma_empty_input(term: Terminator, repeated: bool)
    ensures
        records(Seq::<u8>::empty(), term).len() == 0,
        deduped(Seq::<u8>::empty(), term, repeated) == Seq::<u8>::empty(),
{
    lemma_split_whole(Seq::<u8>::empty(), term.spec_byte());
}

/// A sweep that starts with nothing seen writes the first occurrences of
/// the records of its input, but for an empty one that comes last among
/// them.
pub proof fn lemma_sweep_is_first_occurrences(input: Seq<u8>, term: Terminator)
    ensures
        swept_after(Set::empty(), input, term, false) == without_last_empty(
            survivors(records(input, term), false),
        ),
{
    let byte = term.spec_byte();
    let found = split(input, byte);
    let nothing = Seq::<u8>::empty();
    lemma_split_nonempty(input, byte);
    if found.last().len() == 0 {
        let before = records(input, term);
        assert(found.last() =~= nothing);
        assert(term.record_of(nothing) == nothing);
        assert(all_records(input, term) =~= before.push(nothing));
        lemma_survivors_push(Set::empty(), before, nothing, false);
        lemma_survivors_are_records(Set::empty(), before, false);
        let kept = survivors(before, false);
        if !known_with(Set::empty(), before).contains(nothing) {
            assert(kept.push(nothing).drop_last() =~= kept);
            if kept.len() > 0 && kept.last().len() == 0 {
                assert(kept.last() =~= nothing);
                assert(before.contains(kept[kept.len() - 1]));
            }
        }
    } else {
        assert(all_records(input, term) =~= records(input, term));
    }
}

/// What a sweep that starts with nothing seen writes, read as input, holds
/// the records that the sweep wrote.
pub proof fn lemma_sweep_reads_back(input: Seq<u8>, byte: u8)
    ensures
        records(
            render(swept_after(Set::empty(), input, Terminator::Any(byte), false), byte),
            Terminator::Any(byte),
        ) == swept_after(Set::empty(), input, Terminator::Any(byte), false),
        swept_after(Set::empty(), input, Terminator::Any(byte), false).no_duplicates(),
        swept_after(Set::empty(), input, Terminator::Any(byte), false).len() == 0 || swept_after(
            Set::empty(),
            input,
            Terminator::Any(byte),
            false,
        ).last().len() > 0,
{
    let term = Terminator::Any(byte);
    let all = records(input, term);
    let first = survivors(all, false);
    let kept = without_last_empty(first);
    lemma_sweep_is_first_occurrences(input, term);
    lemma_records_are_pieces(input, byte);
    lemma_survivors_are_records(Set::empty(), all, false);
    lemma_first_occurrences_differ(all);
    lemma_split_clean(input, byte);
    lemma_split_nonempty(input, byte);
    assert forall|k: int| 0 <= k < kept.len() implies is_free_of(#[trigger] kept[k], byte) by {
        assert(kept[k] == first[k]);
        let j = choose|j: int| 0 <= j < all.len() && all[j] == first[k];
        assert(all[j] == split(input, byte)[j]);
    }
    lemma_read_back(kept, byte);
    lemma_records_are_pieces(render(kept, byte), byte);
    if kept.len() > 0 && kept.last().len() == 0 {
        let n = first.len() as int;
        assert(first[n - 1] =~= first[n - 2]);
    }
}

/// A sweep over what a sweep wrote writes the same again.
pub proof fn lemma_sweep_is_idempotent(input: Seq<u8>, byte: u8)
    ensures
        render(
            swept_after(
                Set::empty(),
                render(swept_after(Set::empty(), input, Terminator::Any(byte), false), byte),
                Terminator::Any(byte),
                false,
            ),
            byte,
        ) == render(swept_after(Set::empty(), input, Terminator::Any(byte), false), byte),
{
    let term = Terminator::Any(byte);
    let kept = swept_after(Set::empty(), input, term, false);
    lemma_sweep_reads_back(input, byte);
    lemma_sweep_is_first_occurrences(render(kept, byte), term);
    lemma_all_first(kept);
}

/// A sweep over input in which no record comes twice, which is empty or
/// ends with the terminator byte, and whose last record is not empty,
/// writes the input as it is.
pub proof fn lemma_sweep_single_occurrences_pass(input: Seq<u8>, byte: u8)
    requires
        records(input, Terminator::Any(byte)).no_duplicates(),
        input.len() == 0 || input.last() == byte,
        records(input, Terminator::Any(byte)).len() == 0 || records(
            input,
            Terminator::Any(byte),
        ).last().len() > 0,
    ensures
        render(swept_after(Set::empty(), input, Terminator::Any(byte), false), byte) == input,
{
    lemma_sweep_is_first_occurrences(input, Terminator::Any(byte));
    lemma_single_occurrences_pass(input, byte);
    lemma_all_first(records(input, Terminator::Any(byte)));
}

/// A haystack has one piece more than it has bytes, at most.
pub proof fn lemma_split_fits(input: Seq<u8>, byte: u8)
    ensures
        split(input, byte).len() <= input.len() + 1,
    decreases input.len(),
{
    if exists|k: int| 0 <= k < input.len() && input[k] == byte {
        let k = choose|k: int| 0 <= k < input.len() && input[k] == byte;
        let i = lemma_first_occurrence(input, byte, k);
        lemma_split_at_first(input, byte, i);
        lemma_split_fits(input.subrange(i + 1, input.len() as int), byte);
    } else {
        lemma_split_whole(input, byte);
    }
}

/// Looks `record` up in the set of records seen so far, puts it there, and
/// says whether it is to be written.
pub fn screen<'a>(set: &mut GumSet<'a>, record: &'a [u8], repeated: bool) -> (keep: bool)
    requires
        old(set).wf(),
    ensures
        final(set).wf(),
        final(set)@ == old(set)@.insert(record@),
        keep == (old(set)@.contains(record@) == repeated),
{
    let inserted: bool = set.insert(record);
    inserted != repeated
}

/// Writes `record` and the terminator byte behind what `out` holds.
pub fn emit(out: &mut Vec<u8>, record: &[u8], byte: u8)
    ensures
        final(out)@ == old(out)@ + record@ + seq![byte],
{
    out.extend_from_slice(record);
    out.push(byte);
}

} // verus!
