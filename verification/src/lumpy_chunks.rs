//! Cutting a slice into pieces of roughly equal size that end where the
//! caller allows a break.

use vstd::prelude::*;

verus! {

/// The elements of all `parts`, in order.
pub open spec fn concat<T>(parts: Seq<Seq<T>>) -> Seq<T>
    decreases parts.len(),
{
    if parts.len() == 0 {
        Seq::empty()
    } else {
        concat(parts.drop_last()) + parts.last()
    }
}

/// What each slice of `slices` holds.
pub open spec fn contents<T>(slices: Seq<&[T]>) -> Seq<Seq<T>> {
    Seq::new(slices.len(), |k: int| slices[k]@)
}

/// `chunk` followed by `rest` is what is cut off `whole`, and what is
/// left, when the break-point search over `whole` from element `skipped` on
/// came back with `found`: the chunk ends `found` elements into what was
/// searched, or, with no break point found, is all of `whole`.
pub open spec fn is_cut<T>(
    whole: Seq<T>,
    skipped: int,
    found: Option<usize>,
    chunk: Seq<T>,
    rest: Seq<T>,
) -> bool {
    match found {
        Some(u) => {
            &&& skipped + u <= whole.len()
            &&& chunk == whole.subrange(0, skipped + u)
            &&& rest == whole.subrange(skipped + u, whole.len() as int)
        },
        None => chunk == whole && rest.len() == 0,
    }
}

/// The finder, asked about `whole` from element `skipped` on, may answer
/// `found`.
pub open spec fn finder_reports<T, P: Fn(&[T]) -> Option<usize>>(
    finder: P,
    whole: Seq<T>,
    skipped: int,
    found: Option<usize>,
) -> bool {
    exists|tail: &[T]|
        tail@ == whole.subrange(skipped, whole.len() as int) && #[trigger] call_ensures(
            finder,
            (tail,),
            found,
        )
}

/// `chunk` is the chunk that is cut from `before`, and `after` is what it
/// leaves.
///
/// A `before` of at most `rough_size` elements is cut off whole. Otherwise
/// the finder is asked about `before` from element `rough_size` on, and the
/// chunk ends at the break point it reports, or, if it reports none, the
/// chunk is all of `before`.
///
/// The one departure: with a rough size of 0 and a break point reported
/// right at the start, that cut would leave an empty chunk. The finder is
/// then asked once more, about `before` from its second element on, and
/// the chunk ends at the break point it reports there, or is all of
/// `before`.
pub open spec fn is_next_cut<T, P: Fn(&[T]) -> Option<usize>>(
    finder: P,
    rough_size: usize,
    before: Seq<T>,
    chunk: Seq<T>,
    after: Seq<T>,
) -> bool {
    &&& chunk.len() > 0
    &&& chunk + after == before
    &&& if before.len() <= rough_size {
        after.len() == 0
    } else {
        exists|found: Option<usize>|
            {
                &&& #[trigger] finder_reports(finder, before, rough_size as int, found)
                &&& if rough_size == 0 && found == Some(0usize) {
                    exists|again: Option<usize>|
                        {
                            &&& #[trigger] finder_reports(finder, before, 1, again)
                            &&& is_cut(before, 1, again, chunk, after)
                        }
                } else {
                    is_cut(before, rough_size as int, found, chunk, after)
                }
            }
    }
}

/// `chunks` are the chunks that are cut from `whole` one after the other,
/// and `after` is what they leave.
pub open spec fn are_cuts<T, P: Fn(&[T]) -> Option<usize>>(
    finder: P,
    rough_size: usize,
    whole: Seq<T>,
    chunks: Seq<Seq<T>>,
    after: Seq<T>,
) -> bool
    decreases chunks.len(),
{
    if chunks.len() == 0 {
        after == whole
    } else {
        &&& are_cuts(finder, rough_size, whole, chunks.drop_last(), chunks.last() + after)
        &&& is_next_cut(finder, rough_size, chunks.last() + after, chunks.last(), after)
    }
}

/// A cursor over the chunks of a slice.
pub struct LumpyChunksIter<'a, T, P> {
    slice: &'a [T],
    rough_size: usize,
    break_point_finder: P,
}

impl<'a, T, P: Fn(&[T]) -> Option<usize>> LumpyChunksIter<'a, T, P> {
    /// The part of the slice that has not been handed out yet.
    pub closed spec fn remainder(&self) -> Seq<T> {
        self.slice@
    }

    /// The least length of every chunk but the last.
    pub closed spec fn rough_size(&self) -> usize {
        self.rough_size
    }

    /// The search that says where, in a slice, a chunk may end.
    pub closed spec fn break_point_finder(&self) -> P {
        self.break_point_finder
    }

    /// The finder may be called on any slice, and a break point it reports
    /// lies inside the slice it was given, or at its end.
    pub open spec fn finder_in_bounds(&self) -> bool {
        &&& forall|s: &[T]| #[trigger] call_requires(self.break_point_finder(), (s,))
        &&& forall|s: &[T], u: usize| #[trigger]
            call_ensures(self.break_point_finder(), (s,), Some(u)) ==> u <= s@.len()
    }

    /// A cursor over the chunks of `slice`.
    pub fn new(slice: &'a [T], rough_size: usize, break_point_finder: P) -> (r: Self)
        ensures
            r.remainder() == slice@,
            r.rough_size() == rough_size,
            r.break_point_finder() == break_point_finder,
    {
        LumpyChunksIter { slice, rough_size, break_point_finder }
    }

    /// The next chunk, or `None` when nothing is left.
    ///
    /// A remainder of at most `rough_size` elements is the last chunk.
    /// Otherwise the finder searches the remainder from element
    /// `rough_size` on, and the chunk ends at the break point it reports;
    /// when it reports none, the whole remainder is the last chunk. Only
    /// where that cut would leave an empty chunk, which takes a rough size
    /// of 0 and a break point right at the start, the finder searches once
    /// more, from the second element on.
    pub fn next(&mut self) -> (r: Option<&'a [T]>)
        requires
            old(self).finder_in_bounds(),
        ensures
            final(self).rough_size() == old(self).rough_size(),
            final(self).break_point_finder() == old(self).break_point_finder(),
            match r {
                None => old(self).remainder().len() == 0 && final(self).remainder().len() == 0,
                Some(chunk) => is_next_cut(
                    old(self).break_point_finder(),
                    old(self).rough_size(),
                    old(self).remainder(),
                    chunk@,
                    final(self).remainder(),
                ),
            },
    {
        let whole: &'a [T] = self.slice;
        let len: usize = whole.len();
        if len == 0 {
            return None;
        }
        if len <= self.rough_size {
            self.slice = vstd::slice::slice_subrange(whole, len, len);
            assert(whole@ + self.slice@ == whole@);
            return Some(whole);
        }
        let tail: &[T] = vstd::slice::slice_subrange(whole, self.rough_size, len);
        assert(call_requires(self.break_point_finder(), (tail,)));
        let found: Option<usize> = (self.break_point_finder)(tail);
        assert(finder_reports(self.break_point_finder(), whole@, self.rough_size as int, found));
        let cut: Option<usize> = match found {
            Some(u) => {
                if self.rough_size > 0 || u > 0 {
                    Some(self.rough_size + u)
                } else {
                    let rest: &[T] = vstd::slice::slice_subrange(whole, 1, len);
                    assert(call_requires(self.break_point_finder(), (rest,)));
                    let again: Option<usize> = (self.break_point_finder)(rest);
                    assert(finder_reports(self.break_point_finder(), whole@, 1, again));
                    match again {
                        Some(u) => Some(1 + u),
                        None => None,
                    }
                }
            },
            None => None,
        };
        match cut {
            Some(at) => {
                let head: &'a [T] = vstd::slice::slice_subrange(whole, 0, at);
                self.slice = vstd::slice::slice_subrange(whole, at, len);
                assert(head@ + self.slice@ == whole@);
                Some(head)
            },
            None => {
                self.slice = vstd::slice::slice_subrange(whole, len, len);
                assert(whole@ + self.slice@ == whole@);
                Some(whole)
            },
        }
    }

    /// Every chunk still to come, in order: the chunks that `next` cuts
    /// off one after the other until nothing is left. Put end to end they
    /// are the remainder; none is empty, and each but the last has
    /// `rough_size` elements at least.
    pub fn collect(self) -> (chunks: Vec<&'a [T]>)
        requires
            self.finder_in_bounds(),
        ensures
            are_cuts(
                self.break_point_finder(),
                self.rough_size(),
                self.remainder(),
                contents(chunks@),
                Seq::<T>::empty(),
            ),
            concat(contents(chunks@)) == self.remainder(),
            forall|k: int| 0 <= k < chunks@.len() ==> (#[trigger] chunks@[k])@.len() > 0,
            forall|k: int|
                0 <= k < chunks@.len() - 1 ==> (#[trigger] chunks@[k])@.len() >= self.rough_size(),
    {
        let ghost whole: Seq<T> = self.slice@;
        let ghost rough_size: usize = self.rough_size;
        let ghost finder: P = self.break_point_finder;
        let mut cursor: LumpyChunksIter<'a, T, P> = self;
        let mut chunks: Vec<&'a [T]> = Vec::new();
        loop
            invariant_except_break
                cursor.finder_in_bounds(),
                cursor.rough_size == rough_size,
                cursor.break_point_finder == finder,
                are_cuts(finder, rough_size, whole, contents(chunks@), cursor.slice@),
                concat(contents(chunks@)) + cursor.slice@ == whole,
                forall|k: int| 0 <= k < chunks@.len() ==> (#[trigger] chunks@[k])@.len() > 0,
                forall|k: int|
                    0 <= k < chunks@.len() - 1 ==> (#[trigger] chunks@[k])@.len() >= rough_size,
                chunks@.len() > 0 ==> chunks@.last()@.len() >= rough_size || cursor.slice@.len()
                    == 0,
            ensures
                are_cuts(finder, rough_size, whole, contents(chunks@), Seq::<T>::empty()),
                concat(contents(chunks@)) == whole,
                forall|k: int| 0 <= k < chunks@.len() ==> (#[trigger] chunks@[k])@.len() > 0,
                forall|k: int|
                    0 <= k < chunks@.len() - 1 ==> (#[trigger] chunks@[k])@.len() >= rough_size,
            decreases cursor.slice@.len(),
        {
            let ghost before: Seq<&[T]> = chunks@;
            let ghost left: Seq<T> = cursor.slice@;
            match cursor.next() {
                Some(chunk) => {
                    chunks.push(chunk);
                    proof {
                        assert(contents(chunks@).drop_last() == contents(before));
                        assert((concat(contents(before)) + chunk@) + cursor.slice@ == concat(
                            contents(before),
                        ) + (chunk@ + cursor.slice@));
                    }
                },
                None => {
                    assert(left == Seq::<T>::empty());
                    break ;
                },
            }
        }
        chunks
    }
}

/// Slices that can be cut into lumpy chunks.
pub trait LumpyChunks {
    /// The element type of the slice.
    type Contents;

    /// A cursor over chunks of `self` that have `rough_size` elements at
    /// least and end where `break_point_finder` allows a break.
    fn lumpy_chunks<P: Fn(&[Self::Contents]) -> Option<usize>>(
        &self,
        rough_size: usize,
        break_point_finder: P,
    ) -> LumpyChunksIter<'_, Self::Contents, P>;
}

impl<T> LumpyChunks for [T] {
    type Contents = T;

    fn lumpy_chunks<P: Fn(&[T]) -> Option<usize>>(
        &self,
        rough_size: usize,
        break_point_finder: P,
    ) -> (r: LumpyChunksIter<'_, T, P>)
        ensures
            r.remainder() == self@,
            r.rough_size() == rough_size,
            r.break_point_finder() == break_point_finder,
    {
        LumpyChunksIter::new(self, rough_size, break_point_finder)
    }
}

} // verus!
