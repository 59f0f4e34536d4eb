//! Single-byte search over a flat byte buffer.
//!
//! The search walks the haystack one lane at a time. A lane is reduced to a
//! bitmask with one bit per byte (bit `j` is set when byte `j` of the lane is
//! the needle), and the lowest set bit of the mask gives the first match.

use vstd::prelude::*;

verus! {

/// Bytes per lane of the wide scan.
pub const AVX_LANE_WIDTH: usize = 32;

/// Bytes per lane of the narrow scan.
pub const SSE_LANE_WIDTH: usize = 16;

/// `r` is the answer to "where does `needle` first occur in `haystack`":
/// the least matching index, or `None` when no byte matches.
pub open spec fn is_first_index(haystack: Seq<u8>, needle: u8, r: Option<usize>) -> bool {
    match r {
        Some(i) => {
            &&& i < haystack.len()
            &&& haystack[i as int] == needle
            &&& forall|j: int| 0 <= j < i ==> haystack[j] != needle
        },
        None => forall|j: int| 0 <= j < haystack.len() ==> haystack[j] != needle,
    }
}

/// `found` lists the positions of `needle` in `haystack` from index `from`
/// on: each of them once, in ascending order, and nothing else.
pub open spec fn is_match_list(haystack: Seq<u8>, needle: u8, from: int, found: Seq<usize>) -> bool {
    &&& forall|k: int|
        0 <= k < found.len() ==> from <= #[trigger] found[k] < haystack.len()
            && haystack[found[k] as int] == needle
    &&& forall|k: int, l: int| 0 <= k < l < found.len() ==> found[k] < found[l]
    &&& forall|i: int|
        from <= i < haystack.len() && haystack[i] == needle ==> exists|k: int|
            0 <= k < found.len() && #[trigger] found[k] == i
}

/// The index of the first occurrence of `needle`, where there is one.
pub open spec fn first_position(haystack: Seq<u8>, needle: u8) -> int {
    choose|i: int|
        0 <= i < haystack.len() && haystack[i] == needle && forall|j: int|
            0 <= j < i ==> haystack[j] != needle
}

/// The pieces of `haystack` between consecutive occurrences of `needle`,
/// the needle itself left out. There is always a last piece, which is empty
/// when the haystack is empty or ends with the needle.
#[verifier::opaque]
pub open spec fn split(haystack: Seq<u8>, needle: u8) -> Seq<Seq<u8>>
    decreases haystack.len(),
{
    let i = first_position(haystack, needle);
    if 0 <= i < haystack.len() && haystack[i] == needle {
        seq![haystack.subrange(0, i)] + split(
            haystack.subrange(i + 1, haystack.len() as int),
            needle,
        )
    } else {
        seq![haystack]
    }
}

/// Without the needle in it, a haystack is a single piece.
pub proof fn lemma_split_whole(haystack: Seq<u8>, needle: u8)
    requires
        forall|j: int| 0 <= j < haystack.len() ==> haystack[j] != needle,
    ensures
        split(haystack, needle) == seq![haystack],
{
    reveal_with_fuel(split, 1);
}

/// With the needle first at `i`, the first piece is what comes before `i`,
/// and the other pieces are those of what comes after it.
pub proof fn lemma_split_at_first(haystack: Seq<u8>, needle: u8, i: int)
    requires
        0 <= i < haystack.len(),
        haystack[i] == needle,
        forall|j: int| 0 <= j < i ==> haystack[j] != needle,
    ensures
        split(haystack, needle) == seq![haystack.subrange(0, i)] + split(
            haystack.subrange(i + 1, haystack.len() as int),
            needle,
        ),
{
    reveal_with_fuel(split, 1);
    let c = first_position(haystack, needle);
    assert(0 <= c < haystack.len() && haystack[c] == needle && forall|j: int|
        0 <= j < c ==> haystack[j] != needle);
}

/// A haystack has one piece at least.
pub proof fn lemma_split_nonempty(haystack: Seq<u8>, needle: u8)
    ensures
        split(haystack, needle).len() >= 1,
{
    reveal_with_fuel(split, 1);
}

/// Where the needle occurs, it occurs first somewhere: gives that index.
pub proof fn lemma_first_occurrence(haystack: Seq<u8>, needle: u8, at: int) -> (first: int)
    requires
        0 <= at < haystack.len(),
        haystack[at] == needle,
    ensures
        0 <= first <= at,
        haystack[first] == needle,
        forall|j: int| 0 <= j < first ==> haystack[j] != needle,
    decreases at,
{
    if exists|k: int| 0 <= k < at && haystack[k] == needle {
        let k = choose|k: int| 0 <= k < at && haystack[k] == needle;
        lemma_first_occurrence(haystack, needle, k)
    } else {
        at
    }
}

/// The pieces of a haystack with a needle in the middle are the pieces of
/// what comes before that needle and the pieces of what comes after it.
pub proof fn lemma_split_concat(before: Seq<u8>, after: Seq<u8>, needle: u8)
    ensures
        split(before + seq![needle] + after, needle) == split(before, needle) + split(
            after,
            needle,
        ),
    decreases before.len(),
{
    let whole = before + seq![needle] + after;
    if exists|k: int| 0 <= k < before.len() && before[k] == needle {
        let k = choose|k: int| 0 <= k < before.len() && before[k] == needle;
        let i = lemma_first_occurrence(before, needle, k);
        let tail = before.subrange(i + 1, before.len() as int);
        lemma_split_at_first(whole, needle, i);
        lemma_split_at_first(before, needle, i);
        assert(whole.subrange(0, i) =~= before.subrange(0, i));
        assert(whole.subrange(i + 1, whole.len() as int) =~= tail + seq![needle] + after);
        lemma_split_concat(tail, after, needle);
        assert(seq![before.subrange(0, i)] + (split(tail, needle) + split(after, needle)) =~= (
        seq![before.subrange(0, i)] + split(tail, needle)) + split(after, needle));
    } else {
        let i = before.len() as int;
        lemma_split_at_first(whole, needle, i);
        lemma_split_whole(before, needle);
        assert(whole.subrange(0, i) =~= before);
        assert(whole.subrange(i + 1, whole.len() as int) =~= after);
    }
}

/// No piece of a haystack holds the needle.
pub proof fn lemma_split_clean(haystack: Seq<u8>, needle: u8)
    ensures
        forall|k: int, j: int|
            0 <= k < split(haystack, needle).len() && 0 <= j < split(haystack, needle)[k].len()
                ==> #[trigger] split(haystack, needle)[k][j] != needle,
    decreases haystack.len(),
{
    if exists|at: int| 0 <= at < haystack.len() && haystack[at] == needle {
        let at = choose|at: int| 0 <= at < haystack.len() && haystack[at] == needle;
        let i = lemma_first_occurrence(haystack, needle, at);
        let tail = haystack.subrange(i + 1, haystack.len() as int);
        lemma_split_at_first(haystack, needle, i);
        lemma_split_clean(tail, needle);
    } else {
        lemma_split_whole(haystack, needle);
    }
}

/// Bit `j` of `mask`.
pub open spec fn bit_at(mask: u64, j: int) -> bool {
    0 <= j < 64 && (mask >> (j as u64)) & 1 == 1
}

/// `mask` is the match mask of the lane of `width` bytes that starts at `base`.
pub open spec fn is_lane_mask(
    mask: u64,
    needle: u8,
    haystack: Seq<u8>,
    base: int,
    width: int,
) -> bool {
    forall|j: int|
        0 <= j < 64 ==> (#[trigger] bit_at(mask, j) <==> (j < width && haystack[base + j]
            == needle))
}

/// Taken on trust of `memchr::memchr`: it returns the index of the first
/// occurrence of `needle` in `haystack`, or `None` if it does not occur.
pub assume_specification[ memchr::memchr ](needle: u8, haystack: &[u8]) -> (r: Option<usize>)
    ensures
        is_first_index(haystack@, needle, r),
;

proof fn lemma_empty_mask()
    ensures
        forall|j: int| !#[trigger] bit_at(0, j),
{
    assert forall|j: int| !#[trigger] bit_at(0, j) by {
        lemma_zero_mask(j);
    }
}

proof fn lemma_zero_mask(j: int)
    ensures
        !bit_at(0, j),
{
    if 0 <= j < 64 {
        let k = j as u64;
        assert((0u64 >> k) & 1 == 0) by (bit_vector);
    }
}

proof fn lemma_set_bit(mask: u64, j: u64)
    requires
        j < 64,
    ensures
        forall|k: int| #[trigger]
            bit_at(mask | (1u64 << j), k) == (0 <= k < 64 && (k == j || bit_at(mask, k))),
{
    assert forall|k: int| #[trigger]
        bit_at(mask | (1u64 << j), k) == (0 <= k < 64 && (k == j || bit_at(mask, k))) by {
        if 0 <= k < 64 {
            let ku = k as u64;
            assert(((mask | (1u64 << j)) >> ku) & 1 == (if ku == j {
                1u64
            } else {
                (mask >> ku) & 1
            })) by (bit_vector)
                requires
                    j < 64,
                    ku < 64,
            ;
        }
    }
}

/// The lowest set bit of a non-zero mask is at `trailing_zeros`.
proof fn lemma_lowest_bit(mask: u64)
    requires
        mask != 0,
    ensures
        mask.trailing_zeros() < 64,
        bit_at(mask, mask.trailing_zeros() as int),
        forall|j: int| 0 <= j < mask.trailing_zeros() ==> !bit_at(mask, j),
{
    vstd::std_specs::bits::axiom_u64_trailing_zeros(mask);
}

/// Compares every byte of one lane with the needle and packs the results
/// into a mask, lowest byte in the lowest bit.
fn lane_mask(needle: u8, haystack: &[u8], base: usize, width: usize) -> (mask: u64)
    requires
        width <= 64,
        base + width <= haystack.len(),
    ensures
        is_lane_mask(mask, needle, haystack@, base as int, width as int),
{
    let mut mask: u64 = 0;
    let mut j: usize = 0;
    proof {
        lemma_empty_mask();
    }
    while j < width
        invariant
            j <= width <= 64,
            base + width <= haystack.len(),
            forall|k: int|
                0 <= k < 64 ==> (#[trigger] bit_at(mask, k) <==> (k < j && haystack@[base + k]
                    == needle)),
        decreases width - j,
    {
        if haystack[base + j] == needle {
            proof {
                lemma_set_bit(mask, j as u64);
            }
            mask = mask | (1u64 << (j as u64));
        }
        j += 1;
    }
    mask
}

/// Narrow-lane search: whole lanes of `SSE_LANE_WIDTH` bytes from the start
/// of the haystack, then the remaining bytes one by one.
pub fn sse_fastchr(needle: u8, haystack: &[u8]) -> (r: Option<usize>)
    ensures
        is_first_index(haystack@, needle, r),
{
    let len: usize = haystack.len();
    let mut index: usize = 0;
    while len - index >= SSE_LANE_WIDTH
        invariant
            index <= len == haystack.len(),
            forall|j: int| 0 <= j < index ==> haystack@[j] != needle,
        decreases len - index,
    {
        let mask: u64 = lane_mask(needle, haystack, index, SSE_LANE_WIDTH);
        if mask != 0 {
            proof {
                lemma_lowest_bit(mask);
            }
            let offset: usize = mask.trailing_zeros() as usize;
            assert forall|j: int| 0 <= j < index + offset implies haystack@[j] != needle by {
                if j >= index {
                    assert(!bit_at(mask, j - index));
                }
            }
            return Some(index + offset);
        }
        assert forall|j: int| 0 <= j < index + SSE_LANE_WIDTH implies haystack@[j] != needle by {
            if j >= index {
                lemma_zero_mask(j - index);
            }
        }
        index += SSE_LANE_WIDTH;
    }
    while index < len
        invariant
            index <= len == haystack.len(),
            forall|j: int| 0 <= j < index ==> haystack@[j] != needle,
        decreases len - index,
    {
        if haystack[index] == needle {
            return Some(index);
        }
        index += 1;
    }
    None
}

/// How many bytes lie between the start of `haystack` and the next address
/// that is a multiple of the wide lane, as `pointer::align_offset` reports it.
/// The answer depends on where the buffer sits in memory, and the standard
/// library may decline to answer with `usize::MAX`, so nothing is claimed.
#[verifier::external_body]
fn lane_misalignment(haystack: &[u8]) -> (r: usize) {
    haystack.as_ptr().align_offset(AVX_LANE_WIDTH)
}

/// Length of the run of bytes that is taken one by one before the wide
/// lanes start, when `misalignment` bytes are reported to lie before the
/// next lane boundary and `remaining` bytes are left to search: the least
/// of the misalignment, one byte less than a lane, and what is left. So
/// the run ends at the boundary where one is known and in reach, and is
/// shorter than a lane and inside the haystack in any case.
fn scalar_head(misalignment: usize, remaining: usize) -> (head: usize)
    ensures
        head <= misalignment,
        head <= AVX_LANE_WIDTH - 1,
        head <= remaining,
        head == misalignment || head == AVX_LANE_WIDTH - 1 || head == remaining,
{
    let bounded: usize = if misalignment < AVX_LANE_WIDTH {
        misalignment
    } else {
        AVX_LANE_WIDTH - 1
    };
    if bounded < remaining {
        bounded
    } else {
        remaining
    }
}

/// Wide-lane search: bytes one by one up to the first lane boundary, whole
/// lanes of `AVX_LANE_WIDTH` bytes from there, then the remaining bytes one
/// by one.
pub fn avx_fastchr(needle: u8, haystack: &[u8]) -> (r: Option<usize>)
    ensures
        is_first_index(haystack@, needle, r),
{
    let len: usize = haystack.len();
    let head: usize = scalar_head(lane_misalignment(haystack), len);
    let mut index: usize = 0;
    while index < head
        invariant
            index <= head <= len == haystack.len(),
            forall|j: int| 0 <= j < index ==> haystack@[j] != needle,
        decreases head - index,
    {
        if haystack[index] == needle {
            return Some(index);
        }
        index += 1;
    }
    while len - index >= AVX_LANE_WIDTH
        invariant
            index <= len == haystack.len(),
            forall|j: int| 0 <= j < index ==> haystack@[j] != needle,
        decreases len - index,
    {
        let mask: u64 = lane_mask(needle, haystack, index, AVX_LANE_WIDTH);
        if mask != 0 {
            proof {
                lemma_lowest_bit(mask);
            }
            let offset: usize = mask.trailing_zeros() as usize;
            assert forall|j: int| 0 <= j < index + offset implies haystack@[j] != needle by {
                if j >= index {
                    assert(!bit_at(mask, j - index));
                }
            }
            return Some(index + offset);
        }
        assert forall|j: int| 0 <= j < index + AVX_LANE_WIDTH implies haystack@[j] != needle by {
            if j >= index {
                lemma_zero_mask(j - index);
            }
        }
        index += AVX_LANE_WIDTH;
    }
    while index < len
        invariant
            index <= len == haystack.len(),
            forall|j: int| 0 <= j < index ==> haystack@[j] != needle,
        decreases len - index,
    {
        if haystack[index] == needle {
            return Some(index);
        }
        index += 1;
    }
    None
}

/// The lane width a search uses.
#[derive(Clone, Copy, Debug, PartialEq, Eq, Structural)]
pub enum Lanes {
    /// Lanes of `AVX_LANE_WIDTH` bytes.
    Avx2,
    /// Lanes of `SSE_LANE_WIDTH` bytes.
    Sse2,
    /// No lanes: the search is handed to `memchr`.
    Scalar,
}

/// Index of the first occurrence of `needle` in `haystack`, searched with
/// the given lane width.
pub fn fastchr_with(lanes: Lanes, needle: u8, haystack: &[u8]) -> (r: Option<usize>)
    ensures
        is_first_index(haystack@, needle, r),
{
    match lanes {
        Lanes::Avx2 => avx_fastchr(needle, haystack),
        Lanes::Sse2 => sse_fastchr(needle, haystack),
        Lanes::Scalar => memchr::memchr(needle, haystack),
    }
}

/// Index of the first occurrence of `needle` in `haystack`, or `None` if
/// there is none. This entry point assumes nothing about the processor and
/// uses no lanes; `fastchr_with` searches with a chosen lane width.
pub fn fastchr(needle: u8, haystack: &[u8]) -> (r: Option<usize>)
    ensures
        is_first_index(haystack@, needle, r),
{
    fastchr_with(Lanes::Scalar, needle, haystack)
}

proof fn lemma_clear_lowest_bit(mask: u64)
    requires
        mask != 0,
    ensures
        forall|k: int| #[trigger]
            bit_at(mask & ((mask - 1) as u64), k) == (bit_at(mask, k) && k
                != mask.trailing_zeros()),
{
    vstd::std_specs::bits::axiom_u64_trailing_zeros(mask);
    let t: u64 = mask.trailing_zeros() as u64;
    let shift: u64 = (64 - t) as u64;
    assert forall|k: int| #[trigger]
        bit_at(mask & ((mask - 1) as u64), k) == (bit_at(mask, k) && k != t) by {
        if 0 <= k < 64 {
            let ku = k as u64;
            assert(((mask & ((mask - 1) as u64)) >> ku) & 1 == (if ku == t {
                0u64
            } else {
                (mask >> ku) & 1
            })) by (bit_vector)
                requires
                    t < 64,
                    ku < 64,
                    shift == 64 - t,
                    (mask >> t) & 1 == 1,
                    mask << shift == 0,
            ;
        }
    }
}

proof fn lemma_unit_mask()
    ensures
        forall|k: int| #[trigger] bit_at(1, k) == (k == 0),
{
    assert forall|k: int| #[trigger] bit_at(1, k) == (k == 0) by {
        if 0 <= k < 64 {
            let ku = k as u64;
            assert((1u64 >> ku) & 1 == (if ku == 0 {
                1u64
            } else {
                0u64
            })) by (bit_vector)
                requires
                    ku < 64,
            ;
        }
    }
}

/// A cursor over the positions of a byte in a haystack, in ascending order.
///
/// Matches are found a lane at a time. The matches of the lane read last
/// are kept as a bitmask, and `next` hands them out lowest bit first,
/// reading further only when the mask has run empty.
#[derive(Clone, Debug)]
pub struct Fastchr<'a> {
    needle: u8,
    haystack: &'a [u8],
    position: usize,
    read_size: u8,
    detect_mask: u64,
    lanes: Lanes,
}

impl<'a> Fastchr<'a> {
    /// The byte that is searched for.
    pub closed spec fn needle(&self) -> u8 {
        self.needle
    }

    /// The bytes that are searched.
    pub closed spec fn haystack(&self) -> Seq<u8> {
        self.haystack@
    }

    /// The lane width in use.
    pub closed spec fn lanes(&self) -> Lanes {
        self.lanes
    }

    /// Offset, in the lane read last, of the first byte not yet accounted for.
    spec fn pending_offset(&self) -> int {
        if self.detect_mask == 0 {
            self.read_size as int
        } else {
            self.detect_mask.trailing_zeros() as int
        }
    }

    /// Every match below this index has been handed out; none at or above
    /// it has.
    pub closed spec fn cursor(&self) -> int {
        self.position - self.read_size + self.pending_offset()
    }

    /// The mask holds matches of the lane read last, and all of them from
    /// the pending offset on.
    pub closed spec fn wf(&self) -> bool {
        &&& self.read_size <= 64
        &&& self.read_size <= self.position <= self.haystack@.len()
        &&& forall|j: int| #[trigger]
            bit_at(self.detect_mask, j) ==> j < self.read_size && self.haystack@[self.position
                - self.read_size + j] == self.needle
        &&& forall|j: int|
            self.pending_offset() <= j < self.read_size && self.haystack@[self.position
                - self.read_size + j] == self.needle ==> #[trigger] bit_at(self.detect_mask, j)
    }

    /// A well-formed cursor stays inside the haystack.
    pub proof fn lemma_cursor_in_bounds(&self)
        requires
            self.wf(),
        ensures
            0 <= self.cursor() <= self.haystack().len(),
    {
        if self.detect_mask != 0 {
            lemma_lowest_bit(self.detect_mask);
        }
    }

    /// A cursor at the start of `haystack` that will yield every position
    /// of `needle`. It uses no lanes; see `with_lanes`.
    pub fn new(needle: u8, haystack: &'a [u8]) -> (r: Fastchr<'a>)
        ensures
            r.wf(),
            r.needle() == needle,
            r.haystack() == haystack@,
            r.lanes() == Lanes::Scalar,
            r.cursor() == 0,
    {
        Fastchr::with_lanes(Lanes::Scalar, needle, haystack)
    }

    /// A cursor at the start of `haystack` that reads with the given lane
    /// width.
    pub fn with_lanes(lanes: Lanes, needle: u8, haystack: &'a [u8]) -> (r: Fastchr<'a>)
        ensures
            r.wf(),
            r.needle() == needle,
            r.haystack() == haystack@,
            r.lanes() == lanes,
            r.cursor() == 0,
    {
        proof {
            lemma_empty_mask();
        }
        Fastchr { needle, haystack, position: 0, read_size: 0, detect_mask: 0, lanes }
    }

    /// Makes the lane of `width` bytes at the current position the lane read
    /// last.
    fn read_lane(&mut self, width: usize)
        requires
            old(self).wf(),
            old(self).detect_mask == 0,
            width <= 64,
            old(self).position + width <= old(self).haystack@.len(),
        ensures
            final(self).wf(),
            final(self).needle == old(self).needle,
            final(self).haystack == old(self).haystack,
            final(self).lanes == old(self).lanes,
            final(self).position == old(self).position + width,
            final(self).read_size == width,
            is_lane_mask(
                final(self).detect_mask,
                old(self).needle,
                old(self).haystack@,
                old(self).position as int,
                width as int,
            ),
            old(self).position <= final(self).cursor(),
            forall|j: int|
                old(self).position <= j < final(self).cursor() ==> old(self).haystack@[j] != old(
                    self,
                ).needle,
    {
        let len: usize = self.haystack.len();
        let mask: u64 = lane_mask(self.needle, self.haystack, self.position, width);
        let ghost base: int = self.position as int;
        self.position = self.position + width;
        self.read_size = width as u8;
        self.detect_mask = mask;
        proof {
            if mask != 0 {
                lemma_lowest_bit(mask);
            }
            assert forall|j: int| #[trigger] bit_at(mask, j) implies j < width
                && self.haystack@[base + j] == self.needle by {}
            assert forall|j: int| base <= j < self.cursor() implies self.haystack@[j]
                != self.needle by {
                assert(!bit_at(mask, j - base)) by {
                    if mask == 0 {
                        lemma_zero_mask(j - base);
                    }
                }
            }
        }
    }

    /// Reads with wide lanes until a lane holds a match or the haystack is
    /// used up: first the bytes up to the next lane boundary, then whole
    /// lanes, then what is left.
    fn avx_read_to_mask(&mut self)
        requires
            old(self).wf(),
            old(self).detect_mask == 0,
            old(self).position < old(self).haystack@.len(),
        ensures
            final(self).wf(),
            final(self).needle == old(self).needle,
            final(self).haystack == old(self).haystack,
            final(self).lanes == old(self).lanes,
            final(self).position > old(self).position,
            old(self).position <= final(self).cursor(),
            forall|j: int|
                old(self).position <= j < final(self).cursor() ==> old(self).haystack@[j] != old(
                    self,
                ).needle,
    {
        let len: usize = self.haystack.len();
        let rest: &[u8] = vstd::slice::slice_subrange(self.haystack, self.position, len);
        let head: usize = scalar_head(lane_misalignment(rest), len - self.position);
        if head > 0 {
            self.read_lane(head);
            return ;
        }
        while len - self.position >= AVX_LANE_WIDTH
            invariant
                self.wf(),
                self.detect_mask == 0,
                self.needle == old(self).needle,
                self.haystack == old(self).haystack,
                self.lanes == old(self).lanes,
                len == self.haystack@.len(),
                old(self).position <= self.position <= len,
                forall|j: int|
                    old(self).position <= j < self.position ==> self.haystack@[j] != self.needle,
            decreases len - self.position,
        {
            self.read_lane(AVX_LANE_WIDTH);
            if self.detect_mask != 0 {
                return ;
            }
        }
        let rest: usize = len - self.position;
        self.read_lane(rest);
    }

    /// Reads with narrow lanes until a lane holds a match or the haystack is
    /// used up: whole lanes, then what is left.
    fn sse_read_to_mask(&mut self)
        requires
            old(self).wf(),
            old(self).detect_mask == 0,
            old(self).position < old(self).haystack@.len(),
        ensures
            final(self).wf(),
            final(self).needle == old(self).needle,
            final(self).haystack == old(self).haystack,
            final(self).lanes == old(self).lanes,
            final(self).position > old(self).position,
            old(self).position <= final(self).cursor(),
            forall|j: int|
                old(self).position <= j < final(self).cursor() ==> old(self).haystack@[j] != old(
                    self,
                ).needle,
    {
        let len: usize = self.haystack.len();
        while len - self.position >= SSE_LANE_WIDTH
            invariant
                self.wf(),
                self.detect_mask == 0,
                self.needle == old(self).needle,
                self.haystack == old(self).haystack,
                self.lanes == old(self).lanes,
                len == self.haystack@.len(),
                old(self).position <= self.position <= len,
                forall|j: int|
                    old(self).position <= j < self.position ==> self.haystack@[j] != self.needle,
            decreases len - self.position,
        {
            self.read_lane(SSE_LANE_WIDTH);
            if self.detect_mask != 0 {
                return ;
            }
        }
        let rest: usize = len - self.position;
        self.read_lane(rest);
    }

    /// Reads without lanes: `memchr` finds the next match, which becomes a
    /// lane of one byte, or the end of the haystack is reached.
    fn fallback_read_to_mask(&mut self)
        requires
            old(self).wf(),
            old(self).detect_mask == 0,
            old(self).position < old(self).haystack@.len(),
        ensures
            final(self).wf(),
            final(self).needle == old(self).needle,
            final(self).haystack == old(self).haystack,
            final(self).lanes == old(self).lanes,
            final(self).position > old(self).position,
            old(self).position <= final(self).cursor(),
            forall|j: int|
                old(self).position <= j < final(self).cursor() ==> old(self).haystack@[j] != old(
                    self,
                ).needle,
    {
        let len: usize = self.haystack.len();
        let ghost start: int = self.position as int;
        let rest: &[u8] = vstd::slice::slice_subrange(self.haystack, self.position, len);
        match memchr::memchr(self.needle, rest) {
            Some(u) => {
                self.position = self.position + u + 1;
                self.read_size = 1;
                self.detect_mask = 1;
                proof {
                    lemma_unit_mask();
                    lemma_lowest_bit(1);
                    assert(self.haystack@[start + u] == rest@[u as int]);
                    assert forall|j: int| start <= j < self.cursor() implies self.haystack@[j]
                        != self.needle by {
                        assert(self.haystack@[j] == rest@[j - start]);
                    }
                }
            },
            None => {
                self.position = len;
                self.read_size = 0;
                proof {
                    lemma_empty_mask();
                    assert forall|j: int| start <= j < self.cursor() implies self.haystack@[j]
                        != self.needle by {
                        assert(self.haystack@[j] == rest@[j - start]);
                    }
                }
            },
        }
    }

    /// Refills the mask with the lane width of this cursor.
    fn read_to_mask(&mut self)
        requires
            old(self).wf(),
            old(self).detect_mask == 0,
            old(self).position < old(self).haystack@.len(),
        ensures
            final(self).wf(),
            final(self).needle == old(self).needle,
            final(self).haystack == old(self).haystack,
            final(self).lanes == old(self).lanes,
            final(self).position > old(self).position,
            old(self).position <= final(self).cursor(),
            forall|j: int|
                old(self).position <= j < final(self).cursor() ==> old(self).haystack@[j] != old(
                    self,
                ).needle,
    {
        match self.lanes {
            Lanes::Avx2 => self.avx_read_to_mask(),
            Lanes::Sse2 => self.sse_read_to_mask(),
            Lanes::Scalar => self.fallback_read_to_mask(),
        }
    }

    /// The next position of the needle: the least match at or after the
    /// cursor, which then moves past it. `None` once no match is left, and
    /// from then on always `None`.
    pub fn next(&mut self) -> (r: Option<usize>)
        requires
            old(self).wf(),
        ensures
            final(self).wf(),
            final(self).needle() == old(self).needle(),
            final(self).haystack() == old(self).haystack(),
            final(self).lanes() == old(self).lanes(),
            match r {
                Some(i) => {
                    &&& old(self).cursor() <= i < final(self).cursor() <= old(self).haystack().len()
                    &&& old(self).haystack()[i as int] == old(self).needle()
                    &&& forall|j: int|
                        old(self).cursor() <= j < final(self).cursor() && j != i ==> old(
                            self,
                        ).haystack()[j] != old(self).needle()
                },
                None => {
                    &&& final(self).cursor() == old(self).haystack().len()
                    &&& forall|j: int|
                        old(self).cursor() <= j < old(self).haystack().len() ==> old(
                            self,
                        ).haystack()[j] != old(self).needle()
                },
            },
    {
        let len: usize = self.haystack.len();
        proof {
            self.lemma_cursor_in_bounds();
        }
        while self.detect_mask == 0 && self.position < len
            invariant
                self.wf(),
                self.needle == old(self).needle,
                self.haystack == old(self).haystack,
                self.lanes == old(self).lanes,
                len == self.haystack@.len(),
                old(self).cursor() <= self.cursor() <= len,
                forall|j: int|
                    old(self).cursor() <= j < self.cursor() ==> self.haystack@[j] != self.needle,
            decreases len - self.position,
        {
            self.read_to_mask();
            proof {
                self.lemma_cursor_in_bounds();
            }
        }
        if self.detect_mask != 0 {
            let mask: u64 = self.detect_mask;
            let mask_pos: usize = mask.trailing_zeros() as usize;
            proof {
                lemma_lowest_bit(mask);
                lemma_clear_lowest_bit(mask);
            }
            self.detect_mask = mask & (mask - 1);
            let found: usize = self.position - self.read_size as usize + mask_pos;
            proof {
                if self.detect_mask != 0 {
                    lemma_lowest_bit(self.detect_mask);
                }
                let base: int = self.position - self.read_size;
                assert forall|j: int|
                    old(self).cursor() <= j < self.cursor() && j != found implies old(
                    self,
                ).haystack()[j] != old(self).needle() by {
                    if j > found {
                        assert(!bit_at(self.detect_mask, j - base)) by {
                            if self.detect_mask == 0 {
                                lemma_zero_mask(j - base);
                            }
                        }
                    }
                }
            }
            Some(found)
        } else {
            None
        }
    }

    /// Bounds on how many positions are still to come: none at least, and
    /// at most one for each byte of the haystack.
    pub fn size_hint(&self) -> (r: (usize, Option<usize>))
        ensures
            r == (0usize, Some(self.haystack().len() as usize)),
    {
        (0, Some(self.haystack.len()))
    }

    /// Every position still to come, in the order `next` would give them.
    pub fn collect(self) -> (found: Vec<usize>)
        requires
            self.wf(),
        ensures
            is_match_list(self.haystack(), self.needle(), self.cursor(), found@),
    {
        let ghost start: int = self.cursor();
        let ghost haystack: Seq<u8> = self.haystack@;
        let ghost needle: u8 = self.needle;
        let mut cursor: Fastchr<'a> = self;
        let mut found: Vec<usize> = Vec::new();
        proof {
            cursor.lemma_cursor_in_bounds();
        }
        loop
            invariant_except_break
                cursor.wf(),
                cursor.haystack@ == haystack,
                cursor.needle == needle,
                start <= cursor.cursor() <= haystack.len(),
                forall|k: int|
                    0 <= k < found@.len() ==> start <= #[trigger] found@[k] < cursor.cursor()
                        && haystack[found@[k] as int] == needle,
                forall|k: int, l: int| 0 <= k < l < found@.len() ==> found@[k] < found@[l],
                forall|i: int|
                    start <= i < cursor.cursor() && haystack[i] == needle ==> exists|k: int|
                        0 <= k < found@.len() && #[trigger] found@[k] == i,
            ensures
                is_match_list(haystack, needle, start, found@),
            decreases haystack.len() - cursor.cursor(),
        {
            let ghost before: int = cursor.cursor();
            let ghost listed: Seq<usize> = found@;
            match cursor.next() {
                Some(i) => {
                    found.push(i);
                    proof {
                        assert forall|j: int|
                            start <= j < cursor.cursor() && haystack[j] == needle implies exists|
                            k: int,
                        | 0 <= k < found@.len() && #[trigger] found@[k] == j by {
                            if j < before {
                                let k = choose|k: int|
                                    0 <= k < listed.len() && #[trigger] listed[k] == j;
                                assert(found@[k] == j);
                            } else {
                                assert(found@[listed.len() as int] == j);
                            }
                        }
                    }
                },
                None => {
                    break ;
                },
            }
        }
        found
    }
}

/// A cursor over the pieces of a haystack that lie between occurrences of
/// a byte. The byte itself is in none of the pieces.
#[derive(Clone, Debug)]
pub struct FastchrSplit<'a> {
    needle: u8,
    haystack: &'a [u8],
    finished: bool,
    lanes: Lanes,
}

impl<'a> FastchrSplit<'a> {
    /// The byte that separates the pieces.
    pub closed spec fn needle(&self) -> u8 {
        self.needle
    }

    /// The part of the haystack that has not been cut into pieces yet.
    pub closed spec fn remainder(&self) -> Seq<u8> {
        self.haystack@
    }

    /// Whether the last piece has been handed out.
    pub closed spec fn finished(&self) -> bool {
        self.finished
    }

    /// The pieces still to come.
    pub open spec fn pieces(&self) -> Seq<Seq<u8>> {
        if self.finished() {
            Seq::empty()
        } else {
            split(self.remainder(), self.needle())
        }
    }

    /// A cursor over the pieces of `haystack` separated by `needle`. It
    /// searches without lanes; see `with_lanes`.
    pub fn new(needle: u8, haystack: &'a [u8]) -> (r: FastchrSplit<'a>)
        ensures
            r.needle() == needle,
            r.remainder() == haystack@,
            !r.finished(),
    {
        FastchrSplit::with_lanes(Lanes::Scalar, needle, haystack)
    }

    /// A cursor over the pieces of `haystack` separated by `needle` that
    /// searches with the given lane width.
    pub fn with_lanes(lanes: Lanes, needle: u8, haystack: &'a [u8]) -> (r: FastchrSplit<'a>)
        ensures
            r.needle() == needle,
            r.remainder() == haystack@,
            !r.finished(),
    {
        FastchrSplit { needle, haystack, finished: false, lanes }
    }

    /// The next piece. The piece after the last needle, which may be empty,
    /// comes once; after it, always `None`.
    pub fn next(&mut self) -> (r: Option<&'a [u8]>)
        ensures
            final(self).needle() == old(self).needle(),
            match r {
                Some(piece) => {
                    &&& old(self).pieces().len() > 0
                    &&& piece@ == old(self).pieces()[0]
                    &&& final(self).pieces() == old(self).pieces().drop_first()
                },
                None => old(self).finished() && final(self).finished(),
            },
    {
        if self.finished {
            None
        } else {
            let whole: &'a [u8] = self.haystack;
            let len: usize = whole.len();
            match fastchr_with(self.lanes, self.needle, whole) {
                None => {
                    self.finished = true;
                    self.haystack = vstd::slice::slice_subrange(whole, len, len);
                    proof {
                        lemma_split_whole(whole@, self.needle);
                    }
                    Some(whole)
                },
                Some(i) => {
                    let piece: &'a [u8] = vstd::slice::slice_subrange(whole, 0, i);
                    self.haystack = vstd::slice::slice_subrange(whole, i + 1, len);
                    proof {
                        lemma_split_at_first(whole@, self.needle, i as int);
                    }
                    Some(piece)
                },
            }
        }
    }

    /// Bounds on how many pieces are still to come.
    pub fn size_hint(&self) -> (r: (usize, Option<usize>))
        ensures
            self.finished() ==> r == (0usize, Some(0usize)),
            !self.finished() && self.remainder().len() < usize::MAX ==> r == (
                1usize,
                Some((self.remainder().len() + 1) as usize),
            ),
            !self.finished() && self.remainder().len() >= usize::MAX ==> r == (
                1usize,
                None::<usize>,
            ),
    {
        if self.finished {
            (0, Some(0))
        } else {
            (1, self.haystack.len().checked_add(1))
        }
    }

    /// Every piece still to come, in order.
    pub fn collect(self) -> (found: Vec<&'a [u8]>)
        ensures
            found@.len() == self.pieces().len(),
            forall|k: int| 0 <= k < found@.len() ==> (#[trigger] found@[k])@ == self.pieces()[k],
    {
        let ghost all: Seq<Seq<u8>> = self.pieces();
        let mut cursor: FastchrSplit<'a> = self;
        let mut found: Vec<&'a [u8]> = Vec::new();
        loop
            invariant_except_break
                found@.len() <= all.len(),
                forall|k: int| 0 <= k < found@.len() ==> (#[trigger] found@[k])@ == all[k],
                cursor.pieces() == all.subrange(found@.len() as int, all.len() as int),
            ensures
                found@.len() == all.len(),
                forall|k: int| 0 <= k < found@.len() ==> (#[trigger] found@[k])@ == all[k],
            decreases all.len() - found@.len(),
        {
            match cursor.next() {
                Some(piece) => {
                    found.push(piece);
                },
                None => {
                    break ;
                },
            }
        }
        found
    }
}

} // verus!
