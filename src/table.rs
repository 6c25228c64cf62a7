//! The segment table: the header that gives a message's segment count and
//! the word length of each segment.
use crate::le::{le_u32, read_u32_at};
use vstd::prelude::*;

verus! {

/// The largest number of segments a message may have, plus one.
pub const SEGMENT_LIMIT: u32 = 512;

/// Why a byte stream could not be decoded into a message.
#[derive(Debug, Clone, Copy, PartialEq, Eq, Structural)]
pub enum FramingError {
    /// The stream ended in the middle of a message.
    PrematureEof,
    /// The header declares no segments or too many; the count is given.
    InvalidSegmentCount(u32),
}

/// The segment count declared by a header: one more than its first field,
/// wrapping around.
pub open spec fn segment_count(b: Seq<u8>) -> u32 {
    le_u32(b.subrange(0, 4)).wrapping_add(1)
}

/// A segment count that a message may declare.
pub open spec fn valid_segment_count(c: int) -> bool {
    1 <= c < SEGMENT_LIMIT
}

/// The number of bytes of the header of a message of `c` segments: a field
/// of four bytes for the count and one per segment, padded to whole words.
pub open spec fn header_len(c: int) -> int {
    8 * ((c + 2) / 2)
}

/// The word length that a header gives to segment `i`.
pub open spec fn segment_len(b: Seq<u8>, i: int) -> int {
    le_u32(b.subrange(4 * i + 4, 4 * i + 8)) as int
}

/// The word lengths of the first `c` segments that a header gives.
pub open spec fn segment_lengths(b: Seq<u8>, c: int) -> Seq<int> {
    Seq::new(c as nat, |i: int| segment_len(b, i))
}

/// The word offset at which segment `i` starts: the sum of the lengths of the
/// segments before it.
pub open spec fn offset(lens: Seq<int>, i: int) -> int
    decreases i,
{
    if i <= 0 {
        0
    } else {
        offset(lens, i - 1) + lens[i - 1]
    }
}

/// Where each segment lies in one buffer that holds all of them in order.
pub struct SegmentLayout {
    /// For each segment, its start and end as word offsets.
    pub slices: Vec<(u64, u64)>,
    /// The number of words of all segments together.
    pub total_words: u64,
}

impl SegmentLayout {
    /// The word length of each segment.
    pub open spec fn lengths(&self) -> Seq<int> {
        Seq::new(self.slices@.len(), |i: int| self.slices@[i].1 - self.slices@[i].0)
    }

    /// The layout places segments of the given lengths one after another,
    /// from offset zero.
    pub open spec fn describes(&self, lens: Seq<int>) -> bool {
        &&& self.slices@.len() == lens.len()
        &&& forall|i: int|
            0 <= i < lens.len() ==> #[trigger] self.slices@[i] == (
            offset(lens, i) as u64,
            offset(lens, i + 1) as u64,
        ) && offset(lens, i + 1) <= u64::MAX
        &&& self.total_words == offset(lens, lens.len() as int)
    }

    pub open spec fn wf(&self) -> bool {
        &&& forall|i: int|
            0 <= i < self.slices@.len() ==> #[trigger] self.slices@[i].0 <= self.slices@[i].1
        &&& self.describes(self.lengths())
    }
}

/// The offsets of segments whose lengths are all fields of four bytes grow
/// by at most one such field per segment.
pub proof fn lemma_offset_bound(lens: Seq<int>, i: int)
    requires
        0 <= i <= lens.len(),
        forall|j: int| 0 <= j < lens.len() ==> 0 <= #[trigger] lens[j] <= u32::MAX,
    ensures
        0 <= offset(lens, i) <= i * u32::MAX,
    decreases i,
{
    if i > 0 {
        lemma_offset_bound(lens, i - 1);
        assert(offset(lens, i - 1) + lens[i - 1] <= (i - 1) * u32::MAX + u32::MAX);
        assert((i - 1) * u32::MAX + u32::MAX == i * u32::MAX) by (nonlinear_arith);
    }
}

/// The offsets are sums of non-negative lengths, so they never go down.
pub proof fn lemma_offset_monotone(lens: Seq<int>, i: int, j: int)
    requires
        0 <= i <= j <= lens.len(),
        forall|k: int| 0 <= k < lens.len() ==> 0 <= #[trigger] lens[k],
    ensures
        offset(lens, i) <= offset(lens, j),
    decreases j,
{
    if i < j {
        lemma_offset_monotone(lens, i, j - 1);
    }
}

/// In a well-formed layout each segment starts at or after offset zero and
/// ends within the buffer.
pub proof fn lemma_offset_nonneg(lens: Seq<int>, i: int)
    requires
        0 <= i < lens.len(),
        forall|k: int| 0 <= k < lens.len() ==> 0 <= #[trigger] lens[k],
    ensures
        0 <= offset(lens, i) <= offset(lens, i + 1) <= offset(lens, lens.len() as int),
{
    lemma_offset_monotone(lens, 0, i);
    lemma_offset_monotone(lens, i + 1, lens.len() as int);
}

/// The segment count declared by the first word of a header, or the error
/// when that count is zero or too large.
pub fn read_segment_count(first: &[u8]) -> (r: Result<usize, FramingError>)
    requires
        first@.len() >= 4,
    ensures
        valid_segment_count(segment_count(first@) as int) ==> r == Ok::<usize, FramingError>(
            segment_count(first@) as usize,
        ),
        !valid_segment_count(segment_count(first@) as int) ==> r == Err::<usize, FramingError>(
            FramingError::InvalidSegmentCount(segment_count(first@)),
        ),
{
    let count = read_u32_at(first, 0).wrapping_add(1);
    if count == 0 || count >= SEGMENT_LIMIT {
        Err(FramingError::InvalidSegmentCount(count))
    } else {
        Ok(count as usize)
    }
}

/// The number of bytes of the header of a message of `segment_count`
/// segments: `((segment_count + 2) & !1) * 4`.
pub fn segment_table_len(segment_count: usize) -> (r: usize)
    requires
        header_len(segment_count as int) <= usize::MAX,
    ensures
        r == header_len(segment_count as int),
        r as u64 == (((segment_count as u64 + 2) as u64) & !1u64) * 4,
{
    let m: u64 = segment_count as u64 + 2;
    assert(m & !1u64 == m - m % 2) by (bit_vector);
    ((m & !1u64) * 4) as usize
}

/// The number of header bytes that follow the first word, for a message of
/// `segment_count` segments.
pub fn remaining_table_len(segment_count: usize) -> (r: usize)
    requires
        valid_segment_count(segment_count as int),
    ensures
        r == header_len(segment_count as int) - 8,
{
    let c = segment_count as u32;
    assert(c & !1u32 == c - c % 2) by (bit_vector);
    4 * ((c & !1u32) as usize)
}

/// The layout of the segments that a whole header declares.
pub fn parse_segment_table(header: &[u8]) -> (r: SegmentLayout)
    requires
        header@.len() >= 8,
        valid_segment_count(segment_count(header@) as int),
        header@.len() >= header_len(segment_count(header@) as int),
    ensures
        r.wf(),
        r.lengths() == segment_lengths(header@, segment_count(header@) as int),
{
    let count = segment_count_of(header);
    let ghost lens = segment_lengths(header@, count as int);
    let first_len = read_u32_at(header, 4) as u64;
    let mut slices: Vec<(u64, u64)> = Vec::new();
    slices.push((0, first_len));
    let mut total: u64 = first_len;
    let mut idx: usize = 1;
    proof {
        assert(offset(lens, 0) == 0);
        assert(offset(lens, 1) == lens[0]);
    }
    while idx < count
        invariant
            1 <= idx <= count < SEGMENT_LIMIT,
            count == segment_count(header@),
            header@.len() >= header_len(count as int),
            lens == segment_lengths(header@, count as int),
            slices@.len() == idx,
            forall|j: int|
                0 <= j < idx ==> #[trigger] slices@[j] == (
                offset(lens, j) as u64,
                offset(lens, j + 1) as u64,
            ) && offset(lens, j + 1) <= u64::MAX,
            total == offset(lens, idx as int),
            total <= idx * 0xffff_ffffu64,
        decreases count - idx,
    {
        let len = read_u32_at(header, 4 * idx + 4) as u64;
        assert(total + len <= (idx + 1) * 0xffff_ffffu64) by (nonlinear_arith)
            requires
                total <= idx * 0xffff_ffffu64,
                len <= 0xffff_ffffu64,
        ;
        slices.push((total, total + len));
        total = total + len;
        idx = idx + 1;
    }
    let r = SegmentLayout { slices, total_words: total };
    assert forall|j: int| 0 <= j < lens.len() implies 0 <= #[trigger] lens[j] <= u32::MAX by {}
    assert forall|j: int| 0 <= j < lens.len() implies #[trigger] r.lengths()[j] == lens[j]
        && r.slices@[j].0 <= r.slices@[j].1 by {
        lemma_offset_bound(lens, j);
    }
    assert(r.lengths() =~= lens);
    r
}

/// The segment count of a header whose count is known to be valid.
fn segment_count_of(header: &[u8]) -> (r: usize)
    requires
        header@.len() >= 4,
        valid_segment_count(segment_count(header@) as int),
    ensures
        r == segment_count(header@),
{
    read_u32_at(header, 0).wrapping_add(1) as usize
}

} // verus!
