//! Reading a whole message from the front of a byte stream.
use crate::encode::{
    concat, encode, lemma_concat_prefix, lens_of, table_bytes, words_bytes,
};
use crate::le::{lemma_u32_round_trip, lemma_u64_round_trip, u32_le_bytes, u64_le_bytes};
use crate::store::{split, words_of, OwnedSegments};
use crate::table::{
    header_len, offset, parse_segment_table, read_segment_count, remaining_table_len,
    segment_count, segment_len, segment_lengths, valid_segment_count, FramingError,
};
use vstd::prelude::*;

verus! {

/// What the front of a byte stream decodes to: nothing where the stream is
/// empty, else a message's segments and the number of bytes it takes up, or
/// the reason why the stream holds no whole, valid message.
pub open spec fn decode(b: Seq<u8>) -> Result<Option<(Seq<Seq<u64>>, int)>, FramingError> {
    if b.len() == 0 {
        Ok(None)
    } else if b.len() < 8 {
        Err(FramingError::PrematureEof)
    } else if !valid_segment_count(segment_count(b) as int) {
        Err(FramingError::InvalidSegmentCount(segment_count(b)))
    } else {
        let c = segment_count(b) as int;
        let h = header_len(c);
        if b.len() < h {
            Err(FramingError::PrematureEof)
        } else {
            let lens = segment_lengths(b, c);
            let end = h + 8 * offset(lens, c);
            if b.len() < end {
                Err(FramingError::PrematureEof)
            } else {
                Ok(Some((split(words_of(b.subrange(h, end)), lens), end)))
            }
        }
    }
}

/// What the front of a byte stream decodes to where a message must be there:
/// an empty stream ends too early.
pub open spec fn decode_required(b: Seq<u8>) -> Result<(Seq<Seq<u64>>, int), FramingError> {
    match decode(b) {
        Ok(Some(m)) => Ok(m),
        Ok(None) => Err(FramingError::PrematureEof),
        Err(e) => Err(e),
    }
}

/// The segments and length of a message that was read, or the error.
pub open spec fn read_view(r: Result<(OwnedSegments, usize), FramingError>) -> Result<
    (Seq<Seq<u64>>, int),
    FramingError,
> {
    match r {
        Ok((s, n)) => Ok((s@, n as int)),
        Err(e) => Err(e),
    }
}

/// The segments and length of a message that was read, nothing, or the error.
pub open spec fn try_read_view(r: Result<Option<(OwnedSegments, usize)>, FramingError>) -> Result<
    Option<(Seq<Seq<u64>>, int)>,
    FramingError,
> {
    match r {
        Ok(Some((s, n))) => Ok(Some((s@, n as int))),
        Ok(None) => Ok(None),
        Err(e) => Err(e),
    }
}

/// Reads the message at the front of `bytes`. Gives `None` where `bytes` is
/// empty; else the message's segments and the number of bytes it takes up.
pub fn try_read_message(bytes: &[u8]) -> (r: Result<Option<(OwnedSegments, usize)>, FramingError>)
    ensures
        try_read_view(r) == decode(bytes@),
        r matches Ok(Some((s, _))) ==> s.wf(),
{
    let len = bytes.len();
    if len == 0 {
        return Ok(None);
    }
    if len < 8 {
        return Err(FramingError::PrematureEof);
    }
    let count = match read_segment_count(bytes) {
        Ok(c) => c,
        Err(e) => {
            return Err(e);
        },
    };
    let h = remaining_table_len(count) + 8;
    if len < h {
        return Err(FramingError::PrematureEof);
    }
    let header = vstd::slice::slice_subrange(bytes, 0, h);
    let ghost c = count as int;
    let ghost lens = segment_lengths(bytes@, c);
    proof {
        assert(header@.subrange(0, 4) =~= bytes@.subrange(0, 4));
        assert forall|i: int| 0 <= i < c implies #[trigger] segment_len(header@, i) == segment_len(
            bytes@,
            i,
        ) by {
            assert(4 * i + 8 <= header_len(c));
            assert(header@.subrange(4 * i + 4, 4 * i + 8) =~= bytes@.subrange(4 * i + 4, 4 * i + 8));
        }
        assert(segment_lengths(header@, c) =~= lens);
    }
    let layout = parse_segment_table(header);
    let total = layout.total_words;
    let avail = (len - h) as u64;
    if total > avail / 8 {
        return Err(FramingError::PrematureEof);
    }
    let end = h + 8 * (total as usize);
    let body = vstd::slice::slice_subrange(bytes, h, end);
    let store = OwnedSegments::from_body(layout, body);
    Ok(Some((store, end)))
}

/// Reads the message at the front of `bytes`, which must hold one: its
/// segments and the number of bytes it takes up.
pub fn read_message(bytes: &[u8]) -> (r: Result<(OwnedSegments, usize), FramingError>)
    ensures
        read_view(r) == decode_required(bytes@),
        r matches Ok((s, _)) ==> s.wf(),
{
    match try_read_message(bytes) {
        Ok(Some(m)) => Ok(m),
        Ok(None) => Err(FramingError::PrematureEof),
        Err(e) => Err(e),
    }
}

/// Reading back the bytes of a run of words gives the words.
pub proof fn lemma_words_round_trip(w: Seq<u64>)
    ensures
        words_of(words_bytes(w)) == w,
{
    let b = words_bytes(w);
    assert(b.len() / 8 == w.len());
    assert forall|i: int| 0 <= i < w.len() implies #[trigger] words_of(b)[i] == w[i] by {
        assert forall|j: int| 0 <= j < 8 implies b.subrange(8 * i, 8 * i + 8)[j] == u64_le_bytes(
            w[i],
        )[j] by {
            assert((8 * i + j) / 8 == i && (8 * i + j) % 8 == j);
        }
        assert(b.subrange(8 * i, 8 * i + 8) =~= u64_le_bytes(w[i]));
        lemma_u64_round_trip(w[i]);
    }
    assert(words_of(b) =~= w);
}

/// Splitting the words of all segments by their lengths gives the segments.
pub proof fn lemma_split_concat(segs: Seq<Seq<u64>>)
    ensures
        split(concat(segs), lens_of(segs)) == segs,
{
    let lens = lens_of(segs);
    let w = concat(segs);
    assert forall|i: int| 0 <= i < segs.len() implies #[trigger] split(w, lens)[i] == segs[i] by {
        lemma_concat_prefix(segs, i);
        lemma_concat_prefix(segs, i + 1);
        assert(segs.take(i + 1).drop_last() =~= segs.take(i));
        let a = concat(segs.take(i));
        assert(concat(segs.take(i + 1)) == a + segs[i]);
        assert(w.subrange(offset(lens, i), offset(lens, i + 1)) =~= (a + segs[i]).subrange(
            a.len() as int,
            (a.len() + segs[i].len()) as int,
        ));
        assert((a + segs[i]).subrange(a.len() as int, (a.len() + segs[i].len()) as int) =~= segs[i]);
    }
    assert(split(w, lens) =~= segs);
}

/// Round trip: the bytes written for a message of one to 511 segments, each
/// of a length that fits the table, read back as the same segments and take
/// up exactly their own length, whatever follows them in the stream.
pub proof fn lemma_round_trip(segs: Seq<Seq<u64>>, rest: Seq<u8>)
    requires
        1 <= segs.len() < 512,
        forall|i: int| 0 <= i < segs.len() ==> #[trigger] segs[i].len() <= u32::MAX,
    ensures
        decode(encode(segs) + rest) == Ok::<Option<(Seq<Seq<u64>>, int)>, FramingError>(
            Some((segs, encode(segs).len() as int)),
        ),
{
    let lens = lens_of(segs);
    let n = segs.len() as int;
    let t = table_bytes(lens);
    let w = concat(segs);
    let body = words_bytes(w);
    let b = encode(segs) + rest;
    let h = header_len(n);
    assert(t.len() == h);
    assert(b.subrange(0, 4) =~= u32_le_bytes((n - 1) as u32));
    lemma_u32_round_trip((n - 1) as u32);
    assert(segment_count(b) == n);
    assert forall|i: int| 0 <= i < n implies #[trigger] segment_len(b, i) == lens[i] by {
        assert forall|j: int| 0 <= j < 4 implies #[trigger] b.subrange(4 * i + 4, 4 * i + 8)[j] == u32_le_bytes(
            lens[i] as u32,
        )[j] by {
            let k = 4 * i + 4 + j;
            assert(k / 4 - 1 == i && k % 4 == j);
            assert(b[k] == t[k]);
        }
        assert(b.subrange(4 * i + 4, 4 * i + 8) =~= u32_le_bytes(lens[i] as u32));
        lemma_u32_round_trip(lens[i] as u32);
    }
    assert(segment_lengths(b, n) =~= lens);
    lemma_concat_prefix(segs, n);
    assert(segs.take(n) =~= segs);
    let end = h + 8 * offset(lens, n);
    assert(b.subrange(h, end) =~= body);
    lemma_words_round_trip(w);
    lemma_split_concat(segs);
}

/// An empty stream holds no message, which the optional read reports as
/// nothing and the required read as an early end; a stream of one to seven
/// bytes ends inside a header, an error for both.
pub proof fn lemma_end_of_stream(b: Seq<u8>)
    requires
        b.len() < 8,
    ensures
        b.len() == 0 ==> decode(b) == Ok::<Option<(Seq<Seq<u64>>, int)>, FramingError>(None),
        b.len() == 0 ==> decode_required(b) == Err::<(Seq<Seq<u64>>, int), FramingError>(
            FramingError::PrematureEof,
        ),
        b.len() > 0 ==> decode(b) == Err::<Option<(Seq<Seq<u64>>, int)>, FramingError>(
            FramingError::PrematureEof,
        ),
        b.len() > 0 ==> decode_required(b) == Err::<(Seq<Seq<u64>>, int), FramingError>(
            FramingError::PrematureEof,
        ),
{
}

/// A header that declares no segments, or 512 or more, is refused with its
/// count by both reads, before any body is looked at.
pub proof fn lemma_invalid_count_rejected(b: Seq<u8>)
    requires
        b.len() >= 8,
        !valid_segment_count(segment_count(b) as int),
    ensures
        decode(b) == Err::<Option<(Seq<Seq<u64>>, int)>, FramingError>(
            FramingError::InvalidSegmentCount(segment_count(b)),
        ),
        decode_required(b) == Err::<(Seq<Seq<u64>>, int), FramingError>(
            FramingError::InvalidSegmentCount(segment_count(b)),
        ),
        segment_count(b) == 0 || segment_count(b) >= 512,
{
}

/// Decoding depends on the bytes alone: two streams that hold the same bytes
/// decode to the same segments, the same length or the same error.
pub proof fn lemma_decode_deterministic(b1: Seq<u8>, b2: Seq<u8>)
    requires
        b1 == b2,
    ensures
        decode(b1) == decode(b2),
        decode_required(b1) == decode_required(b2),
{
}

} // verus!
