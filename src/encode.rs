//! Encoding a message: its segment table, then the bytes of each segment.
use crate::le::{u32_le_bytes, u64_le_bytes, write_u32_at, write_u64_at};
use crate::table::{header_len, offset, segment_table_len};
use vstd::prelude::*;

verus! {

/// The word length of each segment.
pub open spec fn lens_of(segs: Seq<Seq<u64>>) -> Seq<int> {
    Seq::new(segs.len(), |i: int| segs[i].len() as int)
}

/// The segment table for segments of the given lengths: the count less one,
/// then each length, as little-endian fields of four bytes, padded with zeros
/// to whole words.
pub open spec fn table_bytes(lens: Seq<int>) -> Seq<u8> {
    Seq::new(
        header_len(lens.len() as int) as nat,
        |k: int|
            if k < 4 {
                u32_le_bytes((lens.len() - 1) as u32)[k]
            } else if k < 4 * lens.len() + 4 {
                u32_le_bytes(lens[k / 4 - 1] as u32)[k % 4]
            } else {
                0u8
            },
    )
}

/// The bytes of a run of words, eight little-endian bytes each.
pub open spec fn words_bytes(w: Seq<u64>) -> Seq<u8> {
    Seq::new(8 * w.len(), |k: int| u64_le_bytes(w[k / 8])[k % 8])
}

/// All segments' words one after another.
pub open spec fn concat(segs: Seq<Seq<u64>>) -> Seq<u64>
    decreases segs.len(),
{
    if segs.len() == 0 {
        Seq::empty()
    } else {
        concat(segs.drop_last()) + segs.last()
    }
}

/// The bytes of a whole message: its segment table, then its segments.
pub open spec fn encode(segs: Seq<Seq<u64>>) -> Seq<u8> {
    table_bytes(lens_of(segs)) + words_bytes(concat(segs))
}

/// Segments that a segment table can describe: at least one, with the count
/// less one and every length fitting a field of four bytes.
pub open spec fn encodable(segs: Seq<Seq<u64>>) -> bool {
    &&& 1 <= segs.len() <= u32::MAX + 1
    &&& forall|i: int| 0 <= i < segs.len() ==> #[trigger] segs[i].len() <= u32::MAX
}

/// The bytes of two runs of words are the bytes of each, one after the other.
pub proof fn lemma_words_bytes_append(a: Seq<u64>, b: Seq<u64>)
    ensures
        words_bytes(a + b) == words_bytes(a) + words_bytes(b),
{
    let l = words_bytes(a + b);
    let r = words_bytes(a) + words_bytes(b);
    assert forall|k: int| 0 <= k < l.len() implies l[k] == r[k] by {
        if k >= 8 * a.len() {
            let j = k - 8 * a.len();
            assert(j / 8 == k / 8 - a.len() && j % 8 == k % 8);
        }
    }
    assert(l =~= r);
}

/// The words of the first `i` segments start the words of all of them, and
/// their number is the offset of segment `i`.
pub proof fn lemma_concat_prefix(segs: Seq<Seq<u64>>, i: int)
    requires
        0 <= i <= segs.len(),
    ensures
        concat(segs.take(i)).len() == offset(lens_of(segs), i),
        concat(segs.take(i)) == concat(segs).take(offset(lens_of(segs), i)),
        offset(lens_of(segs), i) <= concat(segs).len(),
    decreases segs.len(),
{
    lemma_concat_len(segs, i);
    lemma_concat_len(segs, segs.len() as int);
    assert(segs.take(segs.len() as int) =~= segs);
    if i < segs.len() {
        let d = segs.drop_last();
        lemma_concat_prefix(d, i);
        assert(d.take(i) =~= segs.take(i));
        lemma_concat_len(d, i);
        assert(concat(segs) == concat(d) + segs.last());
        assert(concat(segs).take(concat(d.take(i)).len() as int) =~= concat(d).take(
            concat(d.take(i)).len() as int,
        ));
        lemma_concat_len(d, d.len() as int);
        assert(d.take(d.len() as int) =~= d);
    } else {
        assert(concat(segs).take(concat(segs).len() as int) =~= concat(segs));
    }
}

/// The words of the first `i` segments number the offset of segment `i`.
pub proof fn lemma_concat_len(segs: Seq<Seq<u64>>, i: int)
    requires
        0 <= i <= segs.len(),
    ensures
        concat(segs.take(i)).len() == offset(lens_of(segs), i),
    decreases i,
{
    if i > 0 {
        lemma_concat_len(segs, i - 1);
        assert(segs.take(i).drop_last() =~= segs.take(i - 1));
    }
}

/// The segment table of `n` segments takes `((n + 2) & !1) * 4` bytes: a
/// field for the count and one per segment, rounded up to whole words.
pub proof fn lemma_header_size(lens: Seq<int>)
    requires
        lens.len() <= u32::MAX + 1,
    ensures
        table_bytes(lens).len() == (((lens.len() + 2) as u64) & !1u64) * 4,
{
    let m = (lens.len() + 2) as u64;
    assert(m & !1u64 == m - m % 2) by (bit_vector);
}

/// The segments of a message being written, in segment order.
pub struct OutputSegmentsContainer {
    segments: Vec<Vec<u64>>,
}

impl View for OutputSegmentsContainer {
    type V = Seq<Seq<u64>>;

    closed spec fn view(&self) -> Seq<Seq<u64>> {
        Seq::new(self.segments@.len(), |i: int| self.segments@[i]@)
    }
}

impl OutputSegmentsContainer {
    /// Takes ownership of a message's segments for the time it is written.
    pub fn new(segments: Vec<Vec<u64>>) -> (r: OutputSegmentsContainer)
        ensures
            r@ == Seq::new(segments@.len(), |i: int| segments@[i]@),
    {
        OutputSegmentsContainer { segments }
    }

    /// The segments, handed back once the message is written.
    pub fn get(&self) -> (r: &Vec<Vec<u64>>)
        ensures
            self@ == Seq::new(r@.len(), |i: int| r@[i]@),
    {
        &self.segments
    }

    /// The number of segments.
    pub fn len(&self) -> (r: usize)
        ensures
            r == self@.len(),
    {
        self.segments.len()
    }

    /// The bytes of segment `idx`: its words, eight little-endian bytes each.
    pub fn segment_bytes(&self, idx: usize) -> (r: Vec<u8>)
        requires
            idx < self@.len(),
            8 * self@[idx as int].len() <= usize::MAX,
        ensures
            r@ == words_bytes(self@[idx as int]),
    {
        let seg = &self.segments[idx];
        let n = seg.len();
        let mut buf: Vec<u8> = zeroed(8 * n);
        let mut i: usize = 0;
        while i < n
            invariant
                i <= n,
                n == seg@.len(),
                seg@ == self@[idx as int],
                8 * n <= usize::MAX,
                buf@.len() == 8 * n,
                forall|k: int|
                    0 <= k < 8 * n ==> #[trigger] buf@[k] == if k < 8 * i {
                        u64_le_bytes(seg@[k / 8])[k % 8]
                    } else {
                        0u8
                    },
            decreases n - i,
        {
            let ghost prev = buf@;
            write_u64_at(&mut buf, 8 * i, seg[i]);
            assert forall|k: int| 0 <= k < 8 * n implies #[trigger] buf@[k] == if k < 8 * (i + 1) {
                u64_le_bytes(seg@[k / 8])[k % 8]
            } else {
                0u8
            } by {
                if 8 * i <= k < 8 * i + 8 {
                    assert(k / 8 == i);
                    assert(buf@[k] == u64_le_bytes(seg@[i as int])[k - 8 * i]);
                } else {
                    assert(buf@[k] == prev[k]);
                }
            }
            i = i + 1;
        }
        assert(buf@ =~= words_bytes(self@[idx as int]));
        buf
    }
}

/// A buffer of `n` zero bytes.
fn zeroed(n: usize) -> (r: Vec<u8>)
    ensures
        r@ == Seq::new(n as nat, |k: int| 0u8),
{
    let mut r: Vec<u8> = Vec::with_capacity(n);
    let mut i: usize = 0;
    while i < n
        invariant
            i <= n,
            r@ == Seq::new(i as nat, |k: int| 0u8),
        decreases n - i,
    {
        r.push(0);
        i = i + 1;
        assert(r@ =~= Seq::new(i as nat, |k: int| 0u8));
    }
    r
}

/// The segment table of the segments about to be written.
pub fn write_segment_table(segments: &OutputSegmentsContainer) -> (r: Vec<u8>)
    requires
        encodable(segments@),
        header_len(segments@.len() as int) <= usize::MAX,
    ensures
        r@ == table_bytes(lens_of(segments@)),
{
    let ghost lens = lens_of(segments@);
    let n = segments.len();
    let segs = segments.get();
    let hl = segment_table_len(n);
    let mut buf = zeroed(hl);
    write_u32_at(&mut buf, 0, (n - 1) as u32);
    let mut idx: usize = 0;
    while idx < n
        invariant
            idx <= n,
            n == segments@.len(),
            lens == lens_of(segments@),
            encodable(segments@),
            segments@ == Seq::new(segs@.len(), |i: int| segs@[i]@),
            hl == header_len(n as int),
            buf@.len() == hl,
            forall|k: int|
                0 <= k < hl ==> #[trigger] buf@[k] == if k < 4 {
                    u32_le_bytes((n - 1) as u32)[k]
                } else if k < 4 * idx + 4 {
                    u32_le_bytes(lens[k / 4 - 1] as u32)[k % 4]
                } else {
                    0u8
                },
        decreases n - idx,
    {
        let ghost prev = buf@;
        assert(segments@[idx as int] == segs@[idx as int]@);
        let len = segs[idx].len();
        assert(len == lens[idx as int]);
        write_u32_at(&mut buf, 4 * idx + 4, len as u32);
        assert forall|k: int| 0 <= k < hl implies #[trigger] buf@[k] == if k < 4 {
            u32_le_bytes((n - 1) as u32)[k]
        } else if k < 4 * (idx + 1) + 4 {
            u32_le_bytes(lens[k / 4 - 1] as u32)[k % 4]
        } else {
            0u8
        } by {
            if 4 * idx + 4 <= k < 4 * idx + 8 {
                assert(k / 4 - 1 == idx);
                assert(buf@[k] == u32_le_bytes(len as u32)[k - 4 * idx - 4]);
            } else {
                assert(buf@[k] == prev[k]);
            }
        }
        idx = idx + 1;
    }
    assert(buf@ =~= table_bytes(lens));
    buf
}

/// The bytes of a whole message: its segment table, then each segment's
/// words in segment order.
pub fn write_message(segments: &OutputSegmentsContainer) -> (r: Vec<u8>)
    requires
        encodable(segments@),
        encode(segments@).len() <= usize::MAX,
    ensures
        r@ == encode(segments@),
{
    let ghost segs = segments@;
    let n = segments.len();
    let mut out = write_segment_table(segments);
    let mut i: usize = 0;
    proof {
        assert(segs.take(0) =~= Seq::<Seq<u64>>::empty());
        assert(words_bytes(concat(segs.take(0))) =~= Seq::<u8>::empty());
        assert(out@ =~= table_bytes(lens_of(segs)) + words_bytes(concat(segs.take(0))));
    }
    while i < n
        invariant
            i <= n,
            n == segs.len(),
            segs == segments@,
            encode(segs).len() <= usize::MAX,
            out@ == table_bytes(lens_of(segs)) + words_bytes(concat(segs.take(i as int))),
        decreases n - i,
    {
        proof {
            let a = concat(segs.take(i as int));
            assert(segs.take(i + 1).drop_last() =~= segs.take(i as int));
            assert(concat(segs.take(i + 1)) == a + segs[i as int]);
            lemma_words_bytes_append(a, segs[i as int]);
            lemma_concat_prefix(segs, i + 1);
            assert(out@.len() + 8 * segs[i as int].len() <= encode(segs).len());
        }
        let mut b = segments.segment_bytes(i);
        out.append(&mut b);
        i = i + 1;
    }
    proof {
        assert(segs.take(n as int) =~= segs);
    }
    out
}

/// The number of bytes of the whole message, or `None` where the segments
/// cannot be written: no segments, too many, a segment too long for its
/// table field, or a message too large to hold in memory.
pub fn encoded_len(segments: &OutputSegmentsContainer) -> (r: Option<usize>)
    ensures
        r is Some <==> encodable(segments@) && encode(segments@).len() <= usize::MAX,
        r matches Some(l) ==> l == encode(segments@).len(),
{
    let ghost segs = segments@;
    let ghost lens = lens_of(segs);
    let segs_v = segments.get();
    let n = segs_v.len();
    if n == 0 || n as u64 > 0x1_0000_0000u64 {
        return None;
    }
    let n64 = n as u64;
    let mut total: u64 = (((n64 + 2) / 2) * 8);
    assert(total == header_len(n as int));
    let mut i: usize = 0;
    while i < n
        invariant
            i <= n <= 0x1_0000_0000u64,
            n == segs.len(),
            segs == segments@,
            lens == lens_of(segs),
            segs == Seq::new(segs_v@.len(), |k: int| segs_v@[k]@),
            forall|k: int| 0 <= k < i ==> #[trigger] segs[k].len() <= u32::MAX,
            total == header_len(n as int) + 8 * offset(lens, i as int),
        decreases n - i,
    {
        let len = segs_v[i].len();
        assert(len == segs[i as int].len());
        if len as u64 > 0xffff_ffffu64 {
            assert(!encodable(segs));
            return None;
        }
        match total.checked_add(8 * (len as u64)) {
            Some(t) => {
                total = t;
            },
            None => {
                proof {
                    assert forall|k: int| 0 <= k < lens.len() implies 0 <= #[trigger] lens[k] by {}
                    crate::table::lemma_offset_monotone(lens, i + 1, n as int);
                    lemma_concat_prefix(segs, n as int);
                    assert(segs.take(n as int) =~= segs);
                }
                return None;
            },
        }
        i = i + 1;
    }
    proof {
        lemma_concat_prefix(segs, n as int);
        assert(segs.take(n as int) =~= segs);
    }
    if total > usize::MAX as u64 {
        None
    } else {
        Some(total as usize)
    }
}

} // verus!
