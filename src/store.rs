//! The owned segment store: one buffer of words, indexed by segment.
use crate::le::{le_u64, read_u64_at};
use crate::table::{offset, SegmentLayout};
use vstd::prelude::*;

verus! {

/// The words that a byte sequence holds, eight little-endian bytes each.
pub open spec fn words_of(b: Seq<u8>) -> Seq<u64> {
    Seq::new(b.len() / 8, |i: int| le_u64(b.subrange(8 * i, 8 * i + 8)))
}

/// The segments of the given lengths that lie one after another in `words`.
pub open spec fn split(words: Seq<u64>, lens: Seq<int>) -> Seq<Seq<u64>> {
    Seq::new(lens.len(), |i: int| words.subrange(offset(lens, i), offset(lens, i + 1)))
}

/// The segments of a decoded message, held in one buffer of words.
pub struct OwnedSegments {
    layout: SegmentLayout,
    owned_space: Vec<u64>,
}

impl View for OwnedSegments {
    type V = Seq<Seq<u64>>;

    /// The words of each segment, in segment order.
    closed spec fn view(&self) -> Seq<Seq<u64>> {
        split(self.owned_space@, self.layout.lengths())
    }
}

impl OwnedSegments {
    /// The layout is well formed and covers the whole buffer.
    pub closed spec fn wf(&self) -> bool {
        &&& self.layout.wf()
        &&& self.layout.total_words == self.owned_space@.len()
    }

    /// The store of the segments that `layout` places in `body`, whose bytes
    /// hold the words of all segments in order.
    pub fn from_body(layout: SegmentLayout, body: &[u8]) -> (r: OwnedSegments)
        requires
            layout.wf(),
            body@.len() == 8 * layout.total_words,
        ensures
            r.wf(),
            r@ == split(words_of(body@), layout.lengths()),
            r.segment_lengths() == layout.lengths(),
    {
        let total = body.len() / 8;
        proof {
            let t = layout.total_words as int;
            assert((8 * t) / 8 == t) by (nonlinear_arith);
        }
        let mut owned_space: Vec<u64> = Vec::new();
        let mut k: usize = 0;
        while k < total
            invariant
                k <= total,
                total == layout.total_words,
                body@.len() == 8 * total,
                body@.len() <= usize::MAX,
                owned_space@ == words_of(body@).take(k as int),
            decreases total - k,
        {
            assert(8 * k + 8 <= 8 * total);
            let w = read_u64_at(body, 8 * k);
            owned_space.push(w);
            k = k + 1;
            assert(owned_space@ =~= words_of(body@).take(k as int));
        }
        assert(owned_space@ =~= words_of(body@));
        OwnedSegments { layout, owned_space }
    }

    /// The word length of each segment.
    pub closed spec fn segment_lengths(&self) -> Seq<int> {
        self.layout.lengths()
    }

    /// The number of segments.
    pub fn segment_count(&self) -> (r: usize)
        requires
            self.wf(),
        ensures
            r == self@.len(),
    {
        self.layout.slices.len()
    }

    /// The number of words of all segments together.
    pub fn total_words(&self) -> (r: u64)
        requires
            self.wf(),
        ensures
            r == offset(self.segment_lengths(), self@.len() as int),
    {
        self.layout.total_words
    }

    proof fn lemma_segment_bounds(&self, i: int)
        requires
            self.wf(),
            0 <= i < self.layout.slices@.len(),
        ensures
            self.layout.slices@[i].0 <= self.layout.slices@[i].1 <= self.owned_space@.len(),
            self@.len() == self.layout.slices@.len(),
            self@[i] == self.owned_space@.subrange(
                self.layout.slices@[i].0 as int,
                self.layout.slices@[i].1 as int,
            ),
    {
        let lens = self.layout.lengths();
        assert forall|k: int| 0 <= k < lens.len() implies 0 <= #[trigger] lens[k] by {
            assert(self.layout.slices@[k].0 <= self.layout.slices@[k].1);
        }
        crate::table::lemma_offset_nonneg(lens, i);
        assert(self.layout.slices@[i] == (offset(lens, i) as u64, offset(lens, i + 1) as u64));
    }

    /// The words of segment `id`, or `None` where there is no such segment.
    pub fn get_segment(&self, id: u32) -> (r: Option<&[u64]>)
        requires
            self.wf(),
        ensures
            id < self@.len() ==> r is Some && r->0@ == self@[id as int],
            id >= self@.len() ==> r is None,
    {
        proof {
            assert(self@.len() == self.layout.slices@.len());
        }
        if (id as usize) < self.layout.slices.len() {
            let (a, b) = self.layout.slices[id as usize];
            let space = self.owned_space.as_slice();
            let _len = space.len();
            proof {
                self.lemma_segment_bounds(id as int);
            }
            Some(vstd::slice::slice_subrange(space, a as usize, b as usize))
        } else {
            None
        }
    }
}

} // verus!
