//! The in-memory segment model.
//!
//! On the read side a `SegmentSet` owns one backing buffer and an ordered
//! list of word-aligned, contiguous ranges over it; each segment is handed
//! out as a borrowed slice of that single allocation, never as a copy. On
//! the write side a `SegmentBuilder` is a buffer plus a cursor counting the
//! words populated so far; the encoder reads only the live prefix.

use vstd::prelude::*;

verus! {

/// The ranges partition `buf` into contiguous word-aligned pieces, in
/// order: each entry is (offset, length) in words, the first starts at 0,
/// each next one starts where the previous ended, and together they cover
/// the buffer exactly. The segment count is at least 1 and under the
/// hard ceiling, and every length fits a 32-bit table entry.
pub open spec fn wf_parts(buf: Seq<u8>, ranges: Seq<(usize, usize)>) -> bool {
    &&& 1 <= ranges.len() < crate::wire::MAX_SEGMENT_COUNT
    &&& ranges[0].0 == 0
    &&& forall|i: int|
        1 <= i < ranges.len() ==> (#[trigger] ranges[i]).0 == ranges[i - 1].0 + ranges[i - 1].1
    &&& forall|i: int|
        0 <= i < ranges.len() ==> 8 * ((#[trigger] ranges[i]).0 + ranges[i].1) <= buf.len()
            && ranges[i].1 <= u32::MAX
    &&& 8 * (ranges[ranges.len() - 1].0 + ranges[ranges.len() - 1].1) == buf.len()
}

/// The payload bytes each range selects from `buf`.
pub open spec fn segs_of_parts(buf: Seq<u8>, ranges: Seq<(usize, usize)>) -> Seq<Seq<u8>> {
    Seq::new(
        ranges.len(),
        |i: int| buf.subrange(8 * ranges[i].0 as int, 8 * (ranges[i].0 + ranges[i].1) as int),
    )
}

/// An ordered set of immutable, word-aligned segment views sharing one
/// owned backing buffer. Segment 0 is the root segment.
pub struct SegmentSet {
    buf: Vec<u8>,
    ranges: Vec<(usize, usize)>,
}

impl SegmentSet {
    #[verifier::type_invariant]
    spec fn inv(&self) -> bool {
        wf_parts(self.buf@, self.ranges@)
    }

    /// The payloads of the segments, in order.
    pub closed spec fn segments(&self) -> Seq<Seq<u8>> {
        segs_of_parts(self.buf@, self.ranges@)
    }

    /// Takes ownership of a backing buffer and a partition of it.
    pub(crate) fn from_parts(buf: Vec<u8>, ranges: Vec<(usize, usize)>) -> (r: Self)
        requires
            wf_parts(buf@, ranges@),
        ensures
            r.segments() == segs_of_parts(buf@, ranges@),
    {
        SegmentSet { buf, ranges }
    }

    /// How many segments the message has; always between 1 and the ceiling.
    pub fn segment_count(&self) -> (n: usize)
        ensures
            n == self.segments().len(),
            1 <= n < crate::wire::MAX_SEGMENT_COUNT,
    {
        proof {
            use_type_invariant(self);
        }
        self.ranges.len()
    }

    /// Segment `i` as a borrowed view into the shared buffer.
    pub fn segment(&self, i: usize) -> (seg: &[u8])
        requires
            i < self.segments().len(),
        ensures
            seg@ == self.segments()[i as int],
            seg@.len() % 8 == 0,
    {
        proof {
            use_type_invariant(self);
        }
        let total_bytes = self.buf.len();
        let (off, len) = self.ranges[i];
        proof {
            assert(8 * (off + len) <= total_bytes);
        }
        vstd::slice::slice_subrange(self.buf.as_slice(), 8 * off, 8 * (off + len))
    }

    /// The declared size of segment `i`, in words.
    pub fn segment_word_count(&self, i: usize) -> (n: usize)
        requires
            i < self.segments().len(),
        ensures
            8 * n == self.segments()[i as int].len(),
    {
        proof {
            use_type_invariant(self);
        }
        self.ranges[i].1
    }
}

/// A growable segment under construction: a backing buffer and a cursor
/// `pos` counting the words populated so far. Bytes past the cursor are
/// spare capacity and are never encoded.
pub struct SegmentBuilder {
    buf: Vec<u8>,
    pos: usize,
}

impl SegmentBuilder {
    /// The cursor stays inside the buffer and fits a 32-bit table entry.
    pub closed spec fn wf(&self) -> bool {
        8 * self.pos <= self.buf@.len() && self.pos <= u32::MAX
    }

    /// The bytes the encoder will emit: the first `pos` words.
    pub closed spec fn live(&self) -> Seq<u8> {
        self.buf@.take(8 * self.pos as int)
    }

    /// A builder over `buf` with `pos_words` words already populated.
    pub fn from_bytes(buf: Vec<u8>, pos_words: usize) -> (r: Self)
        requires
            8 * pos_words <= buf@.len(),
            pos_words <= u32::MAX,
        ensures
            r.wf(),
            r.live() == buf@.take(8 * pos_words as int),
    {
        SegmentBuilder { buf, pos: pos_words }
    }

    /// The cursor: how many words are populated.
    pub fn word_count(&self) -> (n: usize)
        requires
            self.wf(),
        ensures
            8 * n == self.live().len(),
            n <= u32::MAX,
    {
        self.pos
    }

    /// The populated prefix of the buffer.
    pub fn live_bytes(&self) -> (bytes: &[u8])
        requires
            self.wf(),
        ensures
            bytes@ == self.live(),
    {
        let total_bytes = self.buf.len();
        proof {
            assert(8 * self.pos <= total_bytes);
        }
        vstd::slice::slice_subrange(self.buf.as_slice(), 0, 8 * self.pos)
    }
}

/// The live payload of each builder, in order: what a message built from
/// them says on the wire.
pub open spec fn builder_views(segs: Seq<SegmentBuilder>) -> Seq<Seq<u8>> {
    Seq::new(segs.len(), |i: int| segs[i].live())
}

/// Any ordered set of 1 to 511 well-formed builders is a segment set the
/// wire format can carry: every live payload is a whole number of words
/// and its word count fits a 32-bit table entry.
pub proof fn lemma_builder_views_encodable(segs: Seq<SegmentBuilder>)
    requires
        1 <= segs.len() < crate::wire::MAX_SEGMENT_COUNT,
        forall|i: int| 0 <= i < segs.len() ==> (#[trigger] segs[i]).wf(),
    ensures
        crate::wire::encodable(builder_views(segs)),
{
    assert forall|i: int| 0 <= i < segs.len() implies (#[trigger] builder_views(segs)[i]).len() % 8
        == 0 && builder_views(segs)[i].len() / 8 <= u32::MAX by {
        assert(segs[i].wf());
    }
}

/// Round trip for built messages: the frame produced for well-formed
/// builders decodes back to exactly their live payloads — whatever bytes
/// follow it — under any limit that admits their total word count.
pub proof fn lemma_builders_round_trip(segs: Seq<SegmentBuilder>, trailing: Seq<u8>, limit: u64)
    requires
        1 <= segs.len() < crate::wire::MAX_SEGMENT_COUNT,
        forall|i: int| 0 <= i < segs.len() ==> (#[trigger] segs[i]).wf(),
        crate::wire::sum_words(crate::wire::view_sizes(builder_views(segs))) <= limit,
    ensures
        crate::wire::spec_decode(
            crate::wire::spec_encode(builder_views(segs)) + trailing,
            limit,
        ) == Ok::<Seq<Seq<u8>>, crate::wire::FrameError>(builder_views(segs)),
{
    lemma_builder_views_encodable(segs);
    crate::wire::lemma_round_trip(builder_views(segs), trailing, limit);
}

} // verus!
