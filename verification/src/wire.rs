//! The wire format as mathematics.
//!
//! A framed message is a header table of 32-bit little-endian entries —
//! `segment count - 1`, one word-size per segment, and a zero pad entry when
//! `segment count + 1` is odd — followed by the segment bodies in order.
//! `spec_encode` gives the exact byte sequence a segment set produces, and
//! `spec_decode` gives the exact result of reading one message from the front
//! of a byte sequence; the executable encoder and decoder are specified
//! against these two functions.

use vstd::bytes::spec_u32_from_le_bytes;
use vstd::bytes::spec_u32_to_le_bytes;
use vstd::prelude::*;

verus! {

/// Why a decode or encode call failed. Every error aborts the call; no
/// partial result is handed back.
#[derive(Clone, Copy, Debug, PartialEq, Eq, Structural)]
pub enum FrameError {
    /// The byte source ended before the bytes the header called for arrived.
    ReadTruncated,
    /// The header declared 512 or more segments.
    TooManySegments,
    /// The declared total word count exceeds the configured ceiling.
    TraversalLimitExceeded,
    /// The byte sink rejected a write.
    WriteFailed,
}

/// Decode-time configuration. `traversal_limit_in_words` bounds the total
/// word count a message may declare, so a hostile peer cannot force the
/// receiver into an unbounded allocation with a four-byte header.
#[derive(Clone, Copy, Debug)]
pub struct ReaderOptions {
    pub traversal_limit_in_words: u64,
}

/// Hard ceiling on the number of segments a message may declare.
pub const MAX_SEGMENT_COUNT: u32 = 512;

/// The largest even number that is at most `n`.
pub open spec fn floor_even(n: int) -> int {
    if n % 2 == 0 {
        n
    } else {
        n - 1
    }
}

/// Byte length of the header table for `count` segments: one word holding
/// the count entry and the first size entry, then the remaining size
/// entries padded to a whole word. Equals `4 * (count + 1 rounded up to
/// even)` for `count >= 1`.
pub open spec fn header_len(count: int) -> int {
    8 + 4 * floor_even(count)
}

/// Total number of words the size entries declare.
pub open spec fn sum_words(sizes: Seq<u32>) -> int
    decreases sizes.len(),
{
    if sizes.len() == 0 {
        0
    } else {
        sum_words(sizes.drop_last()) + sizes.last()
    }
}

pub proof fn lemma_sum_words_take_succ(sizes: Seq<u32>, i: int)
    requires
        0 <= i < sizes.len(),
    ensures
        sum_words(sizes.take(i + 1)) == sum_words(sizes.take(i)) + sizes[i],
{
    assert(sizes.take(i + 1).drop_last() =~= sizes.take(i));
}

pub proof fn lemma_sum_words_bounds(sizes: Seq<u32>)
    ensures
        0 <= sum_words(sizes) <= sizes.len() * 0xffff_ffff,
    decreases sizes.len(),
{
    if sizes.len() > 0 {
        lemma_sum_words_bounds(sizes.drop_last());
    }
}

pub proof fn lemma_sum_words_take_mono(sizes: Seq<u32>, j: int, k: int)
    requires
        0 <= j <= k <= sizes.len(),
    ensures
        sum_words(sizes.take(j)) <= sum_words(sizes.take(k)),
    decreases k - j,
{
    if j < k {
        lemma_sum_words_take_mono(sizes, j, k - 1);
        lemma_sum_words_take_succ(sizes, k - 1);
    }
}

/// The size-table entry for segment `i`: entry 0 sits at byte offset 4,
/// entry `i` at byte offset `4 + 4 * i`.
pub open spec fn size_at(s: Seq<u8>, i: int) -> u32 {
    spec_u32_from_le_bytes(s.subrange(4 + 4 * i, 8 + 4 * i))
}

/// The declared word-sizes of all `count` segments.
pub open spec fn sizes_of(s: Seq<u8>, count: int) -> Seq<u32> {
    Seq::new(count as nat, |i: int| size_at(s, i))
}

/// The segment payloads of a well-formed frame at the front of `s`.
pub open spec fn segments_of(s: Seq<u8>, count: int) -> Seq<Seq<u8>> {
    Seq::new(
        count as nat,
        |i: int|
            {
                let sizes = sizes_of(s, count);
                let off = header_len(count) + 8 * sum_words(sizes.take(i));
                s.subrange(off, off + 8 * sizes[i])
            },
    )
}

/// The result of decoding one message from the front of `s` under the word
/// ceiling `limit`: the segment payloads in order, or the first error the
/// decoder meets. The checks run in wire order: header word, segment count
/// ceiling, remaining size entries, word ceiling, body.
pub open spec fn spec_decode(s: Seq<u8>, limit: u64) -> Result<Seq<Seq<u8>>, FrameError> {
    if s.len() < 8 {
        Err(FrameError::ReadTruncated)
    } else {
        let count = spec_u32_from_le_bytes(s.subrange(0, 4)) as int + 1;
        if count >= MAX_SEGMENT_COUNT {
            Err(FrameError::TooManySegments)
        } else if s.len() < header_len(count) {
            Err(FrameError::ReadTruncated)
        } else {
            let total = sum_words(sizes_of(s, count));
            if total > limit {
                Err(FrameError::TraversalLimitExceeded)
            } else if s.len() < header_len(count) + 8 * total {
                Err(FrameError::ReadTruncated)
            } else {
                Ok(segments_of(s, count))
            }
        }
    }
}

/// How many bytes of `s` decoding consumes: on success the whole frame, on
/// an error everything read up to the failing check.
pub open spec fn spec_consumed(s: Seq<u8>, limit: u64) -> int {
    if s.len() < 8 {
        s.len() as int
    } else {
        let count = spec_u32_from_le_bytes(s.subrange(0, 4)) as int + 1;
        if count >= MAX_SEGMENT_COUNT {
            8
        } else if s.len() < header_len(count) {
            s.len() as int
        } else {
            let total = sum_words(sizes_of(s, count));
            if total > limit {
                header_len(count)
            } else if s.len() < header_len(count) + 8 * total {
                s.len() as int
            } else {
                header_len(count) + 8 * total
            }
        }
    }
}

/// The little-endian bytes of the size entries, in order.
pub open spec fn sizes_bytes(sizes: Seq<u32>) -> Seq<u8>
    decreases sizes.len(),
{
    if sizes.len() == 0 {
        Seq::empty()
    } else {
        sizes_bytes(sizes.drop_last()) + spec_u32_to_le_bytes(sizes.last())
    }
}

/// The header table for segments with the given word-sizes: count entry,
/// size entries, and the explicit zero pad entry when the entry count would
/// otherwise be odd.
pub open spec fn header_bytes(sizes: Seq<u32>) -> Seq<u8> {
    spec_u32_to_le_bytes((sizes.len() - 1) as u32) + sizes_bytes(sizes) + (if sizes.len() % 2
        == 0 {
        spec_u32_to_le_bytes(0u32)
    } else {
        Seq::<u8>::empty()
    })
}

/// The segment bodies, concatenated in order.
pub open spec fn bodies(views: Seq<Seq<u8>>) -> Seq<u8>
    decreases views.len(),
{
    if views.len() == 0 {
        Seq::empty()
    } else {
        bodies(views.drop_last()) + views.last()
    }
}

/// The declared word-size of each payload.
pub open spec fn view_sizes(views: Seq<Seq<u8>>) -> Seq<u32> {
    Seq::new(views.len(), |i: int| (views[i].len() / 8) as u32)
}

/// A segment set the wire format can carry: at least one segment, fewer
/// than `MAX_SEGMENT_COUNT`, every payload a whole number of words with a
/// word count a 32-bit entry can hold.
pub open spec fn encodable(views: Seq<Seq<u8>>) -> bool {
    &&& 1 <= views.len() < MAX_SEGMENT_COUNT
    &&& forall|i: int|
        0 <= i < views.len() ==> (#[trigger] views[i]).len() % 8 == 0 && views[i].len() / 8
            <= u32::MAX
}

/// The exact byte stream that encoding `views` produces: header table, then
/// the bodies in order.
pub open spec fn spec_encode(views: Seq<Seq<u8>>) -> Seq<u8> {
    header_bytes(view_sizes(views)) + bodies(views)
}

pub proof fn lemma_sizes_bytes_len(sizes: Seq<u32>)
    ensures
        sizes_bytes(sizes).len() == 4 * sizes.len(),
    decreases sizes.len(),
{
    if sizes.len() > 0 {
        lemma_sizes_bytes_len(sizes.drop_last());
        vstd::bytes::lemma_auto_spec_u32_to_from_le_bytes();
    }
}

pub proof fn lemma_header_bytes_len(sizes: Seq<u32>)
    requires
        sizes.len() >= 1,
    ensures
        header_bytes(sizes).len() == header_len(sizes.len() as int),
{
    lemma_sizes_bytes_len(sizes);
    vstd::bytes::lemma_auto_spec_u32_to_from_le_bytes();
}

pub proof fn lemma_sizes_bytes_index(sizes: Seq<u32>, i: int)
    requires
        0 <= i < sizes.len(),
    ensures
        sizes_bytes(sizes).subrange(4 * i, 4 * i + 4) == spec_u32_to_le_bytes(sizes[i]),
    decreases sizes.len(),
{
    lemma_sizes_bytes_len(sizes);
    lemma_sizes_bytes_len(sizes.drop_last());
    vstd::bytes::lemma_auto_spec_u32_to_from_le_bytes();
    if i == sizes.len() - 1 {
        assert(sizes_bytes(sizes).subrange(4 * i, 4 * i + 4) =~= spec_u32_to_le_bytes(
            sizes.last(),
        ));
    } else {
        lemma_sizes_bytes_index(sizes.drop_last(), i);
        assert(sizes_bytes(sizes).subrange(4 * i, 4 * i + 4) =~= sizes_bytes(
            sizes.drop_last(),
        ).subrange(4 * i, 4 * i + 4));
    }
}

pub proof fn lemma_view_sizes_take(views: Seq<Seq<u8>>, i: int)
    requires
        0 <= i <= views.len(),
    ensures
        view_sizes(views.take(i)) == view_sizes(views).take(i),
{
    assert(view_sizes(views.take(i)) =~= view_sizes(views).take(i));
}

pub proof fn lemma_bodies_len(views: Seq<Seq<u8>>)
    requires
        forall|i: int|
            0 <= i < views.len() ==> (#[trigger] views[i]).len() % 8 == 0 && views[i].len() / 8
                <= u32::MAX,
    ensures
        bodies(views).len() == 8 * sum_words(view_sizes(views)),
    decreases views.len(),
{
    if views.len() > 0 {
        lemma_bodies_len(views.drop_last());
        assert(view_sizes(views.drop_last()) =~= view_sizes(views).drop_last());
        assert(views.last() == views[views.len() - 1]);
        assert(views[views.len() - 1].len() % 8 == 0);
    }
}

pub proof fn lemma_bodies_take_succ(views: Seq<Seq<u8>>, i: int)
    requires
        0 <= i < views.len(),
    ensures
        bodies(views.take(i + 1)) == bodies(views.take(i)) + views[i],
{
    assert(views.take(i + 1).drop_last() =~= views.take(i));
}

pub proof fn lemma_bodies_take_len_mono(views: Seq<Seq<u8>>, j: int, k: int)
    requires
        0 <= j <= k <= views.len(),
    ensures
        bodies(views.take(j)).len() <= bodies(views.take(k)).len(),
    decreases k - j,
{
    if j < k {
        lemma_bodies_take_len_mono(views, j, k - 1);
        lemma_bodies_take_succ(views, k - 1);
    }
}

pub proof fn lemma_bodies_subrange(views: Seq<Seq<u8>>, i: int)
    requires
        0 <= i < views.len(),
    ensures
        bodies(views).subrange(
            bodies(views.take(i)).len() as int,
            bodies(views.take(i)).len() + views[i].len() as int,
        ) == views[i],
    decreases views.len(),
{
    let n = views.len() as int;
    if i == n - 1 {
        assert(views.take(i) =~= views.drop_last());
        assert(bodies(views).subrange(
            bodies(views.take(i)).len() as int,
            bodies(views.take(i)).len() + views[i].len() as int,
        ) =~= views[i]);
    } else {
        lemma_bodies_subrange(views.drop_last(), i);
        assert(views.drop_last().take(i) =~= views.take(i));
        lemma_bodies_take_succ(views, i);
        assert(views.take(n - 1) =~= views.drop_last());
        lemma_bodies_take_len_mono(views, i + 1, n - 1);
        assert(bodies(views).subrange(
            bodies(views.take(i)).len() as int,
            bodies(views.take(i)).len() + views[i].len() as int,
        ) =~= bodies(views.drop_last()).subrange(
            bodies(views.drop_last().take(i)).len() as int,
            bodies(views.drop_last().take(i)).len() + views.drop_last()[i].len() as int,
        ));
    }
}

pub proof fn lemma_bodies_prefix(views: Seq<Seq<u8>>, i: int)
    requires
        0 <= i <= views.len(),
    ensures
        bodies(views).take(bodies(views.take(i)).len() as int) == bodies(views.take(i)),
    decreases views.len(),
{
    let l = bodies(views.take(i)).len() as int;
    if i == views.len() {
        assert(views.take(i) =~= views);
        assert(bodies(views).take(l) =~= bodies(views));
    } else {
        lemma_bodies_prefix(views.drop_last(), i);
        assert(views.drop_last().take(i) =~= views.take(i));
        lemma_bodies_take_len_mono(views, i, views.len() - 1);
        assert(views.take(views.len() - 1) =~= views.drop_last());
        assert(bodies(views).take(l) =~= bodies(views.drop_last()).take(l));
    }
}

/// Round trip: a segment set the wire format can carry, whose total word
/// count is within the configured ceiling, decodes from its own encoding —
/// whatever bytes follow the frame — back to exactly the same payloads,
/// and decoding consumes exactly the frame.
pub proof fn lemma_round_trip(views: Seq<Seq<u8>>, trailing: Seq<u8>, limit: u64)
    requires
        encodable(views),
        sum_words(view_sizes(views)) <= limit,
    ensures
        spec_decode(spec_encode(views) + trailing, limit) == Ok::<Seq<Seq<u8>>, FrameError>(views),
        spec_consumed(spec_encode(views) + trailing, limit) == spec_encode(views).len(),
{
    let sizes = view_sizes(views);
    let count = views.len() as int;
    let hl = header_len(count);
    let b = bodies(views);
    let s = spec_encode(views) + trailing;
    lemma_header_bytes_len(sizes);
    lemma_bodies_len(views);
    vstd::bytes::lemma_auto_spec_u32_to_from_le_bytes();
    assert(s.subrange(0, 4) =~= spec_u32_to_le_bytes((count - 1) as u32));
    assert(spec_u32_from_le_bytes(s.subrange(0, 4)) == (count - 1) as u32);
    assert forall|i: int| 0 <= i < count implies size_at(s, i) == sizes[i] by {
        lemma_sizes_bytes_index(sizes, i);
        lemma_sizes_bytes_len(sizes);
        assert(s.subrange(4 + 4 * i, 8 + 4 * i) =~= sizes_bytes(sizes).subrange(
            4 * i,
            4 * i + 4,
        ));
    }
    assert(sizes_of(s, count) =~= sizes);
    let total = sum_words(sizes);
    lemma_sum_words_bounds(sizes);
    assert(s.len() >= hl + 8 * total);
    assert forall|i: int| 0 <= i < count implies segments_of(s, count)[i] == views[i] by {
        lemma_bodies_subrange(views, i);
        lemma_view_sizes_take(views, i);
        lemma_bodies_len(views.take(i));
        lemma_sum_words_take_succ(sizes, i);
        lemma_bodies_take_len_mono(views, i + 1, count);
        assert(views.take(count) =~= views);
        lemma_bodies_take_succ(views, i);
        let off = 8 * sum_words(sizes.take(i));
        assert(bodies(views.take(i)).len() == off);
        assert(8 * (sizes[i] as int) == views[i].len());
        assert(s.subrange(hl + off, hl + off + 8 * sizes[i]) =~= b.subrange(
            off,
            off + views[i].len(),
        ));
    }
    assert(segments_of(s, count) =~= views);
}

} // verus!
