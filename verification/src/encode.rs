//! The frame encoder.
//!
//! `write_message` frames an ordered sequence of segment builders: it
//! builds the header table — count entry, one size entry per segment, and
//! the explicit zero pad when the entry count would otherwise be odd —
//! writes it to the sink, then writes exactly the live prefix of each
//! segment buffer in order. Bytes past a builder's cursor are spare
//! capacity and are never written.

use crate::segments::builder_views;
use crate::segments::SegmentBuilder;
use crate::stream::ByteSink;
use crate::wire::bodies;
use crate::wire::header_bytes;
use crate::wire::lemma_bodies_prefix;
use crate::wire::lemma_bodies_take_succ;
use crate::wire::lemma_header_bytes_len;
use crate::wire::sizes_bytes;
use crate::wire::spec_encode;
use crate::wire::view_sizes;
use crate::wire::FrameError;
use vstd::bytes::spec_u32_to_le_bytes;
use vstd::bytes::u32_to_le_bytes;
use vstd::prelude::*;

verus! {

/// Writes one framed message to `sink`: the header table, then the live
/// prefix of each segment in order. On success the sink has accepted
/// exactly `spec_encode` of the segments' live payloads; if the sink
/// rejects a write, the call stops there with `WriteFailed`, the sink
/// holding some prefix of the frame (a whole number of the table and
/// segment writes).
pub fn write_message<K: ByteSink>(sink: &mut K, segments: &Vec<SegmentBuilder>) -> (r: Result<
    (),
    FrameError,
>)
    requires
        1 <= segments@.len() < crate::wire::MAX_SEGMENT_COUNT,
        forall|i: int| 0 <= i < segments@.len() ==> (#[trigger] segments@[i]).wf(),
    ensures
        match r {
            Ok(_) => final(sink).sent() == old(sink).sent() + spec_encode(
                builder_views(segments@),
            ),
            Err(e) => {
                &&& e == FrameError::WriteFailed
                &&& exists|n: int|
                    0 <= n <= spec_encode(builder_views(segments@)).len() && final(sink).sent()
                        == old(sink).sent() + spec_encode(builder_views(segments@)).take(n)
            },
        },
{
    let ghost views = builder_views(segments@);
    let ghost sizes = view_sizes(views);
    let ghost sent0 = sink.sent();
    let count = segments.len();

    let mut table: Vec<u8> = Vec::new();
    let mut count_entry = u32_to_le_bytes((count - 1) as u32);
    table.append(&mut count_entry);
    proof {
        assert(sizes.len() == count);
        assert(sizes_bytes(sizes.take(0)) =~= Seq::<u8>::empty());
        assert(table@ =~= spec_u32_to_le_bytes((count - 1) as u32) + sizes_bytes(sizes.take(0)));
    }
    let mut i: usize = 0;
    while i < count
        invariant
            i <= count,
            count == segments@.len(),
            1 <= count < 512,
            forall|j: int| 0 <= j < segments@.len() ==> (#[trigger] segments@[j]).wf(),
            views == builder_views(segments@),
            sizes == view_sizes(views),
            table@ == spec_u32_to_le_bytes((count - 1) as u32) + sizes_bytes(
                sizes.take(i as int),
            ),
        decreases count - i,
    {
        let words = segments[i].word_count();
        let mut size_entry = u32_to_le_bytes(words as u32);
        table.append(&mut size_entry);
        proof {
            assert(views[i as int] == segments@[i as int].live());
            assert(sizes[i as int] == words as u32);
            assert(sizes.take(i as int + 1).drop_last() =~= sizes.take(i as int));
            assert(table@ =~= spec_u32_to_le_bytes((count - 1) as u32) + sizes_bytes(
                sizes.take(i as int + 1),
            ));
        }
        i = i + 1;
    }
    if count % 2 == 0 {
        let mut pad_entry = u32_to_le_bytes(0);
        table.append(&mut pad_entry);
    }
    proof {
        assert(sizes.take(count as int) =~= sizes);
        assert(table@ =~= header_bytes(sizes));
    }

    if !sink.write(table.as_slice()) {
        proof {
            assert(spec_encode(views).take(0) =~= Seq::<u8>::empty());
            assert(sink.sent() =~= sent0 + spec_encode(views).take(0));
        }
        return Err(FrameError::WriteFailed);
    }

    let mut i: usize = 0;
    while i < count
        invariant
            i <= count,
            count == segments@.len(),
            1 <= count < 512,
            forall|j: int| 0 <= j < segments@.len() ==> (#[trigger] segments@[j]).wf(),
            views == builder_views(segments@),
            sizes == view_sizes(views),
            sent0 == old(sink).sent(),
            sink.sent() == sent0 + header_bytes(sizes) + bodies(views.take(i as int)),
        decreases count - i,
    {
        let body = segments[i].live_bytes();
        if !sink.write(body) {
            proof {
                lemma_bodies_prefix(views, i as int);
                lemma_header_bytes_len(sizes);
                crate::wire::lemma_bodies_take_len_mono(views, i as int, count as int);
                assert(views.take(count as int) =~= views);
                let l = bodies(views.take(i as int)).len() as int;
                let n = header_bytes(sizes).len() + l;
                assert(spec_encode(views).take(n) =~= header_bytes(sizes) + bodies(
                    views.take(i as int),
                ));
                assert(sink.sent() =~= sent0 + spec_encode(views).take(n));
            }
            return Err(FrameError::WriteFailed);
        }
        proof {
            lemma_bodies_take_succ(views, i as int);
            assert(body@ == views[i as int]);
            assert(sink.sent() =~= sent0 + header_bytes(sizes) + bodies(views.take(i as int + 1)));
        }
        i = i + 1;
    }
    proof {
        assert(bodies(views.take(0)) =~= Seq::<u8>::empty());
        assert(views.take(count as int) =~= views);
        assert(sink.sent() =~= sent0 + spec_encode(views));
    }
    Ok(())
}

} // verus!
