//! The frame decoder.
//!
//! `read_message` consumes one framed message from a byte source: the
//! header word, the remaining size entries, then the whole body in one
//! read into a single owned buffer, partitioned into word-aligned segment
//! views. The segment-count ceiling is checked before the size entries are
//! read, and the declared total is checked against the caller's traversal
//! limit before the body buffer is allocated, so a hostile four-byte
//! header cannot force a large allocation.

use crate::codec::read_u32;
use crate::segments::segs_of_parts;
use crate::segments::wf_parts;
use crate::segments::SegmentSet;
use crate::stream::read_exact;
use crate::stream::ByteSource;
use crate::wire::floor_even;
use crate::wire::header_len;
use crate::wire::lemma_sum_words_bounds;
use crate::wire::lemma_sum_words_take_mono;
use crate::wire::lemma_sum_words_take_succ;
use crate::wire::segments_of;
use crate::wire::size_at;
use crate::wire::sizes_of;
use crate::wire::spec_consumed;
use crate::wire::spec_decode;
use crate::wire::sum_words;
use crate::wire::FrameError;
use crate::wire::ReaderOptions;
use vstd::prelude::*;

verus! {


proof fn lemma_skip_take_subrange(s: Seq<u8>, base: int, cap: int, a: int, b: int)
    requires
        0 <= base,
        base + cap <= s.len(),
        0 <= a <= b <= cap,
    ensures
        s.skip(base).take(cap).subrange(a, b) == s.subrange(base + a, base + b),
{
    assert(s.skip(base).take(cap).subrange(a, b) =~= s.subrange(base + a, base + b));
}

/// The partition built from the prefix sums of the size entries is a
/// well-formed segment-set over the body bytes.
#[verifier::spinoff_prover]
proof fn lemma_partition_wf(
    sizes: Seq<u32>,
    body: Seq<u8>,
    ranges: Seq<(usize, usize)>,
    c: int,
    total: int,
)
    requires
        1 <= c < 512,
        sizes.len() == c,
        total == sum_words(sizes),
        body.len() == 8 * total,
        ranges.len() == c,
        forall|j: int|
            0 <= j < c ==> (#[trigger] ranges[j]).0 == sum_words(sizes.take(j)) && ranges[j].1
                == sizes[j],
    ensures
        wf_parts(body, ranges),
{
    assert(sizes.take(c) =~= sizes);
    assert forall|j: int| 1 <= j < c implies (#[trigger] ranges[j]).0 == ranges[j - 1].0
        + ranges[j - 1].1 by {
        lemma_sum_words_take_succ(sizes, j - 1);
    }
    assert forall|j: int| 0 <= j < c implies 8 * ((#[trigger] ranges[j]).0 + ranges[j].1)
        <= body.len() by {
        lemma_sum_words_take_succ(sizes, j);
        lemma_sum_words_take_mono(sizes, j + 1, c);
    }
    lemma_sum_words_take_succ(sizes, c - 1);
    assert(ranges[0].0 == 0);
    assert(8 * (ranges[c - 1].0 + ranges[c - 1].1) == body.len());
}

/// That partition selects from the body exactly the payloads `spec_decode`
/// names in the original stream.
#[verifier::spinoff_prover]
proof fn lemma_partition_segments(
    s0: Seq<u8>,
    sizes: Seq<u32>,
    body: Seq<u8>,
    ranges: Seq<(usize, usize)>,
    c: int,
    total: int,
)
    requires
        1 <= c < 512,
        sizes.len() == c,
        sizes == sizes_of(s0, c),
        total == sum_words(sizes),
        body == s0.skip(header_len(c)).take(8 * total),
        s0.len() >= header_len(c) + 8 * total,
        ranges.len() == c,
        forall|j: int|
            0 <= j < c ==> (#[trigger] ranges[j]).0 == sum_words(sizes.take(j)) && ranges[j].1
                == sizes[j],
    ensures
        segs_of_parts(body, ranges) == segments_of(s0, c),
{
    assert(sizes.take(c) =~= sizes);
    let hl = header_len(c);
    assert forall|j: int| 0 <= j < c implies segs_of_parts(body, ranges)[j] == segments_of(
        s0,
        c,
    )[j] by {
        lemma_sum_words_take_succ(sizes, j);
        lemma_sum_words_take_mono(sizes, j + 1, c);
        lemma_sum_words_bounds(sizes.take(j));
        let o = 8 * sum_words(sizes.take(j));
        lemma_skip_take_subrange(s0, hl, 8 * total, o, o + 8 * (sizes[j] as int));
    }
    assert(segs_of_parts(body, ranges) =~= segments_of(s0, c));
}

/// Reads one message from `source` under `options`: exactly the frame
/// bytes are consumed on success and the segments of `spec_decode` are
/// returned; on failure the error is exactly the one `spec_decode` gives
/// for the bytes the source had. The traversal limit must leave the body
/// byte count addressable.
#[verifier::rlimit(60)]
pub fn read_message<S: ByteSource>(source: &mut S, options: ReaderOptions) -> (r: Result<
    SegmentSet,
    FrameError,
>)
    requires
        8 * options.traversal_limit_in_words <= usize::MAX,
    ensures
        final(source).stream() == old(source).stream().skip(
            spec_consumed(old(source).stream(), options.traversal_limit_in_words),
        ),
        match r {
            Ok(ss) => spec_decode(old(source).stream(), options.traversal_limit_in_words)
                == Ok::<Seq<Seq<u8>>, FrameError>(ss.segments()),
            Err(e) => spec_decode(old(source).stream(), options.traversal_limit_in_words)
                == Err::<Seq<Seq<u8>>, FrameError>(e),
        },
{
    let ghost s0 = source.stream();
    let ghost limit = options.traversal_limit_in_words;

    let header = match read_exact(source, 8) {
        Ok(h) => h,
        Err(e) => {
            proof {
                assert(source.stream() =~= s0.skip(spec_consumed(s0, limit)));
            }
            return Err(e);
        },
    };
    let raw = read_u32(header.as_slice(), 0);
    proof {
        assert(header@.subrange(0, 4) =~= s0.subrange(0, 4));
    }
    if raw >= 511 {
        return Err(FrameError::TooManySegments);
    }
    let count: usize = raw as usize + 1;
    let ghost c = count as int;
    let seg0 = read_u32(header.as_slice(), 4);
    proof {
        assert(header@.subrange(4, 8) =~= s0.subrange(4, 8));
        assert(seg0 == size_at(s0, 0));
    }
    let mut sizes: Vec<u32> = Vec::new();
    sizes.push(seg0);
    let mut total: u64 = seg0 as u64;
    proof {
        assert(sizes@.drop_last() =~= Seq::<u32>::empty());
        assert(sum_words(Seq::<u32>::empty()) == 0);
        assert(sizes@.last() == seg0);
        assert(total == sum_words(sizes@));
    }

    if count > 1 {
        let extra_entries: usize = if count % 2 == 0 {
            count
        } else {
            count - 1
        };
        proof {
            assert(extra_entries as int == floor_even(c));
        }
        let extra = match read_exact(source, 4 * extra_entries) {
            Ok(x) => x,
            Err(e) => {
                proof {
                    assert(s0.len() < header_len(c));
                    assert(source.stream() =~= s0.skip(spec_consumed(s0, limit)));
                }
                return Err(e);
            },
        };
        let mut i: usize = 1;
        while i < count
            invariant
                1 <= i <= count,
                count == c,
                2 <= c < 512,
                extra_entries as int == floor_even(c),
                count - 1 <= extra_entries,
                extra@.len() == 4 * extra_entries,
                extra@ == s0.skip(8).take(4 * extra_entries as int),
                s0.len() >= 8 + 4 * extra_entries,
                sizes@.len() == i,
                forall|j: int| 0 <= j < i ==> sizes@[j] == size_at(s0, j),
                total == sum_words(sizes@),
                total <= (i as int) * 0xffff_ffff,
            decreases count - i,
        {
            let sz = read_u32(extra.as_slice(), 4 * (i - 1));
            proof {
                assert(extra@.subrange(4 * (i - 1) as int, 4 * (i - 1) as int + 4)
                    =~= s0.subrange(4 + 4 * i as int, 8 + 4 * i as int));
                assert(sz == size_at(s0, i as int));
            }
            let ghost prev = sizes@;
            sizes.push(sz);
            total = total + sz as u64;
            proof {
                assert(sizes@.drop_last() =~= prev);
            }
            i = i + 1;
        }
        proof {
            assert(source.stream() =~= s0.skip(header_len(c)));
        }
    }
    proof {
        assert(sizes@ =~= sizes_of(s0, c));
        assert(source.stream() =~= s0.skip(header_len(c)));
    }

    if total > options.traversal_limit_in_words {
        return Err(FrameError::TraversalLimitExceeded);
    }

    let body_byte_count: u64 = 8 * total;
    proof {
        assert(s0.len() >= header_len(c));
    }
    let body = match read_exact(source, body_byte_count as usize) {
        Ok(b) => b,
        Err(e) => {
            proof {
                assert(s0.skip(header_len(c)).len() < 8 * (total as int));
                assert(s0.len() < header_len(c) + 8 * (total as int));
                assert(source.stream() =~= s0.skip(spec_consumed(s0, limit)));
            }
            return Err(e);
        },
    };
    proof {
        assert(source.stream() =~= s0.skip(header_len(c) + 8 * (total as int)));
    }

    let mut ranges: Vec<(usize, usize)> = Vec::new();
    let mut off: usize = 0;
    let mut i: usize = 0;
    while i < count
        invariant
            i <= count,
            count == c,
            1 <= c < 512,
            sizes@.len() == count,
            total == sum_words(sizes@),
            8 * (total as int) <= usize::MAX,
            ranges@.len() == i,
            forall|j: int|
                0 <= j < i ==> (#[trigger] ranges@[j]).0 == sum_words(sizes@.take(j))
                    && ranges@[j].1 == sizes@[j],
            off as int == sum_words(sizes@.take(i as int)),
            off <= total,
        decreases count - i,
    {
        proof {
            lemma_sum_words_take_succ(sizes@, i as int);
            lemma_sum_words_take_mono(sizes@, i as int + 1, c);
            assert(sizes@.take(c) =~= sizes@);
        }
        let sz_words = sizes[i] as usize;
        ranges.push((off, sz_words));
        off = off + sz_words;
        i = i + 1;
    }
    proof {
        lemma_partition_wf(sizes@, body@, ranges@, c, total as int);
        lemma_partition_segments(s0, sizes@, body@, ranges@, c, total as int);
    }
    let ss = SegmentSet::from_parts(body, ranges);
    Ok(ss)
}

} // verus!
