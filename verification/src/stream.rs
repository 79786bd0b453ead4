//! Byte-stream collaborators.
//!
//! `ByteSource` and `ByteSink` are the two stream interfaces the framing
//! layer reads from and writes to. A source is modelled by the sequence of
//! bytes it will still deliver; a sink by the sequence of bytes it has
//! accepted so far. `read_exact` is the retry-until-full primitive shared by
//! the header and body reads: a source may hand back arbitrarily short
//! chunks, and `read_exact` keeps asking until the requested count is there
//! or the source is exhausted.
//!
//! `ChunkedSource`, `VecSink` and `BoundedSink` are in-memory
//! implementations, useful on their own and for exercising short-read and
//! failed-write behaviour.

use crate::wire::FrameError;
use vstd::prelude::*;

verus! {

/// A pull source of bytes. `stream()` is the sequence of bytes the source
/// will still deliver, in order; each successful read hands out a non-empty
/// prefix of it, and an exhausted source answers `None`.
pub trait ByteSource {
    /// The bytes this source will deliver from now on.
    spec fn stream(&self) -> Seq<u8>;

    /// Delivers between 1 and `max` of the next bytes, or `None` once the
    /// source has nothing left.
    fn read(&mut self, max: usize) -> (chunk: Option<Vec<u8>>)
        requires
            max >= 1,
        ensures
            match chunk {
                Some(c) => {
                    &&& 1 <= c@.len() <= max
                    &&& c@.len() <= old(self).stream().len()
                    &&& c@ == old(self).stream().take(c@.len() as int)
                    &&& final(self).stream() == old(self).stream().skip(c@.len() as int)
                },
                None => {
                    &&& old(self).stream().len() == 0
                    &&& final(self).stream() == old(self).stream()
                },
            },
    ;
}

/// A push sink of bytes. `sent()` is the sequence of bytes the sink has
/// accepted so far; a failed write accepts nothing.
pub trait ByteSink {
    /// The bytes this sink has accepted so far.
    spec fn sent(&self) -> Seq<u8>;

    /// Offers `data` to the sink; `true` means it was accepted in full.
    fn write(&mut self, data: &[u8]) -> (ok: bool)
        ensures
            ok ==> final(self).sent() == old(self).sent() + data@,
            !ok ==> final(self).sent() == old(self).sent(),
    ;
}

/// Reads exactly `len` bytes from `source`, retrying on short reads;
/// fails with `ReadTruncated` if and only if the source is exhausted first,
/// consuming whatever was left.
pub fn read_exact<S: ByteSource>(source: &mut S, len: usize) -> (r: Result<Vec<u8>, FrameError>)
    ensures
        match r {
            Ok(bytes) => {
                &&& old(source).stream().len() >= len
                &&& bytes@.len() == len
                &&& bytes@ == old(source).stream().take(len as int)
                &&& final(source).stream() == old(source).stream().skip(len as int)
            },
            Err(e) => {
                &&& e == FrameError::ReadTruncated
                &&& old(source).stream().len() < len
                &&& final(source).stream().len() == 0
            },
        },
{
    let ghost s0 = source.stream();
    let mut acc: Vec<u8> = Vec::new();
    while acc.len() < len
        invariant
            s0 == old(source).stream(),
            acc@.len() <= len,
            acc@.len() <= s0.len(),
            acc@ == s0.take(acc@.len() as int),
            source.stream() == s0.skip(acc@.len() as int),
        decreases len - acc@.len(),
    {
        let want = len - acc.len();
        match source.read(want) {
            Some(mut chunk) => {
                let ghost n = acc@.len() as int;
                let ghost c = chunk@.len() as int;
                acc.append(&mut chunk);
                proof {
                    assert(s0.skip(n).take(c) =~= s0.subrange(n, n + c));
                    assert(acc@ =~= s0.take(n + c));
                    assert(s0.skip(n).skip(c) =~= s0.skip(n + c));
                }
            },
            None => {
                return Err(FrameError::ReadTruncated);
            },
        }
    }
    Ok(acc)
}

/// An in-memory byte source that delivers at most `chunk` bytes per read,
/// however many are asked for. With `chunk == 1` it exercises the shortest
/// reads a source may produce.
pub struct ChunkedSource {
    data: Vec<u8>,
    pos: usize,
    chunk: usize,
}

impl ChunkedSource {
    #[verifier::type_invariant]
    spec fn wf(&self) -> bool {
        self.pos <= self.data@.len() && self.chunk >= 1
    }

    /// A source that will deliver `data`, at most `chunk` bytes at a time.
    pub fn new(data: Vec<u8>, chunk: usize) -> (r: Self)
        requires
            chunk >= 1,
        ensures
            r.stream() == data@,
    {
        let r = ChunkedSource { data, pos: 0, chunk };
        proof {
            assert(r.stream() =~= r.data@);
        }
        r
    }
}

impl ByteSource for ChunkedSource {
    closed spec fn stream(&self) -> Seq<u8> {
        self.data@.skip(self.pos as int)
    }

    fn read(&mut self, max: usize) -> (chunk: Option<Vec<u8>>) {
        proof {
            use_type_invariant(&*self);
        }
        let remaining = self.data.len() - self.pos;
        if remaining == 0 {
            return None;
        }
        let mut n = max;
        if self.chunk < n {
            n = self.chunk;
        }
        if remaining < n {
            n = remaining;
        }
        let out = vstd::slice::slice_to_vec(
            vstd::slice::slice_subrange(self.data.as_slice(), self.pos, self.pos + n),
        );
        let ghost pre = *self;
        self.pos = self.pos + n;
        proof {
            assert(out@ =~= pre.stream().take(n as int));
            assert(self.stream() =~= pre.stream().skip(n as int));
        }
        Some(out)
    }
}

/// A sink that accepts every write into a growing in-memory buffer.
pub struct VecSink {
    data: Vec<u8>,
}

impl VecSink {
    /// An empty sink.
    pub fn new() -> (r: Self)
        ensures
            r.sent() == Seq::<u8>::empty(),
    {
        VecSink { data: Vec::new() }
    }

    /// Hands the accepted bytes out.
    pub fn into_bytes(self) -> (r: Vec<u8>)
        ensures
            r@ == self.sent(),
    {
        self.data
    }
}

impl ByteSink for VecSink {
    closed spec fn sent(&self) -> Seq<u8> {
        self.data@
    }

    fn write(&mut self, data: &[u8]) -> (ok: bool) {
        let mut incoming = vstd::slice::slice_to_vec(data);
        self.data.append(&mut incoming);
        true
    }
}

/// A sink that accepts writes only while they fit under a fixed byte
/// budget, and rejects — without taking any byte — a write that would go
/// over it.
pub struct BoundedSink {
    data: Vec<u8>,
    budget: usize,
}

impl BoundedSink {
    /// An empty sink that will accept at most `budget` bytes in all.
    pub fn new(budget: usize) -> (r: Self)
        ensures
            r.sent() == Seq::<u8>::empty(),
    {
        BoundedSink { data: Vec::new(), budget }
    }

    /// Hands the accepted bytes out.
    pub fn into_bytes(self) -> (r: Vec<u8>)
        ensures
            r@ == self.sent(),
    {
        self.data
    }
}

impl ByteSink for BoundedSink {
    closed spec fn sent(&self) -> Seq<u8> {
        self.data@
    }

    fn write(&mut self, data: &[u8]) -> (ok: bool) {
        if data.len() <= self.budget && self.data.len() <= self.budget - data.len() {
            let mut incoming = vstd::slice::slice_to_vec(data);
            self.data.append(&mut incoming);
            true
        } else {
            false
        }
    }
}

} // verus!
