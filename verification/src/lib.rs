//! Wire framing for a segmented binary message format.
//!
//! A message is an ordered set of word-aligned segments (a word is 8 bytes).
//! On the wire a message starts with a table of 32-bit little-endian entries:
//! the segment count minus one, one word-size per segment, and a zero pad
//! entry when needed so that the table ends on a word boundary. The segment
//! bodies follow in order. `decode` turns a byte stream into a `SegmentSet`,
//! validating the header against hard limits before any large allocation;
//! `encode` writes the table and the live prefix of each segment builder to a
//! byte sink.

pub mod codec;
pub mod decode;
pub mod encode;
pub mod segments;
pub mod stream;
pub mod wire;

pub use codec::read_u32;
pub use codec::write_u32;
pub use decode::read_message;
pub use encode::write_message;
pub use segments::SegmentBuilder;
pub use segments::SegmentSet;
pub use stream::read_exact;
pub use stream::BoundedSink;
pub use stream::ByteSink;
pub use stream::ByteSource;
pub use stream::ChunkedSource;
pub use stream::VecSink;
pub use wire::FrameError;
pub use wire::ReaderOptions;
