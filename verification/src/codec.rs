//! Fixed-width integer codec: 32-bit little-endian reads and writes at a
//! byte offset inside a buffer. Callers must size-check the buffer first;
//! the preconditions make an out-of-bounds access a verification error
//! rather than a runtime one.

use vstd::bytes::spec_u32_from_le_bytes;
use vstd::bytes::spec_u32_to_le_bytes;
use vstd::bytes::u32_from_le_bytes;
use vstd::bytes::u32_to_le_bytes;
use vstd::prelude::*;
use vstd::slice::slice_subrange;

verus! {

/// Reads the 32-bit integer stored little-endian at `offset`.
pub fn read_u32(buf: &[u8], offset: usize) -> (v: u32)
    requires
        offset + 4 <= buf.len(),
    ensures
        v == spec_u32_from_le_bytes(buf@.subrange(offset as int, offset as int + 4)),
{
    u32_from_le_bytes(slice_subrange(buf, offset, offset + 4))
}

/// Writes `v` little-endian at `offset`, leaving every other byte unchanged.
pub fn write_u32(buf: &mut Vec<u8>, offset: usize, v: u32)
    requires
        offset + 4 <= old(buf).len(),
    ensures
        final(buf)@ == old(buf)@.subrange(0, offset as int) + spec_u32_to_le_bytes(v)
            + old(buf)@.subrange(offset as int + 4, old(buf)@.len() as int),
{
    let bytes = u32_to_le_bytes(v);
    buf[offset] = bytes[0];
    buf[offset + 1] = bytes[1];
    buf[offset + 2] = bytes[2];
    buf[offset + 3] = bytes[3];
    proof {
        assert(buf@ =~= old(buf)@.subrange(0, offset as int) + spec_u32_to_le_bytes(v)
            + old(buf)@.subrange(offset as int + 4, old(buf)@.len() as int));
    }
}

} // verus!
