//! Copying bytes between buffers.

use vstd::prelude::*;

verus! {

/// `buf` with the bytes from `offset` on replaced by `data`, as far as `data`
/// reaches.
pub open spec fn overwritten(buf: Seq<u8>, offset: int, data: Seq<u8>) -> Seq<u8> {
    buf.subrange(0, offset) + data + buf.subrange(offset + data.len(), buf.len() as int)
}

/// Writes `data` over the bytes of `buf` that start at `offset`.
pub fn copy_into(buf: &mut [u8], offset: usize, data: &[u8])
    requires
        offset + data@.len() <= old(buf)@.len(),
    ensures
        final(buf)@ == overwritten(old(buf)@, offset as int, data@),
        final(buf)@.len() == old(buf)@.len(),
{
    let count = data.len();
    let total = buf.len();
    let mut i: usize = 0;
    while i < count
        invariant
            count == data@.len(),
            total == buf@.len(),
            total == old(buf)@.len(),
            i <= count,
            offset + count <= total,
            buf@ == overwritten(old(buf)@, offset as int, data@.subrange(0, i as int)),
        decreases count - i,
    {
        buf[offset + i] = data[i];
        i += 1;
    }
    proof {
        assert(data@.subrange(0, count as int) == data@);
    }
}

/// Adds `data` at the end of `dst`.
pub fn append_bytes(dst: &mut Vec<u8>, data: &[u8])
    ensures
        final(dst)@ == old(dst)@ + data@,
{
    let count = data.len();
    let mut i: usize = 0;
    while i < count
        invariant
            count == data@.len(),
            i <= count,
            dst@ == old(dst)@ + data@.subrange(0, i as int),
        decreases count - i,
    {
        dst.push(data[i]);
        i += 1;
    }
    proof {
        assert(data@.subrange(0, count as int) == data@);
    }
}

} // verus!
