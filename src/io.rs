//! Reading from and writing to byte buffers, chunk by chunk.
use vstd::prelude::*;

use crate::common::{remove_padding, unpadded};

verus! {

/// The chunk of at most `len` bytes that starts at `pos` in `data`.
pub open spec fn chunk_at(data: Seq<u8>, pos: int, len: int) -> Seq<u8> {
    if pos + len <= data.len() {
        data.subrange(pos, pos + len)
    } else {
        data.subrange(pos, data.len() as int)
    }
}

/// Reads the chunk of up to `len` bytes that starts at `pos`. A chunk shorter
/// than `len` means that the end of `data` has been reached.
pub fn read_chunk(data: &[u8], pos: usize, len: usize) -> (r: Vec<u8>)
    requires
        pos <= data@.len(),
    ensures
        r@ == chunk_at(data@, pos as int, len as int),
{
    let end = if len <= data.len() - pos {
        pos + len
    } else {
        data.len()
    };
    let mut out: Vec<u8> = Vec::new();
    let mut i: usize = pos;
    while i < end
        invariant
            pos <= i <= end <= data@.len(),
            out@ == data@.subrange(pos as int, i as int),
        decreases end - i,
    {
        out.push(data[i]);
        i = i + 1;
        assert(out@ =~= data@.subrange(pos as int, i as int));
    }
    out
}

/// What `write_pt` appends for `block`: nothing for an empty block or one
/// whose padding is invalid, else the block, without its padding if `padded`.
pub open spec fn pt_written(block: Seq<u8>, padded: bool) -> Seq<u8> {
    if block.len() == 0 {
        Seq::empty()
    } else if !padded {
        block
    } else {
        match unpadded(block) {
            Some(b) => b,
            None => Seq::empty(),
        }
    }
}

/// Appends a block of plaintext to `writer` (unless the block is empty). If
/// `padded`, the padding is removed first, and a block with invalid padding
/// writes nothing.
pub fn write_pt(block: Vec<u8>, writer: &mut Vec<u8>, padded: bool)
    ensures
        final(writer)@ == old(writer)@ + pt_written(block@, padded),
{
    if block.len() == 0 {
        assert(old(writer)@ + pt_written(block@, padded) =~= old(writer)@);
        return ;
    }
    let bytes = if padded {
        match remove_padding(block) {
            None => {
                assert(old(writer)@ + pt_written(block@, padded) =~= old(writer)@);
                return ;
            },
            Some(b) => b,
        }
    } else {
        block
    };
    let mut i: usize = 0;
    let ghost start = writer@;
    while i < bytes.len()
        invariant
            i <= bytes@.len(),
            writer@ == start + bytes@.take(i as int),
        decreases bytes.len() - i,
    {
        writer.push(bytes[i]);
        i = i + 1;
        assert(writer@ =~= start + bytes@.take(i as int));
    }
    assert(bytes@.take(i as int) =~= bytes@);
}

/// Appends `bytes` to `out`.
pub fn append_bytes(out: &mut Vec<u8>, bytes: &[u8])
    ensures
        final(out)@ == old(out)@ + bytes@,
{
    let ghost start = out@;
    let mut i: usize = 0;
    while i < bytes.len()
        invariant
            i <= bytes@.len(),
            out@ == start + bytes@.take(i as int),
        decreases bytes.len() - i,
    {
        out.push(bytes[i]);
        i = i + 1;
        assert(out@ =~= start + bytes@.take(i as int));
    }
    assert(bytes@.take(i as int) =~= bytes@);
}

/// The bytes of `data` from `pos` on.
pub fn slice_from(data: &[u8], pos: usize) -> (r: Vec<u8>)
    requires
        pos <= data@.len(),
    ensures
        r@ == data@.skip(pos as int),
{
    let mut out: Vec<u8> = Vec::new();
    let mut i: usize = pos;
    while i < data.len()
        invariant
            pos <= i <= data@.len(),
            out@ == data@.subrange(pos as int, i as int),
        decreases data.len() - i,
    {
        out.push(data[i]);
        i = i + 1;
        assert(out@ =~= data@.subrange(pos as int, i as int));
    }
    assert(out@ =~= data@.skip(pos as int));
    out
}

} // verus!
