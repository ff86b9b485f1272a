//! Bounds-checked access to big-endian `u64`s and byte ranges in a buffer.
use vstd::prelude::*;

use crate::OutaBounds;

verus! {

/// The value of eight bytes read as a big-endian integer.
pub open spec fn be_u64(b: Seq<u8>) -> u64 {
    (b[0] as u64) << 56u64 | (b[1] as u64) << 48u64 | (b[2] as u64) << 40u64 | (b[3] as u64)
        << 32u64 | (b[4] as u64) << 24u64 | (b[5] as u64) << 16u64 | (b[6] as u64) << 8u64
        | (b[7] as u64)
}

/// The eight big-endian bytes of `v`.
pub open spec fn be_bytes(v: u64) -> Seq<u8> {
    seq![
        (v >> 56u64) as u8,
        (v >> 48u64) as u8,
        (v >> 40u64) as u8,
        (v >> 32u64) as u8,
        (v >> 24u64) as u8,
        (v >> 16u64) as u8,
        (v >> 8u64) as u8,
        v as u8,
    ]
}

/// The big-endian `u64` stored at byte offset `off` of `d`.
pub open spec fn u64_at(d: Seq<u8>, off: int) -> u64 {
    be_u64(d.subrange(off, off + 8))
}

/// `d` with the bytes from `off` on replaced by `b`.
pub open spec fn splice(d: Seq<u8>, off: int, b: Seq<u8>) -> Seq<u8> {
    d.subrange(0, off) + b + d.subrange(off + b.len(), d.len() as int)
}

/// Eight big-endian bytes read back as the value they were made from.
pub proof fn lemma_be_round_trip(v: u64)
    ensures
        be_u64(be_bytes(v)) == v,
        be_bytes(v).len() == 8,
{
    let b = be_bytes(v);
    assert(b[0] == (v >> 56u64) as u8);
    assert(b[7] == v as u8);
    assert(((((v >> 56u64) as u8) as u64) << 56u64 | (((v >> 48u64) as u8) as u64) << 48u64
        | (((v >> 40u64) as u8) as u64) << 40u64 | (((v >> 32u64) as u8) as u64) << 32u64 | (((v
        >> 24u64) as u8) as u64) << 24u64 | (((v >> 16u64) as u8) as u64) << 16u64 | (((v
        >> 8u64) as u8) as u64) << 8u64 | ((v as u8) as u64)) == v) by (bit_vector);
}

/// After a splice, the bytes of `[x, y)` are those of `b` where the range lies
/// inside the spliced part, and those of `d` where it lies outside it.
pub proof fn lemma_splice_range(d: Seq<u8>, off: int, b: Seq<u8>, x: int, y: int)
    requires
        0 <= off,
        off + b.len() <= d.len(),
        0 <= x <= y <= d.len(),
    ensures
        splice(d, off, b).len() == d.len(),
        y <= off || off + b.len() <= x ==> splice(d, off, b).subrange(x, y) == d.subrange(x, y),
        off <= x && y <= off + b.len() ==> splice(d, off, b).subrange(x, y) == b.subrange(
            x - off,
            y - off,
        ),
{
    let s = splice(d, off, b);
    if y <= off || off + b.len() <= x {
        assert(s.subrange(x, y) =~= d.subrange(x, y));
    }
    if off <= x && y <= off + b.len() {
        assert(s.subrange(x, y) =~= b.subrange(x - off, y - off));
    }
}

/// Reads the big-endian `u64` at `start`.
pub fn read_u64(data: &[u8], start: u64) -> (r: Result<u64, OutaBounds>)
    ensures
        r is Ok <==> start + 8 <= data@.len(),
        r is Ok ==> r->Ok_0 == u64_at(data@, start as int),
{
    let len = data.len() as u64;
    if len < 8 || start > len - 8 {
        return Err(OutaBounds);
    }
    let i = start as usize;
    Ok((data[i] as u64) << 56u64 | (data[i + 1] as u64) << 48u64 | (data[i + 2] as u64) << 40u64
        | (data[i + 3] as u64) << 32u64 | (data[i + 4] as u64) << 24u64 | (data[i + 5] as u64)
        << 16u64 | (data[i + 6] as u64) << 8u64 | (data[i + 7] as u64))
}

/// Writes `value` as eight big-endian bytes at `start`.
pub fn write_u64(data: &mut [u8], start: u64, value: u64) -> (r: Result<(), OutaBounds>)
    ensures
        r is Ok <==> start + 8 <= old(data)@.len(),
        r is Ok ==> final(data)@ == splice(old(data)@, start as int, be_bytes(value)),
        r is Err ==> final(data)@ == old(data)@,
{
    let len = data.len() as u64;
    if len < 8 || start > len - 8 {
        return Err(OutaBounds);
    }
    let i = start as usize;
    data[i] = (value >> 56u64) as u8;
    data[i + 1] = (value >> 48u64) as u8;
    data[i + 2] = (value >> 40u64) as u8;
    data[i + 3] = (value >> 32u64) as u8;
    data[i + 4] = (value >> 24u64) as u8;
    data[i + 5] = (value >> 16u64) as u8;
    data[i + 6] = (value >> 8u64) as u8;
    data[i + 7] = value as u8;
    assert(data@ =~= splice(old(data)@, start as int, be_bytes(value)));
    Ok(())
}

/// The `len` bytes from `start` on, borrowed from `data`.
pub fn get_range_dynamic(data: &[u8], start: u64, len: u64) -> (r: Result<&[u8], OutaBounds>)
    ensures
        r is Ok <==> start + len <= data@.len(),
        r is Ok ==> r->Ok_0@ == data@.subrange(start as int, start + len),
{
    let n = data.len() as u64;
    if start > n || len > n - start {
        return Err(OutaBounds);
    }
    Ok(vstd::slice::slice_subrange(data, start as usize, (start + len) as usize))
}

/// Copies `buf` into `data` from `start` on.
pub fn write_range(data: &mut [u8], start: u64, buf: &[u8]) -> (r: Result<(), OutaBounds>)
    ensures
        r is Ok <==> start + buf@.len() <= old(data)@.len(),
        r is Ok ==> final(data)@ == splice(old(data)@, start as int, buf@),
        r is Err ==> final(data)@ == old(data)@,
{
    let n = data.len() as u64;
    let m = buf.len() as u64;
    if start > n || m > n - start {
        return Err(OutaBounds);
    }
    let s = start as usize;
    let mut j: usize = 0;
    while j < buf.len()
        invariant
            s + buf@.len() <= data@.len(),
            data@.len() == old(data)@.len(),
            j <= buf@.len(),
            data@ == splice(old(data)@, s as int, buf@.subrange(0, j as int)),
        decreases buf@.len() - j,
    {
        assert(s + j < data.len());
        data[s + j] = buf[j];
        assert(data@ =~= splice(old(data)@, s as int, buf@.subrange(0, j + 1)));
        j = j + 1;
    }
    assert(buf@.subrange(0, j as int) =~= buf@);
    Ok(())
}

} // verus!
