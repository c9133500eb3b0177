//! Little-endian reads over an owned, seekable byte source.
use vstd::prelude::*;

use crate::s25::Error;

verus! {

/// Unsigned value of the two bytes at `p`, least significant first.
pub open spec fn u16_le(d: Seq<u8>, p: int) -> int {
    d[p] as int + 256 * d[p + 1] as int
}

/// Unsigned value of the four bytes at `p`, least significant first.
pub open spec fn u32_le(d: Seq<u8>, p: int) -> int {
    u16_le(d, p) + 65536 * u16_le(d, p + 2)
}

/// Two's-complement reading of a 16-bit unsigned value.
pub open spec fn as_i16(u: int) -> int {
    if u >= 0x8000 { u - 0x1_0000 } else { u }
}

/// Two's-complement reading of a 32-bit unsigned value.
pub open spec fn as_i32(u: int) -> int {
    if u >= 0x8000_0000 { u - 0x1_0000_0000 } else { u }
}

/// Signed 16-bit little-endian value at `p`.
pub open spec fn i16_le(d: Seq<u8>, p: int) -> i16 {
    as_i16(u16_le(d, p)) as i16
}

/// Signed 32-bit little-endian value at `p`.
pub open spec fn i32_le(d: Seq<u8>, p: int) -> i32 {
    as_i32(u32_le(d, p)) as i32
}

/// `n` bytes starting at `p` lie inside `d`.
pub open spec fn fits(d: Seq<u8>, p: int, n: int) -> bool {
    0 <= p && p + n <= d.len()
}

/// A byte source with a read position, as a file or an in-memory buffer has.
/// The position may lie past the end: reads there fail, as on a file.
pub struct ByteCursor {
    pub data: Vec<u8>,
    pub pos: u64,
}

impl ByteCursor {
    pub fn new(data: Vec<u8>) -> (r: ByteCursor)
        ensures
            r.data@ == data@,
            r.pos == 0,
    {
        ByteCursor { data, pos: 0 }
    }

    /// Moves the read position to `pos` bytes from the start.
    pub fn seek(&mut self, pos: u64)
        ensures
            final(self).data@ == old(self).data@,
            final(self).pos == pos,
    {
        self.pos = pos;
    }

    /// Takes the next `n` bytes, or fails when fewer than `n` remain.
    pub fn read_bytes(&mut self, n: usize) -> (r: Result<Vec<u8>, Error>)
        ensures
            final(self).data@ == old(self).data@,
            fits(old(self).data@, old(self).pos as int, n as int) <==> r is Ok,
            r matches Ok(v) ==> v@ == old(self).data@.subrange(
                old(self).pos as int,
                old(self).pos + n,
            ) && final(self).pos == old(self).pos + n,
            r matches Err(e) ==> e == Error::IoError && final(self).pos == old(self).pos,
    {
        let len = self.data.len();
        if self.pos > len as u64 || n > len - self.pos as usize {
            return Err(Error::IoError);
        }
        let start = self.pos as usize;
        let mut v: Vec<u8> = Vec::with_capacity(n);
        let mut i: usize = 0;
        while i < n
            invariant
                start + n <= len == self.data@.len(),
                i <= n,
                v@ == self.data@.subrange(start as int, start + i),
            decreases n - i,
        {
            v.push(self.data[start + i]);
            i += 1;
            assert(v@ =~= self.data@.subrange(start as int, start + i));
        }
        self.pos = (start + n) as u64;
        Ok(v)
    }
}

/// The signed 16-bit little-endian integer at `p` in `bytes`.
pub fn i16_at(bytes: &[u8], p: usize) -> (r: i16)
    requires
        fits(bytes@, p as int, 2),
    ensures
        r == i16_le(bytes@, p as int),
{
    let u: u16 = bytes[p] as u16 + 256 * (bytes[p + 1] as u16);
    if u >= 0x8000 {
        (u as i32 - 0x1_0000) as i16
    } else {
        u as i16
    }
}

/// The unsigned 16-bit little-endian integer at `p` in `bytes`.
pub fn u16_at(bytes: &[u8], p: usize) -> (r: u16)
    requires
        fits(bytes@, p as int, 2),
    ensures
        r == u16_le(bytes@, p as int),
{
    bytes[p] as u16 + 256 * (bytes[p + 1] as u16)
}

/// The signed 32-bit little-endian integer at `p` in `bytes`.
pub fn i32_at(bytes: &[u8], p: usize) -> (r: i32)
    requires
        fits(bytes@, p as int, 4),
    ensures
        r == i32_le(bytes@, p as int),
{
    let u: u32 = bytes[p] as u32 + 256 * (bytes[p + 1] as u32) + 65536 * (bytes[p + 2] as u32)
        + 16777216 * (bytes[p + 3] as u32);
    if u >= 0x8000_0000 {
        (u as i64 - 0x1_0000_0000) as i32
    } else {
        u as i32
    }
}

/// Reads a signed 16-bit little-endian integer and advances past it.
pub fn read_i16(reader: &mut ByteCursor) -> (r: Result<i16, Error>)
    ensures
        final(reader).data@ == old(reader).data@,
        fits(old(reader).data@, old(reader).pos as int, 2) <==> r is Ok,
        r matches Ok(x) ==> x == i16_le(old(reader).data@, old(reader).pos as int)
            && final(reader).pos == old(reader).pos + 2,
        r matches Err(e) ==> e == Error::IoError,
{
    let b = reader.read_bytes(2)?;
    Ok(i16_at(b.as_slice(), 0))
}

/// Reads a signed 32-bit little-endian integer and advances past it.
pub fn read_i32(reader: &mut ByteCursor) -> (r: Result<i32, Error>)
    ensures
        final(reader).data@ == old(reader).data@,
        fits(old(reader).data@, old(reader).pos as int, 4) <==> r is Ok,
        r matches Ok(x) ==> x == i32_le(old(reader).data@, old(reader).pos as int)
            && final(reader).pos == old(reader).pos + 4,
        r matches Err(e) ==> e == Error::IoError,
{
    let b = reader.read_bytes(4)?;
    Ok(i32_at(b.as_slice(), 0))
}

} // verus!
