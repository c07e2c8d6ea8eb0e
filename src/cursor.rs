use crate::error::WadError;
use vstd::prelude::*;
use vstd::slice::slice_subrange;

verus! {

/// The unsigned little-endian value of the first four bytes of `b`.
pub open spec fn le_u32(b: Seq<u8>) -> int {
    b[0] + 256 * b[1] + 65536 * b[2] + 16777216 * b[3]
}

/// The two's-complement little-endian value of the first four bytes of `b`.
pub open spec fn le_i32(b: Seq<u8>) -> int {
    if le_u32(b) < 0x8000_0000 {
        le_u32(b)
    } else {
        le_u32(b) - 0x1_0000_0000
    }
}

/// Decodes a little-endian `u32` from four bytes.
pub fn u32_from_le(b: &[u8]) -> (r: u32)
    requires
        b@.len() == 4,
    ensures
        r == le_u32(b@),
{
    (b[0] as u32) + (b[1] as u32) * 256 + (b[2] as u32) * 65536 + (b[3] as u32) * 16777216
}

/// Reinterprets an unsigned 32-bit value as a two's-complement one.
pub fn i32_from_bits(u: u32) -> (r: i32)
    ensures
        r == (if u < 0x8000_0000 { u as int } else { u - 0x1_0000_0000 }),
{
    if u < 0x8000_0000 {
        u as i32
    } else {
        (u - 0x8000_0000) as i32 - 0x7fff_ffff - 1
    }
}

/// A read position over a borrowed byte slice.
pub struct Cursor<'a> {
    data: &'a [u8],
    pos: usize,
}

impl<'a> Cursor<'a> {
    /// The bytes under the cursor.
    pub closed spec fn bytes(&self) -> Seq<u8> {
        self.data@
    }

    /// The index of the next byte to read.
    pub closed spec fn pos(&self) -> int {
        self.pos as int
    }

    #[verifier::type_invariant]
    spec fn inv(&self) -> bool {
        self.pos <= self.data@.len()
    }

    /// A cursor at byte `pos` of `data`.
    pub fn at(data: &'a [u8], pos: usize) -> (r: Self)
        requires
            pos <= data@.len(),
        ensures
            r.bytes() == data@,
            r.pos() == pos,
    {
        Cursor { data, pos }
    }

    /// The index of the next byte to read.
    pub fn position(&self) -> (r: usize)
        ensures
            r == self.pos(),
    {
        self.pos
    }

    /// Reads the next `n` bytes and moves past them; `UnexpectedEnd`, with
    /// the position kept, where fewer than `n` remain.
    pub fn read_bytes(&mut self, n: usize) -> (r: Result<&'a [u8], WadError>)
        ensures
            final(self).bytes() == old(self).bytes(),
            old(self).pos() + n <= old(self).bytes().len() ==> {
                &&& r is Ok
                &&& r->Ok_0@ == old(self).bytes().subrange(old(self).pos(), old(self).pos() + n)
                &&& final(self).pos() == old(self).pos() + n
            },
            old(self).pos() + n > old(self).bytes().len() ==> {
                &&& r == Err::<&'a [u8], WadError>(WadError::UnexpectedEnd)
                &&& final(self).pos() == old(self).pos()
            },
    {
        proof {
            use_type_invariant(&*self);
        }
        if n > self.data.len() - self.pos {
            return Err(WadError::UnexpectedEnd);
        }
        let s = slice_subrange(self.data, self.pos, self.pos + n);
        self.pos = self.pos + n;
        Ok(s)
    }

    /// Reads a little-endian `u32`.
    pub fn read_u32(&mut self) -> (r: Result<u32, WadError>)
        ensures
            final(self).bytes() == old(self).bytes(),
            old(self).pos() + 4 <= old(self).bytes().len() ==> {
                &&& r is Ok
                &&& r->Ok_0 == le_u32(old(self).bytes().subrange(old(self).pos(), old(self).pos() + 4))
                &&& final(self).pos() == old(self).pos() + 4
            },
            old(self).pos() + 4 > old(self).bytes().len() ==> {
                &&& r == Err::<u32, WadError>(WadError::UnexpectedEnd)
                &&& final(self).pos() == old(self).pos()
            },
    {
        let b = self.read_bytes(4)?;
        Ok(u32_from_le(b))
    }

    /// Reads a little-endian two's-complement `i32`.
    pub fn read_int(&mut self) -> (r: Result<i32, WadError>)
        ensures
            final(self).bytes() == old(self).bytes(),
            old(self).pos() + 4 <= old(self).bytes().len() ==> {
                &&& r is Ok
                &&& r->Ok_0 == le_i32(old(self).bytes().subrange(old(self).pos(), old(self).pos() + 4))
                &&& final(self).pos() == old(self).pos() + 4
            },
            old(self).pos() + 4 > old(self).bytes().len() ==> {
                &&& r == Err::<i32, WadError>(WadError::UnexpectedEnd)
                &&& final(self).pos() == old(self).pos()
            },
    {
        let u = self.read_u32()?;
        Ok(i32_from_bits(u))
    }
}

} // verus!
