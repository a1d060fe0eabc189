//! A cursor over the input bytes, and the length-prefixed sub-blocks that
//! GIF extensions and image data are stored in.

use byteorder::{ByteOrder, LittleEndian};
use vstd::prelude::*;

use crate::error::{eof, DecodeError, IoErrorKind};

verus! {

/// The number that the first two bytes of `b` stand for, least significant
/// byte first.
pub open spec fn le_u16(b: Seq<u8>) -> u16 {
    (b[0] as int + 256 * (b[1] as int)) as u16
}

/// `byteorder::LittleEndian::read_u16`: reads the first two bytes of `buf` as
/// a little-endian number. It panics on a shorter slice, which `requires`
/// leaves out.
#[verifier::external_body]
pub(crate) fn u16_from_le(buf: &[u8]) -> (n: u16)
    requires
        buf@.len() >= 2,
    ensures
        n == le_u16(buf@),
{
    LittleEndian::read_u16(buf)
}

/// Whether two byte strings are the same.
pub fn bytes_eq(a: &[u8], b: &[u8]) -> (same: bool)
    ensures
        same == (a@ == b@),
{
    if a.len() != b.len() {
        return false;
    }
    let mut i: usize = 0;
    while i < a.len()
        invariant
            a@.len() == b@.len(),
            i <= a@.len(),
            a@.take(i as int) == b@.take(i as int),
        decreases a.len() - i,
    {
        if a[i] != b[i] {
            return false;
        }
        assert(a@.take(i + 1) =~= a@.take(i as int).push(a@[i as int]));
        assert(b@.take(i + 1) =~= b@.take(i as int).push(b@[i as int]));
        i += 1;
    }
    assert(a@.take(i as int) =~= a@ && b@.take(i as int) =~= b@);
    true
}

/// A read position in a byte slice.
pub struct Reader<'a> {
    pub data: &'a [u8],
    pub pos: usize,
}

/// The outcome of reading `n` bytes at `pos`: the bytes and the position
/// behind them, or nothing where the input is too short.
pub open spec fn take_bytes(data: Seq<u8>, pos: int, n: int) -> Option<(Seq<u8>, int)> {
    if 0 <= pos && 0 <= n && pos + n <= data.len() {
        Some((data.subrange(pos, pos + n), pos + n))
    } else {
        None
    }
}

impl<'a> Reader<'a> {
    /// The position never lies behind the end of the data.
    pub open spec fn wf(&self) -> bool {
        self.pos <= self.data@.len()
    }

    /// A reader at the start of `data`.
    pub fn new(data: &'a [u8]) -> (rdr: Self)
        ensures
            rdr.wf(),
            rdr.data@ == data@,
            rdr.pos == 0,
    {
        Reader { data, pos: 0 }
    }

    /// Reads the next `n` bytes. Fails with end-of-input, leaving the
    /// position where it was, if fewer than `n` bytes are left.
    pub fn read_exact(&mut self, n: usize) -> (r: Result<&'a [u8], DecodeError>)
        requires
            old(self).wf(),
        ensures
            final(self).wf(),
            final(self).data == old(self).data,
            match take_bytes(old(self).data@, old(self).pos as int, n as int) {
                Some((bytes, end)) => r matches Ok(got) && got@ == bytes && final(self).pos == end,
                None => r matches Err(e) && e@ == eof() && final(self).pos == old(self).pos,
            },
    {
        if n > self.data.len() - self.pos {
            return Err(DecodeError::IO(IoErrorKind::UnexpectedEof));
        }
        let start = self.pos;
        let data: &'a [u8] = self.data;
        let got = vstd::slice::slice_subrange(data, start, start + n);
        self.pos = start + n;
        Ok(got)
    }

    /// Reads one byte.
    pub fn read_u8(&mut self) -> (r: Result<u8, DecodeError>)
        requires
            old(self).wf(),
        ensures
            final(self).wf(),
            final(self).data == old(self).data,
            match take_bytes(old(self).data@, old(self).pos as int, 1) {
                Some((bytes, end)) => r == Ok::<u8, DecodeError>(bytes[0]) && final(self).pos == end,
                None => r matches Err(e) && e@ == eof() && final(self).pos == old(self).pos,
            },
    {
        let buf = self.read_exact(1)?;
        Ok(buf[0])
    }

    /// Reads a 16-bit number stored least significant byte first.
    pub fn read_u16_le(&mut self) -> (r: Result<u16, DecodeError>)
        requires
            old(self).wf(),
        ensures
            final(self).wf(),
            final(self).data == old(self).data,
            match take_bytes(old(self).data@, old(self).pos as int, 2) {
                Some((bytes, end)) => r == Ok::<u16, DecodeError>(le_u16(bytes)) && final(self).pos == end,
                None => r matches Err(e) && e@ == eof() && final(self).pos == old(self).pos,
            },
    {
        let buf = self.read_exact(2)?;
        Ok(u16_from_le(buf))
    }
}

} // verus!
