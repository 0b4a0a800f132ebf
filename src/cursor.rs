use vstd::prelude::*;

verus! {

/// Why a decode stopped.
#[derive(Debug, Clone, Copy, PartialEq, Eq, Structural)]
pub enum DecodeError {
    /// The archive does not start with the magic text "0.1M".
    InvalidFormat,
    /// A read of `needed` bytes at `position` ran past the end of the buffer.
    Truncated { position: u64, needed: u64 },
    /// A seek to `offset` went beyond the end of the buffer.
    OutOfRange { offset: u64 },
    /// The mask record at `offset` did not decompress to its full plane.
    MaskDecompressionFailed { offset: u64 },
    /// The four tag bytes at `position` are not valid UTF-8.
    EncodingError { position: u64 },
}

/// The little-endian 32-bit value stored at `p`.
pub open spec fn le32(b: Seq<u8>, p: int) -> u32 {
    (b[p] as int + b[p + 1] as int * 256 + b[p + 2] as int * 65536 + b[p + 3] as int * 16777216) as u32
}

/// The `Truncated` error of a read of `n` bytes at `p`.
pub open spec fn truncated(p: int, n: int) -> DecodeError {
    DecodeError::Truncated { position: p as u64, needed: n as u64 }
}

/// Reads a little-endian `u32` out of four bytes.
pub fn u32_from_le(b0: u8, b1: u8, b2: u8, b3: u8) -> (r: u32)
    ensures
        r == le32(seq![b0, b1, b2, b3], 0),
{
    b0 as u32 + (b1 as u32) * 256 + (b2 as u32) * 65536 + (b3 as u32) * 16777216
}

/// Copies `b[start..start + n]` into a new vector.
pub fn copy_range(b: &[u8], start: usize, n: usize) -> (r: Vec<u8>)
    requires
        start + n <= b@.len(),
    ensures
        r@ == b@.subrange(start as int, start + n),
{
    let mut r: Vec<u8> = Vec::with_capacity(n);
    let mut i: usize = 0;
    let len = b.len();
    while i < n
        invariant
            len == b@.len(),
            start + n <= b@.len(),
            i <= n,
            r@ == b@.subrange(start as int, start + i),
        decreases n - i,
    {
        r.push(b[start + i]);
        i = i + 1;
        assert(r@ =~= b@.subrange(start as int, start + i));
    }
    r
}

/// A read position over an archive held in memory.
pub struct ByteCursor<'a> {
    pub data: &'a [u8],
    pub pos: usize,
}

impl<'a> ByteCursor<'a> {
    /// A cursor at the start of `data`.
    pub fn new(data: &'a [u8]) -> (r: ByteCursor<'a>)
        ensures
            r.data@ == data@,
            r.pos == 0,
    {
        ByteCursor { data, pos: 0 }
    }

    /// Reads `n` bytes, or fails with `Truncated` where fewer remain.
    pub fn read_bytes(&mut self, n: u64) -> (r: Result<Vec<u8>, DecodeError>)
        requires
            old(self).pos <= old(self).data@.len(),
        ensures
            final(self).data@ == old(self).data@,
            final(self).pos <= final(self).data@.len(),
            old(self).pos + n <= old(self).data@.len() ==> (r matches Ok(v) && v@
                == old(self).data@.subrange(old(self).pos as int, old(self).pos + n) && final(
                self).pos == old(self).pos + n),
            old(self).pos + n > old(self).data@.len() ==> r == Err::<Vec<u8>, DecodeError>(
                truncated(old(self).pos as int, n as int),
            ),
    {
        if n > (self.data.len() - self.pos) as u64 {
            return Err(DecodeError::Truncated { position: self.pos as u64, needed: n });
        }
        let v = copy_range(self.data, self.pos, n as usize);
        self.pos = self.pos + n as usize;
        Ok(v)
    }

    /// Moves past `n` bytes, or fails with `Truncated` where fewer remain.
    pub fn skip(&mut self, n: u64) -> (r: Result<(), DecodeError>)
        requires
            old(self).pos <= old(self).data@.len(),
        ensures
            final(self).data@ == old(self).data@,
            final(self).pos <= final(self).data@.len(),
            old(self).pos + n <= old(self).data@.len() ==> (r is Ok && final(self).pos == old(
                self).pos + n),
            old(self).pos + n > old(self).data@.len() ==> r == Err::<(), DecodeError>(
                truncated(old(self).pos as int, n as int),
            ),
    {
        if n > (self.data.len() - self.pos) as u64 {
            return Err(DecodeError::Truncated { position: self.pos as u64, needed: n });
        }
        self.pos = self.pos + n as usize;
        Ok(())
    }

    /// Reads a little-endian `u32`.
    pub fn read_u32(&mut self) -> (r: Result<u32, DecodeError>)
        requires
            old(self).pos <= old(self).data@.len(),
        ensures
            final(self).data@ == old(self).data@,
            final(self).pos <= final(self).data@.len(),
            old(self).pos + 4 <= old(self).data@.len() ==> (r == Ok::<u32, DecodeError>(
                le32(old(self).data@, old(self).pos as int),
            ) && final(self).pos == old(self).pos + 4),
            old(self).pos + 4 > old(self).data@.len() ==> r == Err::<u32, DecodeError>(
                truncated(old(self).pos as int, 4),
            ),
    {
        let b = self.read_bytes(4)?;
        let r = u32_from_le(b[0], b[1], b[2], b[3]);
        proof {
            assert(seq![b@[0], b@[1], b@[2], b@[3]][0] == b@[0]);
        }
        Ok(r)
    }

    /// Moves to the absolute position `offset`, or fails with `OutOfRange`
    /// where it lies beyond the end of the buffer.
    pub fn seek(&mut self, offset: u64) -> (r: Result<(), DecodeError>)
        requires
            old(self).pos <= old(self).data@.len(),
        ensures
            final(self).data@ == old(self).data@,
            final(self).pos <= final(self).data@.len(),
            offset <= old(self).data@.len() ==> (r is Ok && final(self).pos == offset),
            offset > old(self).data@.len() ==> r == Err::<(), DecodeError>(
                DecodeError::OutOfRange { offset },
            ),
    {
        if offset > self.data.len() as u64 {
            return Err(DecodeError::OutOfRange { offset });
        }
        self.pos = offset as usize;
        Ok(())
    }
}

} // verus!
