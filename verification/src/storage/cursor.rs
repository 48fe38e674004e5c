use vstd::bytes::*;
use vstd::prelude::*;
use vstd::slice::slice_subrange;
use vstd::slice::slice_to_vec;

verus! {

/// `s` with the bytes `b` written over it from position `pos` on.
pub open spec fn splice(s: Seq<u8>, pos: int, b: Seq<u8>) -> Seq<u8> {
    s.subrange(0, pos) + b + s.subrange(pos + b.len(), s.len() as int)
}

/// Reads and writes little-endian values sequentially in an owned byte buffer,
/// tracking the offset of the next access.
pub struct ByteCursor {
    buffer: Vec<u8>,
    pos: usize,
}

impl ByteCursor {
    /// The bytes of the buffer.
    pub closed spec fn bytes(&self) -> Seq<u8> {
        self.buffer@
    }

    /// The offset of the next read or write.
    pub closed spec fn pos(&self) -> int {
        self.pos as int
    }

    proof fn lemma_len_fits(&self)
        ensures
            self.buffer@.len() <= usize::MAX,
    {
        assert(self.buffer.len() == self.buffer@.len());
    }

    /// The offset is never negative.
    pub proof fn lemma_pos_nonneg(&self)
        ensures
            0 <= self.pos(),
    {
    }

    /// A cursor at offset 0 of `buffer`.
    pub fn new(buffer: Vec<u8>) -> (cursor: Self)
        ensures
            cursor.bytes() == buffer@,
            cursor.pos() == 0,
    {
        Self { buffer, pos: 0 }
    }

    /// The current offset.
    pub fn position(&self) -> (p: usize)
        ensures
            p == self.pos(),
    {
        self.pos
    }

    /// Moves the offset forward by `n` bytes without touching them; the offset
    /// may end up past the end of the buffer.
    pub fn skip(&mut self, n: usize)
        requires
            old(self).pos() + n <= usize::MAX,
        ensures
            final(self).bytes() == old(self).bytes(),
            final(self).pos() == old(self).pos() + n,
    {
        proof {
            self.lemma_len_fits();
        }
        self.pos = self.pos + n;
    }

    /// Gives the buffer back.
    pub fn into_buffer(self) -> (buffer: Vec<u8>)
        ensures
            buffer@ == self.bytes(),
    {
        self.buffer
    }

    /// Writes one byte.
    pub fn write_u8(&mut self, val: u8)
        requires
            old(self).pos() + 1 <= old(self).bytes().len(),
        ensures
            final(self).bytes() == splice(old(self).bytes(), old(self).pos(), seq![val]),
            final(self).pos() == old(self).pos() + 1,
    {
        proof {
            self.lemma_len_fits();
        }
        self.buffer.set(self.pos, val);
        self.pos = self.pos + 1;
        proof {
            assert(self.buffer@ =~= splice(old(self).bytes(), old(self).pos(), seq![val]));
        }
    }

    /// Writes `val` byte by byte.
    pub fn write_bytes(&mut self, val: &[u8])
        requires
            old(self).pos() + val@.len() <= old(self).bytes().len(),
        ensures
            final(self).bytes() == splice(old(self).bytes(), old(self).pos(), val@),
            final(self).pos() == old(self).pos() + val@.len(),
    {
        proof {
            self.lemma_len_fits();
        }
        let start = self.pos;
        let n = val.len();
        let mut i: usize = 0;
        while i < n
            invariant
                0 <= i <= n,
                n == val@.len(),
                start == old(self).pos(),
                start + n <= old(self).bytes().len(),
                old(self).bytes().len() <= usize::MAX,
                self.pos == start,
                self.buffer@ == splice(old(self).bytes(), start as int, val@.subrange(0, i as int)),
            decreases n - i,
        {
            self.buffer.set(start + i, val[i]);
            i = i + 1;
            proof {
                assert(self.buffer@ =~= splice(
                    old(self).bytes(),
                    start as int,
                    val@.subrange(0, i as int),
                ));
            }
        }
        proof {
            assert(val@.subrange(0, n as int) =~= val@);
        }
        self.pos = start + n;
    }

    /// Writes `val` in little-endian order.
    pub fn write_u16(&mut self, val: u16)
        requires
            old(self).pos() + 2 <= old(self).bytes().len(),
        ensures
            final(self).bytes() == splice(
                old(self).bytes(),
                old(self).pos(),
                spec_u16_to_le_bytes(val),
            ),
            final(self).pos() == old(self).pos() + 2,
    {
        let b = u16_to_le_bytes(val);
        self.write_bytes(b.as_slice());
    }

    /// Writes `val` in little-endian order.
    pub fn write_u32(&mut self, val: u32)
        requires
            old(self).pos() + 4 <= old(self).bytes().len(),
        ensures
            final(self).bytes() == splice(
                old(self).bytes(),
                old(self).pos(),
                spec_u32_to_le_bytes(val),
            ),
            final(self).pos() == old(self).pos() + 4,
    {
        let b = u32_to_le_bytes(val);
        self.write_bytes(b.as_slice());
    }

    /// Writes `val` in little-endian order.
    pub fn write_u64(&mut self, val: u64)
        requires
            old(self).pos() + 8 <= old(self).bytes().len(),
        ensures
            final(self).bytes() == splice(
                old(self).bytes(),
                old(self).pos(),
                spec_u64_to_le_bytes(val),
            ),
            final(self).pos() == old(self).pos() + 8,
    {
        proof {
            lemma_auto_spec_u64_to_from_le_bytes();
        }
        let b = u64_to_le_bytes(val);
        self.write_bytes(b.as_slice());
    }

    /// Reads one byte.
    pub fn read_u8(&mut self) -> (val: u8)
        requires
            old(self).pos() + 1 <= old(self).bytes().len(),
        ensures
            val == old(self).bytes()[old(self).pos()],
            final(self).bytes() == old(self).bytes(),
            final(self).pos() == old(self).pos() + 1,
    {
        proof {
            self.lemma_len_fits();
        }
        let val = self.buffer[self.pos];
        self.pos = self.pos + 1;
        val
    }

    /// Reads a little-endian `u16`.
    pub fn read_u16(&mut self) -> (val: u16)
        requires
            old(self).pos() + 2 <= old(self).bytes().len(),
        ensures
            val == spec_u16_from_le_bytes(
                old(self).bytes().subrange(old(self).pos(), old(self).pos() + 2),
            ),
            final(self).bytes() == old(self).bytes(),
            final(self).pos() == old(self).pos() + 2,
    {
        proof {
            self.lemma_len_fits();
        }
        let val = u16_from_le_bytes(slice_subrange(self.buffer.as_slice(), self.pos, self.pos + 2));
        self.pos = self.pos + 2;
        val
    }

    /// Reads a little-endian `u32`.
    pub fn read_u32(&mut self) -> (val: u32)
        requires
            old(self).pos() + 4 <= old(self).bytes().len(),
        ensures
            val == spec_u32_from_le_bytes(
                old(self).bytes().subrange(old(self).pos(), old(self).pos() + 4),
            ),
            final(self).bytes() == old(self).bytes(),
            final(self).pos() == old(self).pos() + 4,
    {
        proof {
            self.lemma_len_fits();
        }
        let val = u32_from_le_bytes(slice_subrange(self.buffer.as_slice(), self.pos, self.pos + 4));
        self.pos = self.pos + 4;
        val
    }

    /// Reads a little-endian `u64`.
    pub fn read_u64(&mut self) -> (val: u64)
        requires
            old(self).pos() + 8 <= old(self).bytes().len(),
        ensures
            val == spec_u64_from_le_bytes(
                old(self).bytes().subrange(old(self).pos(), old(self).pos() + 8),
            ),
            final(self).bytes() == old(self).bytes(),
            final(self).pos() == old(self).pos() + 8,
    {
        proof {
            self.lemma_len_fits();
        }
        let val = u64_from_le_bytes(slice_subrange(self.buffer.as_slice(), self.pos, self.pos + 8));
        self.pos = self.pos + 8;
        val
    }

    /// Reads the next `len` bytes.
    pub fn read_bytes(&mut self, len: usize) -> (val: Vec<u8>)
        requires
            old(self).pos() + len <= old(self).bytes().len(),
        ensures
            val@ == old(self).bytes().subrange(old(self).pos(), old(self).pos() + len),
            final(self).bytes() == old(self).bytes(),
            final(self).pos() == old(self).pos() + len,
    {
        proof {
            self.lemma_len_fits();
        }
        let val = slice_to_vec(slice_subrange(self.buffer.as_slice(), self.pos, self.pos + len));
        self.pos = self.pos + len;
        val
    }
}

} // verus!
