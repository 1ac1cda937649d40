//! The in-memory storage backend: a growable byte buffer with positioned
//! reads and writes, range copies, byte fills and truncation.
//!
//! Every archive operation in this crate runs against a [`MemStorage`]; a
//! caller that keeps an archive in a file loads it into a buffer first and
//! writes the buffer back afterwards.

use vstd::prelude::*;

verus! {

/// A seek origin, mirroring the three standard seek modes.
pub enum SeekFrom {
    /// Absolute offset from the start of the stream.
    Start(u64),
    /// Signed offset from the end of the stream.
    End(i64),
    /// Signed offset from the current position.
    Current(i64),
}

/// Random-access byte storage backed by memory.
pub struct MemStorage {
    bytes: Vec<u8>,
}

impl View for MemStorage {
    type V = Seq<u8>;

    closed spec fn view(&self) -> Seq<u8> {
        self.bytes@
    }
}

impl MemStorage {
    /// Creates an empty storage buffer.
    pub fn new() -> (r: MemStorage)
        ensures
            r@ == Seq::<u8>::empty(),
    {
        MemStorage { bytes: Vec::new() }
    }

    /// Wraps an existing byte buffer.
    pub fn from_vec(bytes: Vec<u8>) -> (r: MemStorage)
        ensures
            r@ == bytes@,
    {
        MemStorage { bytes }
    }

    /// Returns the underlying bytes, consuming the storage.
    pub fn into_vec(self) -> (r: Vec<u8>)
        ensures
            r@ == self@,
    {
        self.bytes
    }

    /// Borrows the underlying bytes.
    pub fn as_vec(&self) -> (r: &Vec<u8>)
        ensures
            r@ == self@,
    {
        &self.bytes
    }

    /// Current stream length in bytes.
    pub fn len(&self) -> (r: usize)
        ensures
            r == self@.len(),
    {
        self.bytes.len()
    }

    /// Reads the byte at `offset`.
    pub fn byte_at(&self, offset: usize) -> (r: u8)
        requires
            offset < self@.len(),
        ensures
            r == self@[offset as int],
    {
        self.bytes[offset]
    }

    /// Reads exactly `count` bytes starting at `offset`.
    pub fn read_exact(&self, offset: usize, count: usize) -> (r: Vec<u8>)
        requires
            offset + count <= self@.len(),
        ensures
            r@ == self@.subrange(offset as int, offset + count),
    {
        let _n: usize = self.bytes.len();
        let mut out: Vec<u8> = Vec::new();
        let mut i: usize = 0;
        while i < count
            invariant
                i <= count,
                offset + count <= self@.len(),
                self@.len() <= usize::MAX,
                out@ == self@.subrange(offset as int, offset + i),
            decreases count - i,
        {
            out.push(self.bytes[offset + i]);
            i = i + 1;
            proof {
                assert(out@ =~= self@.subrange(offset as int, offset + i));
            }
        }
        out
    }

    /// Writes `data` starting at `offset`, extending the stream if the write
    /// runs past its current end. The write must start at or before the
    /// current end (no gap is ever created).
    pub fn write_at(&mut self, offset: usize, data: &[u8])
        requires
            offset <= old(self)@.len(),
            offset + data@.len() <= usize::MAX,
        ensures
            final(self)@.len() == vstd::math::max(old(self)@.len() as int, offset + data@.len()),
            forall|i: int|
                0 <= i < old(self)@.len() && !(offset <= i < offset + data@.len())
                    ==> final(self)@[i] == old(self)@[i],
            final(self)@.subrange(offset as int, offset + data@.len()) == data@,
    {
        let mut i: usize = 0;
        while i < data.len()
            invariant
                i <= data@.len(),
                offset <= old(self)@.len(),
                offset + data@.len() <= usize::MAX,
                self@.len() == vstd::math::max(old(self)@.len() as int, offset + i),
                forall|j: int|
                    0 <= j < old(self)@.len() && !(offset <= j < offset + i)
                        ==> self@[j] == old(self)@[j],
                forall|j: int| 0 <= j < i ==> self@[offset + j] == data@[j],
            decreases data@.len() - i,
        {
            if offset + i < self.bytes.len() {
                self.bytes[offset + i] = data[i];
            } else {
                self.bytes.push(data[i]);
            }
            i = i + 1;
        }
        proof {
            assert(self@.subrange(offset as int, offset + data@.len()) =~= data@);
        }
    }

    /// Truncates the stream to `len` bytes. `len` must not exceed the current
    /// length; growing is done by [`Truncate::truncate`], which zero-fills.
    pub fn shrink_to(&mut self, len: usize)
        requires
            len <= old(self)@.len(),
        ensures
            final(self)@ == old(self)@.take(len as int),
    {
        self.bytes.truncate(len);
        proof {
            assert(self@ =~= old(self)@.take(len as int));
        }
    }
}

/// Positioned big-endian reads over byte storage.
pub trait ReadExt: View<V = Seq<u8>> {
    /// Reads one byte at `offset`.
    fn read_u8(&self, offset: usize) -> (r: u8)
        requires
            offset < self@.len(),
        ensures
            r == self@[offset as int],
    ;

    /// Reads a big-endian `u16` at `offset`.
    fn read_u16_be(&self, offset: usize) -> (r: u16)
        requires
            offset + 2 <= self@.len(),
        ensures
            r == crate::codec::be16_at(self@, offset as int),
    ;

    /// Reads a big-endian `u32` at `offset`.
    fn read_u32_be(&self, offset: usize) -> (r: u32)
        requires
            offset + 4 <= self@.len(),
        ensures
            r == crate::codec::be32_at(self@, offset as int),
    ;

    /// Reads exactly `count` bytes at `offset`.
    fn read_n_exact(&self, offset: usize, count: usize) -> (r: Vec<u8>)
        requires
            offset + count <= self@.len(),
        ensures
            r@ == self@.subrange(offset as int, offset + count),
    ;
}

impl ReadExt for MemStorage {
    fn read_u8(&self, offset: usize) -> (r: u8) {
        self.byte_at(offset)
    }

    fn read_u16_be(&self, offset: usize) -> (r: u16) {
        let _n: usize = self.len();
        let hi = self.byte_at(offset);
        let lo = self.byte_at(offset + 1);
        (hi as u16) * 0x100 + (lo as u16)
    }

    fn read_u32_be(&self, offset: usize) -> (r: u32) {
        let _n: usize = self.len();
        let b0 = self.byte_at(offset);
        let b1 = self.byte_at(offset + 1);
        let b2 = self.byte_at(offset + 2);
        let b3 = self.byte_at(offset + 3);
        (b0 as u32) * 0x100_0000 + (b1 as u32) * 0x1_0000 + (b2 as u32) * 0x100 + (b3 as u32)
    }

    fn read_n_exact(&self, offset: usize, count: usize) -> (r: Vec<u8>) {
        self.read_exact(offset, count)
    }
}

/// Positioned writes of single bytes, big-endian integers and byte fills.
pub trait WriteExt: View<V = Seq<u8>> {
    /// Writes one byte at `offset`.
    fn write_u8(&mut self, offset: usize, value: u8)
        requires
            offset <= old(self)@.len(),
            offset + 1 <= usize::MAX,
        ensures
            final(self)@.len() == vstd::math::max(old(self)@.len() as int, offset + 1),
            forall|i: int|
                0 <= i < old(self)@.len() && i != offset ==> final(self)@[i] == old(self)@[i],
            final(self)@[offset as int] == value,
    ;

    /// Writes a big-endian `u16` at `offset`.
    fn write_u16_be(&mut self, offset: usize, value: u16)
        requires
            offset <= old(self)@.len(),
            offset + 2 <= usize::MAX,
        ensures
            final(self)@.len() == vstd::math::max(old(self)@.len() as int, offset + 2),
            forall|i: int|
                0 <= i < old(self)@.len() && !(offset <= i < offset + 2)
                    ==> final(self)@[i] == old(self)@[i],
            final(self)@.subrange(offset as int, offset + 2) == crate::codec::be16_bytes(value),
    ;

    /// Writes a big-endian `u32` at `offset`.
    fn write_u32_be(&mut self, offset: usize, value: u32)
        requires
            offset <= old(self)@.len(),
            offset + 4 <= usize::MAX,
        ensures
            final(self)@.len() == vstd::math::max(old(self)@.len() as int, offset + 4),
            forall|i: int|
                0 <= i < old(self)@.len() && !(offset <= i < offset + 4)
                    ==> final(self)@[i] == old(self)@[i],
            final(self)@.subrange(offset as int, offset + 4) == crate::codec::be32_bytes(value),
    ;

    /// Writes `count` copies of `value` starting at `offset`.
    fn fill(&mut self, offset: usize, value: u8, count: usize)
        requires
            offset <= old(self)@.len(),
            offset + count <= usize::MAX,
        ensures
            final(self)@.len() == vstd::math::max(old(self)@.len() as int, offset + count),
            forall|i: int|
                0 <= i < old(self)@.len() && !(offset <= i < offset + count)
                    ==> final(self)@[i] == old(self)@[i],
            forall|i: int| offset <= i < offset + count ==> final(self)@[i] == value,
    ;
}

impl WriteExt for MemStorage {
    fn write_u8(&mut self, offset: usize, value: u8) {
        let mut data: Vec<u8> = Vec::new();
        data.push(value);
        self.write_at(offset, data.as_slice());
        proof {
            assert(self@[offset as int] == self@.subrange(offset as int, offset + 1)[0]);
        }
    }

    fn write_u16_be(&mut self, offset: usize, value: u16) {
        let data = crate::codec::u16_to_be(value);
        self.write_at(offset, data.as_slice());
    }

    fn write_u32_be(&mut self, offset: usize, value: u32) {
        let data = crate::codec::u32_to_be(value);
        self.write_at(offset, data.as_slice());
    }

    fn fill(&mut self, offset: usize, value: u8, count: usize) {
        let mut i: usize = 0;
        while i < count
            invariant
                i <= count,
                offset <= old(self)@.len(),
                offset + count <= usize::MAX,
                self@.len() == vstd::math::max(old(self)@.len() as int, offset + i),
                forall|j: int|
                    0 <= j < old(self)@.len() && !(offset <= j < offset + i)
                        ==> self@[j] == old(self)@[j],
                forall|j: int| offset <= j < offset + i ==> self@[j] == value,
            decreases count - i,
        {
            if offset + i < self.bytes.len() {
                self.bytes[offset + i] = value;
            } else {
                self.bytes.push(value);
            }
            i = i + 1;
        }
    }
}

/// Intra-stream range copies.
pub trait ReadSeekWriteExt: View<V = Seq<u8>> {
    /// Copies `count` bytes from `input_offset` to `output_offset`. The
    /// source range must lie within the stream; the target may extend it.
    fn copy_within(&mut self, input_offset: usize, count: usize, output_offset: usize)
        requires
            input_offset + count <= old(self)@.len(),
            output_offset <= old(self)@.len(),
            output_offset + count <= usize::MAX,
        ensures
            final(self)@.len() == vstd::math::max(old(self)@.len() as int, output_offset + count),
            forall|i: int|
                0 <= i < old(self)@.len() && !(output_offset <= i < output_offset + count)
                    ==> final(self)@[i] == old(self)@[i],
            final(self)@.subrange(output_offset as int, output_offset + count)
                == old(self)@.subrange(input_offset as int, input_offset + count),
    ;
}

impl ReadSeekWriteExt for MemStorage {
    fn copy_within(&mut self, input_offset: usize, count: usize, output_offset: usize) {
        let data = self.read_exact(input_offset, count);
        self.write_at(output_offset, data.as_slice());
    }
}

/// Storage that can change its length in either direction: shrinking drops
/// the tail, growing zero-fills it.
pub trait Truncate: View<V = Seq<u8>> {
    /// Resizes the stream to exactly `len` bytes.
    fn truncate(&mut self, len: usize)
        ensures
            final(self)@.len() == len,
            forall|i: int| 0 <= i < len && i < old(self)@.len() ==> final(self)@[i] == old(self)@[i],
            forall|i: int| old(self)@.len() <= i < len ==> final(self)@[i] == 0,
    ;
}

impl Truncate for MemStorage {
    fn truncate(&mut self, len: usize) {
        if len <= self.bytes.len() {
            self.shrink_to(len);
        } else {
            let grow = len - self.bytes.len();
            let start = self.bytes.len();
            self.fill(start, 0, grow);
        }
    }
}

} // verus!
