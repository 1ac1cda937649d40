//! Read handles: byte-level access to one entry's logical content.

use vstd::prelude::*;

use crate::errors::{OpenError, SeekError};
use crate::state::PkgState;
use crate::storage::{MemStorage, SeekFrom};

verus! {

/// A bounded cursor over an uncompressed entry's stored bytes. The handle
/// addresses storage positions `offset .. offset + size`.
pub struct RawReadWriteHandle {
    /// Absolute start of the entry's bytes.
    pub offset: u64,
    /// Current position within the entry.
    pub cursor: u64,
    /// Length of the entry in bytes.
    pub size: u64,
}

impl RawReadWriteHandle {
    /// The handle's range lies within the stream.
    pub open spec fn wf(&self, b: Seq<u8>) -> bool {
        self.offset + self.size <= b.len()
    }

    /// Reads up to `count` bytes at the cursor, advancing it. Past the end
    /// of the entry nothing is read.
    pub fn read(&mut self, storage: &MemStorage, count: usize) -> (r: Vec<u8>)
        requires
            old(self).wf(storage@),
            storage@.len() <= 0xFFFF_FFFF,
        ensures
            final(self).offset == old(self).offset,
            final(self).size == old(self).size,
            ({
                let cur = old(self).cursor as int;
                if cur <= old(self).size {
                    let n = vstd::math::min(count as int, old(self).size - cur);
                    r@ == storage@.subrange(
                        old(self).offset + cur,
                        old(self).offset + cur + n,
                    ) && final(self).cursor == cur + n
                } else {
                    r@ == Seq::<u8>::empty() && final(self).cursor == old(self).cursor
                }
            }),
    {
        if self.cursor > self.size {
            let r: Vec<u8> = Vec::new();
            proof {
                assert(r@ =~= Seq::<u8>::empty());
            }
            return r;
        }
        let remaining = self.size - self.cursor;
        let n: usize = if (count as u64) < remaining {
            count
        } else {
            remaining as usize
        };
        let start = (self.offset + self.cursor) as usize;
        let out = storage.read_exact(start, n);
        self.cursor = self.cursor + (n as u64);
        out
    }

    /// Reads everything from the cursor to the end of the entry.
    pub fn read_to_end(&mut self, storage: &MemStorage) -> (r: Vec<u8>)
        requires
            old(self).wf(storage@),
            storage@.len() <= 0xFFFF_FFFF,
        ensures
            final(self).offset == old(self).offset,
            final(self).size == old(self).size,
            ({
                let cur = old(self).cursor as int;
                if cur <= old(self).size {
                    r@ == storage@.subrange(old(self).offset + cur, old(self).offset + old(
                        self,
                    ).size) && final(self).cursor == old(self).size
                } else {
                    r@ == Seq::<u8>::empty() && final(self).cursor == old(self).cursor
                }
            }),
    {
        if self.cursor > self.size {
            let r: Vec<u8> = Vec::new();
            proof {
                assert(r@ =~= Seq::<u8>::empty());
            }
            return r;
        }
        let remaining = (self.size - self.cursor) as usize;
        self.read(storage, remaining)
    }

    /// Moves the cursor: from the entry's start, its end, or the current
    /// position. A target before the entry's start is rejected; one past its
    /// end is allowed, as reads there return nothing.
    pub fn seek(&mut self, pos: SeekFrom) -> (r: Result<u64, SeekError>)
        ensures
            final(self).offset == old(self).offset,
            final(self).size == old(self).size,
            match r {
                Ok(p) => {
                    &&& final(self).cursor == p
                    &&& match pos {
                        SeekFrom::Start(s) => p == s,
                        SeekFrom::End(e) => p == old(self).size + e,
                        SeekFrom::Current(c) => p == old(self).cursor + c,
                    }
                },
                Err(SeekError::SeekOutOfBounds) => {
                    &&& final(self).cursor == old(self).cursor
                    &&& match pos {
                        SeekFrom::Start(_) => false,
                        SeekFrom::End(e) => old(self).size + e < 0 || old(self).size + e
                            > u64::MAX,
                        SeekFrom::Current(c) => old(self).cursor + c < 0 || old(self).cursor + c
                            > u64::MAX,
                    }
                },
                Err(SeekError::NotSeekable) => false,
            },
    {
        match pos {
            SeekFrom::Start(s) => {
                self.cursor = s;
                Ok(s)
            },
            SeekFrom::End(e) => {
                match add_signed(self.size, e) {
                    Some(p) => {
                        self.cursor = p;
                        Ok(p)
                    },
                    None => Err(SeekError::SeekOutOfBounds),
                }
            },
            SeekFrom::Current(c) => {
                match add_signed(self.cursor, c) {
                    Some(p) => {
                        self.cursor = p;
                        Ok(p)
                    },
                    None => Err(SeekError::SeekOutOfBounds),
                }
            },
        }
    }
}

/// Adds a signed offset to an unsigned position, refusing to leave the
/// unsigned range.
fn add_signed(base: u64, delta: i64) -> (r: Option<u64>)
    ensures
        match r {
            Some(p) => 0 <= base + delta <= u64::MAX && p == base + delta,
            None => base + delta < 0 || base + delta > u64::MAX,
        },
{
    if delta >= 0 {
        if base > u64::MAX - (delta as u64) {
            None
        } else {
            Some(base + (delta as u64))
        }
    } else {
        let m: u64 = if delta == i64::MIN {
            0x8000_0000_0000_0000
        } else {
            (-delta) as u64
        };
        if m > base {
            None
        } else {
            Some(base - m)
        }
    }
}

/// A cursor over the decompressed bytes of a deflate entry. The stored bytes
/// are decompressed when the entry is opened; a stream the decoder rejects
/// yields the bytes decoded up to the rejection, mirroring the defensive
/// end-of-stream handling of the format.
pub struct DeflateReadHandle {
    /// The decompressed bytes.
    pub data: Vec<u8>,
    /// Current position within `data`.
    pub cursor: usize,
}

impl DeflateReadHandle {
    /// Reads up to `count` bytes at the cursor, advancing it.
    pub fn read(&mut self, count: usize) -> (r: Vec<u8>)
        requires
            old(self).cursor <= old(self).data@.len(),
        ensures
            final(self).data@ == old(self).data@,
            ({
                let cur = old(self).cursor as int;
                let n = vstd::math::min(count as int, old(self).data@.len() - cur);
                &&& r@ == old(self).data@.subrange(cur, cur + n)
                &&& final(self).cursor == cur + n
            }),
    {
        let remaining = self.data.len() - self.cursor;
        let n: usize = if count < remaining {
            count
        } else {
            remaining
        };
        let mut out: Vec<u8> = Vec::new();
        let mut k: usize = 0;
        while k < n
            invariant
                k <= n,
                self.cursor + n <= self.data@.len(),
                self.data@.len() <= usize::MAX,
                out@ == self.data@.subrange(self.cursor as int, self.cursor + k),
            decreases n - k,
        {
            out.push(self.data[self.cursor + k]);
            k = k + 1;
            proof {
                assert(out@ =~= self.data@.subrange(self.cursor as int, self.cursor + k));
            }
        }
        self.cursor = self.cursor + n;
        out
    }

    /// Reads everything from the cursor to the end.
    pub fn read_to_end(&mut self) -> (r: Vec<u8>)
        requires
            old(self).cursor <= old(self).data@.len(),
        ensures
            final(self).data@ == old(self).data@,
            r@ == old(self).data@.subrange(old(self).cursor as int, old(self).data@.len() as int),
            final(self).cursor == old(self).data@.len(),
    {
        let remaining = self.data.len() - self.cursor;
        self.read(remaining)
    }
}

/// A read handle over one entry: a bounded raw cursor, or decompressed
/// deflate bytes.
pub enum ReadHandle {
    /// The entry is stored uncompressed.
    Raw(RawReadWriteHandle),
    /// The entry is stored deflate-compressed.
    Deflate(DeflateReadHandle),
}

impl ReadHandle {
    /// Whether the entry is deflate-compressed.
    pub fn is_compressed(&self) -> (r: bool)
        ensures
            r == (self is Deflate),
    {
        match self {
            ReadHandle::Raw(_) => false,
            ReadHandle::Deflate(_) => true,
        }
    }

    /// Whether the handle supports seeking: only raw entries do.
    pub fn is_seekable(&self) -> (r: bool)
        ensures
            r == (self is Raw),
    {
        !self.is_compressed()
    }
}

impl PkgState {
    /// Opens the entry named `path` for reading: a raw cursor over its
    /// stored bytes, or — for a deflate entry — its decompressed bytes.
    pub fn open(&self, storage: &MemStorage, path: &[u8]) -> (r: Result<ReadHandle, OpenError>)
        requires
            self.encodes(storage@),
        ensures
            match r {
                Ok(h) => {
                    &&& self.has_path(path@)
                    &&& ({
                        let d = self.view_of(storage@)[path@];
                        match h {
                            ReadHandle::Raw(rw) => {
                                &&& !d.deflated
                                &&& rw.cursor == 0
                                &&& rw.size == d.stored.len()
                                &&& rw.wf(storage@)
                                &&& storage@.subrange(rw.offset as int, rw.offset + rw.size)
                                    == d.stored
                            },
                            ReadHandle::Deflate(dh) => {
                                &&& d.deflated
                                &&& dh.cursor == 0
                                &&& dh.data@ == crate::flate::inflate_prefix_of(d.stored)
                                &&& (crate::flate::inflate_of(d.stored) matches Some(v) ==> dh.data@
                                    == v)
                            },
                        }
                    })
                },
                Err(OpenError::NotFound) => !self.has_path(path@),
            },
    {
        let idx = match self.find_index(path) {
            Some(i) => i,
            None => {
                return Err(OpenError::NotFound);
            },
        };
        proof {
            crate::state::lemma_index_of(self, idx as int);
            assert(self.data_range_ok(storage@.len() as int, idx as int));
        }
        let (off, size, deflated) = match &self.entries[idx] {
            Some(e) => (e.data_offset, e.data_size, e.deflated),
            None => {
                proof {
                    assert(false);
                }
                vstd::pervasive::unreached()
            },
        };
        if deflated {
            let stored = storage.read_exact(off as usize, size as usize);
            let (data, _accepted) = crate::flate::deflate_decompress(&stored);
            Ok(ReadHandle::Deflate(DeflateReadHandle { data, cursor: 0 }))
        } else {
            Ok(
                ReadHandle::Raw(
                    RawReadWriteHandle { offset: off as u64, cursor: 0, size: size as u64 },
                ),
            )
        }
    }
}

} // verus!
