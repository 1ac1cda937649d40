//! The archive handle: an in-memory index paired with its storage, and the
//! entry reader and writer types built on it.

use vstd::prelude::*;
use vstd::string::StringSliceAdditionalSpecFns;

use crate::errors::{
    CreateError, InsertError, OpenError, ParseError, RemoveError, RenameError, RepackError,
    ReplaceError,
};
use crate::state::{lemma_record_range, lemma_subrange_frame, path_bytes_ok, Entry, EntryData, PkgState};
use crate::storage::MemStorage;

verus! {

/// A compression level for DEFLATE, zero (none) through nine (best).
#[derive(Clone, Copy)]
pub struct Compression {
    /// The level, at most nine.
    pub level: u32,
}

impl Compression {
    /// A compression level; values above nine are clamped to nine.
    pub fn new(level: u32) -> (r: Compression)
        ensures
            r.level <= 9,
            level <= 9 ==> r.level == level,
    {
        Compression { level: if level <= 9 {
            level
        } else {
            9
        } }
    }

    /// The strongest level.
    pub fn best() -> (r: Compression)
        ensures
            r.level == 9,
    {
        Compression { level: 9 }
    }

    /// No compression effort.
    pub fn none() -> (r: Compression)
        ensures
            r.level == 0,
    {
        Compression { level: 0 }
    }
}

/// The ways an entry's bytes can be stored.
pub enum EntryCompression {
    /// A raw DEFLATE stream at the given level.
    Deflate(Compression),
    /// Plain bytes.
    Plain,
}

impl EntryCompression {
    /// Whether this is [`EntryCompression::Plain`], that is, no compression.
    pub fn is_none(&self) -> (r: bool)
        ensures
            r == (self is Plain),
    {
        match self {
            EntryCompression::Plain => true,
            EntryCompression::Deflate(_) => false,
        }
    }
}

/// Options that change the way an entry is written.
pub struct Flags {
    /// The kind of compression in use.
    pub compression: EntryCompression,
}

impl Flags {
    /// No compression.
    pub fn plain() -> (r: Flags)
        ensures
            r.compression is Plain,
    {
        Flags { compression: EntryCompression::Plain }
    }

    /// Deflate compression at the given level.
    pub fn deflate(level: Compression) -> (r: Flags)
        ensures
            r.compression matches EntryCompression::Deflate(c) && c.level == level.level,
    {
        Flags { compression: EntryCompression::Deflate(level) }
    }
}

/// The bytes of an ASCII character sequence.
pub open spec fn str_bytes(s: Seq<char>) -> Seq<u8> {
    Seq::new(s.len(), |i: int| s[i] as u8)
}

/// Relies on `String::from_utf8`: ASCII bytes are valid UTF-8 and come back
/// unchanged, one character per byte.
#[verifier::external_body]
fn ascii_to_string(bytes: &Vec<u8>) -> (r: String)
    requires
        path_bytes_ok(bytes@),
    ensures
        str_bytes(r@) == bytes@,
{
    String::from_utf8(bytes.clone()).expect("ASCII bytes are valid UTF-8")
}

/// An archive: the parsed index and the storage it describes.
pub struct Pkg {
    /// The in-memory index.
    pub state: PkgState,
    /// The bytes the index describes.
    pub storage: MemStorage,
}

impl Pkg {
    /// The index describes the storage exactly.
    pub open spec fn wf(&self) -> bool {
        self.state.encodes(self.storage@)
    }

    /// The archive's logical content: path bytes to stored bytes and flags.
    pub open spec fn view_map(&self) -> Map<Seq<u8>, EntryData> {
        self.state.view_of(self.storage@)
    }

    /// Every entry's recorded hash is the hash of its path.
    pub open spec fn hashes_ok(&self) -> bool {
        self.state.hashes_ok()
    }

    /// Creates a fresh archive at the front of `storage`.
    pub fn create(storage: MemStorage) -> (r: Result<Pkg, CreateError>)
        ensures
            match r {
                Ok(p) => {
                    &&& p.wf()
                    &&& p.hashes_ok()
                    &&& p.view_map() == Map::<Seq<u8>, EntryData>::empty()
                    &&& p.storage@.len() == vstd::math::max(storage@.len() as int, 3216)
                },
                Err(CreateError::ArchiveFull) => storage@.len() > 0xFFFF_FFFF,
            },
    {
        let mut storage = storage;
        let state = match PkgState::create(&mut storage) {
            Ok(s) => s,
            Err(e) => {
                return Err(e);
            },
        };
        Ok(Pkg { state, storage })
    }

    /// Parses an archive from `storage`. Parsing fails only when no index at
    /// all can describe the bytes, so it succeeds on everything this crate
    /// writes; the parsed archive holds exactly the given bytes.
    pub fn parse(storage: MemStorage) -> (r: Result<Pkg, ParseError>)
        ensures
            match r {
                Ok(p) => p.wf() && p.storage@ == storage@,
                Err(e) => {
                    &&& !(exists|s: PkgState| s.encodes(storage@))
                    &&& match e {
                        ParseError::MismatchedMagic => !(storage@.len() >= 4 && storage@.subrange(
                            0,
                            4,
                        ) == crate::codec::magic_seq()),
                        ParseError::MismatchedHeaderSize { size } => size != 16,
                        ParseError::MismatchedEntrySize { size } => size != 20,
                        ParseError::UnrecognisedEntryFlags(bits) => bits != 0 && bits
                            != 0x0100_0000,
                        _ => true,
                    }
                },
            },
    {
        if storage.len() > 0xFFFF_FFFF {
            proof {
                assert forall|s: PkgState| !(#[trigger] s.encodes(storage@)) by {}
            }
            return Err(ParseError::EntryOverflow);
        }
        let state = match PkgState::parse(&storage) {
            Ok(s) => s,
            Err(e) => {
                return Err(e);
            },
        };
        Ok(Pkg { state, storage })
    }

    /// Borrows the underlying storage.
    pub fn inner(&self) -> (r: &MemStorage)
        ensures
            r@ == self.storage@,
    {
        &self.storage
    }

    /// Returns the underlying storage, consuming the archive.
    pub fn into_inner(self) -> (r: MemStorage)
        ensures
            r@ == self.storage@,
    {
        self.storage
    }

    /// Checks whether the archive contains `path`.
    pub fn contains(&self, path: &str) -> (r: bool)
        ensures
            r == self.view_map().dom().contains(path.spec_bytes()),
    {
        self.state.contains(path.as_bytes())
    }

    /// Returns all entry paths, in slot order.
    pub fn paths(&self) -> (r: Vec<String>)
        requires
            self.wf(),
        ensures
            forall|k: int|
                0 <= k < r@.len() ==> self.view_map().dom().contains(
                    str_bytes((#[trigger] r@[k])@),
                ),
            forall|p: Seq<u8>|
                self.view_map().dom().contains(p) ==> exists|k: int|
                    0 <= k < r@.len() && str_bytes((#[trigger] r@[k])@) == p,
            forall|k1: int, k2: int|
                0 <= k1 < k2 < r@.len() ==> str_bytes(r@[k1]@) != str_bytes(r@[k2]@),
    {
        let raw = self.state.paths();
        let mut out: Vec<String> = Vec::new();
        let mut k: usize = 0;
        while k < raw.len()
            invariant
                self.wf(),
                k <= raw@.len(),
                out@.len() == k,
                forall|j: int| 0 <= j < raw@.len() ==> self.state.has_path((#[trigger] raw@[j])@),
                forall|p: Seq<u8>|
                    self.state.has_path(p) ==> exists|j: int|
                        0 <= j < raw@.len() && (#[trigger] raw@[j])@ == p,
                forall|j1: int, j2: int|
                    0 <= j1 < j2 < raw@.len() ==> raw@[j1]@ != raw@[j2]@,
                forall|j: int|
                    0 <= j < k ==> str_bytes((#[trigger] out@[j])@) == raw@[j]@,
            decreases raw@.len() - k,
        {
            proof {
                assert(self.state.has_path(raw@[k as int]@));
                let w = choose|i: int|
                    self.state.occupied(i) && self.state.entry_at(i).path@ == raw@[k as int]@;
                assert(self.state.entry_wf(w));
            }
            let s = ascii_to_string(&raw[k]);
            out.push(s);
            k = k + 1;
            proof {
                assert forall|j: int|
                    0 <= j < k implies str_bytes((#[trigger] out@[j])@) == raw@[j]@ by {}
            }
        }
        proof {
            assert forall|p: Seq<u8>|
                self.view_map().dom().contains(p) implies exists|j: int|
                0 <= j < out@.len() && str_bytes((#[trigger] out@[j])@) == p by {
                assert(self.state.has_path(p));
                let j = choose|j: int| 0 <= j < raw@.len() && (#[trigger] raw@[j])@ == p;
                assert(str_bytes(out@[j]@) == p);
            }
        }
        out
    }

    /// Opens the entry named `path` for reading.
    pub fn open(&self, path: &str) -> (r: Result<EntryReader, OpenError>)
        requires
            self.wf(),
        ensures
            match r {
                Ok(h) => {
                    &&& self.view_map().dom().contains(path.spec_bytes())
                    &&& ({
                        let d = self.view_map()[path.spec_bytes()];
                        match h.handle {
                            crate::read::ReadHandle::Raw(rw) => {
                                &&& !d.deflated
                                &&& rw.cursor == 0
                                &&& rw.size == d.stored.len()
                                &&& rw.wf(self.storage@)
                                &&& self.storage@.subrange(rw.offset as int, rw.offset + rw.size)
                                    == d.stored
                            },
                            crate::read::ReadHandle::Deflate(dh) => {
                                &&& d.deflated
                                &&& dh.cursor == 0
                                &&& dh.data@ == crate::flate::inflate_prefix_of(d.stored)
                                &&& (crate::flate::inflate_of(d.stored) matches Some(v) ==> dh.data@
                                    == v)
                            },
                        }
                    })
                },
                Err(OpenError::NotFound) => !self.view_map().dom().contains(path.spec_bytes()),
            },
    {
        let handle = match self.state.open(&self.storage, path.as_bytes()) {
            Ok(h) => h,
            Err(e) => {
                return Err(e);
            },
        };
        Ok(EntryReader { handle })
    }

    /// Removes the entry named `path`.
    pub fn remove(&mut self, path: &str) -> (r: Result<(), RemoveError>)
        requires
            old(self).wf(),
        ensures
            final(self).wf(),
            old(self).hashes_ok() ==> final(self).hashes_ok(),
            match r {
                Ok(()) => {
                    &&& old(self).view_map().dom().contains(path.spec_bytes())
                    &&& final(self).view_map() == old(self).view_map().remove(path.spec_bytes())
                    &&& final(self).storage@.subrange(
                        16 + 20 * old(self).state.index_of(path.spec_bytes()),
                        16 + 20 * old(self).state.index_of(path.spec_bytes()) + 20,
                    ) == crate::state::zero_record()
                },
                Err(RemoveError::NotFound) => {
                    &&& !old(self).view_map().dom().contains(path.spec_bytes())
                    &&& final(self).state == old(self).state
                    &&& final(self).storage@ == old(self).storage@
                },
            },
    {
        let r = self.state.remove(&mut self.storage, path.as_bytes());
        match r {
            Ok(()) => Ok(()),
            Err(e) => Err(e),
        }
    }

    /// Renames `src` to `dst`.
    pub fn rename(&mut self, src: &str, dst: &str) -> (r: Result<(), RenameError>)
        requires
            old(self).wf(),
            path_bytes_ok(dst.spec_bytes()),
            0 < dst.spec_bytes().len() <= 0xFFFF,
        ensures
            final(self).wf(),
            old(self).hashes_ok() ==> final(self).hashes_ok(),
            match r {
                Ok(()) => {
                    &&& old(self).view_map().dom().contains(src.spec_bytes())
                    &&& !old(self).view_map().dom().contains(dst.spec_bytes())
                    &&& final(self).view_map() == old(self).view_map().remove(
                        src.spec_bytes(),
                    ).insert(dst.spec_bytes(), old(self).view_map()[src.spec_bytes()])
                },
                Err(RenameError::NotFound) => {
                    &&& !old(self).view_map().dom().contains(src.spec_bytes())
                    &&& final(self).state == old(self).state
                    &&& final(self).storage@ == old(self).storage@
                },
                Err(RenameError::AlreadyExists) => {
                    &&& old(self).view_map().dom().contains(src.spec_bytes())
                    &&& old(self).view_map().dom().contains(dst.spec_bytes())
                    &&& final(self).state == old(self).state
                    &&& final(self).storage@ == old(self).storage@
                },
                Err(RenameError::ArchiveFull) => final(self).view_map() == old(self).view_map(),
            },
    {
        self.state.rename(&mut self.storage, src.as_bytes(), dst.as_bytes())
    }

    /// Renames `src` onto `dst`, replacing `dst` if it exists.
    pub fn replace(&mut self, src: &str, dst: &str) -> (r: Result<(), ReplaceError>)
        requires
            old(self).wf(),
            path_bytes_ok(dst.spec_bytes()),
            0 < dst.spec_bytes().len() <= 0xFFFF,
        ensures
            final(self).wf(),
            old(self).hashes_ok() ==> final(self).hashes_ok(),
            match r {
                Ok(()) => {
                    &&& old(self).view_map().dom().contains(src.spec_bytes())
                    &&& final(self).view_map() == old(self).view_map().remove(
                        src.spec_bytes(),
                    ).insert(dst.spec_bytes(), old(self).view_map()[src.spec_bytes()])
                    &&& ((old(self).view_map().dom().contains(dst.spec_bytes())
                        && src.spec_bytes() != dst.spec_bytes()) ==> {
                        &&& final(self).state.occupied(old(self).state.index_of(dst.spec_bytes()))
                        &&& final(self).state.entry_at(
                            old(self).state.index_of(dst.spec_bytes()),
                        ).path@ == dst.spec_bytes()
                        &&& final(self).storage@.subrange(
                            16 + 20 * old(self).state.index_of(src.spec_bytes()),
                            16 + 20 * old(self).state.index_of(src.spec_bytes()) + 20,
                        ) == crate::state::zero_record()
                    })
                },
                Err(ReplaceError::NotFound) => {
                    &&& !old(self).view_map().dom().contains(src.spec_bytes())
                    &&& final(self).state == old(self).state
                    &&& final(self).storage@ == old(self).storage@
                },
                Err(ReplaceError::ArchiveFull) => final(self).view_map() == old(self).view_map(),
            },
    {
        self.state.replace(&mut self.storage, src.as_bytes(), dst.as_bytes())
    }

    /// Compacts the archive.
    pub fn repack(&mut self) -> (r: Result<(), RepackError>)
        requires
            old(self).wf(),
        ensures
            final(self).wf(),
            old(self).hashes_ok() ==> final(self).hashes_ok(),
            match r {
                Ok(()) => {
                    &&& !crate::repack::has_overlap(&old(self).state)
                    &&& final(self).view_map() == old(self).view_map()
                    &&& forall|j: int|
                        0 <= j < final(self).state.entries@.len() ==> final(self).state.occupied(j)
                    &&& forall|i: int, j: int|
                        0 <= i <= j < final(self).state.entries@.len()
                            ==> final(self).state.entry_at(i).path_hash
                            <= final(self).state.entry_at(j).path_hash
                    &&& final(self).storage@.len() == final(self).state.spec_data_region_offset()
                        + final(self).state.spec_data_total()
                    &&& final(self).state.path_region_size == crate::repack::spec_path_total_from(
                        &final(self).state,
                        0,
                    )
                    &&& final(self).state.path_region_empty_offset
                        == final(self).state.path_region_size
                    &&& forall|i: int, j: int|
                        #![trigger final(self).state.entry_at(i), final(self).state.entry_at(j)]
                        final(self).state.occupied(i) && final(self).state.occupied(j) && i != j
                            ==> (final(self).state.entry_at(i).data_offset
                                + final(self).state.entry_at(i).data_size
                                <= final(self).state.entry_at(j).data_offset
                            || final(self).state.entry_at(j).data_offset
                                + final(self).state.entry_at(j).data_size
                                <= final(self).state.entry_at(i).data_offset)
                },
                Err(RepackError::OverlappingEntries) => {
                    &&& final(self).state == old(self).state
                    &&& final(self).storage@ == old(self).storage@
                    &&& (crate::repack::has_overlap(&old(self).state)
                        || crate::repack::spec_path_total_from(&old(self).state, 0) > 0xFF_FFFF
                        || 16 + 20 * crate::repack::spec_occ_count_from(&old(self).state, 0)
                            + crate::repack::spec_path_total_from(&old(self).state, 0) > old(
                            self,
                        ).state.spec_data_region_offset())
                },
            },
    {
        self.state.repack(&mut self.storage)
    }

    /// Flushes the storage. The in-memory storage is always current, so
    /// there is nothing to do; the method exists for parity with file-backed
    /// use, where the embedding program writes the buffer back.
    pub fn flush(&mut self)
        ensures
            *final(self) == *old(self),
    {
    }

    /// Begins inserting a new entry named `path`: the path goes into the
    /// path region and a slot is reserved, but the slot's record stays zero
    /// on disk and the archive's content is unchanged until the returned
    /// writer's [`EntryWriter::finish`] stores the collected bytes.
    pub fn insert(&mut self, path: &str, flags: Flags) -> (r: Result<EntryWriter, InsertError>)
        requires
            old(self).wf(),
            path_bytes_ok(path.spec_bytes()),
            0 < path.spec_bytes().len() <= 0xFFFF,
        ensures
            final(self).wf(),
            old(self).hashes_ok() ==> final(self).hashes_ok(),
            final(self).view_map() == old(self).view_map(),
            match r {
                Ok(w) => {
                    &&& !old(self).view_map().dom().contains(path.spec_bytes())
                    &&& w.wf(final(self))
                    &&& w.buffer@ == Seq::<u8>::empty()
                    &&& w.path@ == path.spec_bytes()
                    &&& w.deflated == (flags.compression is Deflate)
                    &&& forall|j: int| 0 <= j < w.slot ==> old(self).state.occupied(j)
                    &&& (w.slot < old(self).state.entries@.len() ==> !old(self).state.occupied(
                        w.slot as int,
                    ))
                },
                Err(InsertError::AlreadyExists) => {
                    &&& old(self).view_map().dom().contains(path.spec_bytes())
                    &&& final(self).state == old(self).state
                    &&& final(self).storage@ == old(self).storage@
                },
                Err(InsertError::ArchiveFull) => {
                    &&& !old(self).view_map().dom().contains(path.spec_bytes())
                    &&& (!final(self).state.can_reserve_path(
                        final(self).storage@,
                        path.spec_bytes().len() as int,
                    ) || ((forall|j: int|
                        0 <= j < old(self).state.entries@.len() ==> old(self).state.occupied(j))
                        && !old(self).state.can_reserve_entries(old(self).storage@)))
                    &&& ((exists|j: int|
                        0 <= j < old(self).state.entries@.len() && !old(self).state.occupied(j))
                        ==> (final(self).state == old(self).state && final(self).storage@ == old(
                            self,
                        ).storage@ && !old(self).state.can_reserve_path(
                            old(self).storage@,
                            path.spec_bytes().len() as int,
                        )))
                },
            },
    {
        let (deflated, level) = match flags.compression {
            EntryCompression::Deflate(c) => (true, c.level),
            EntryCompression::Plain => (false, 0),
        };
        let (slot, rel) = match self.state.insert(&mut self.storage, path.as_bytes()) {
            Ok(p) => p,
            Err(e) => {
                return Err(e);
            },
        };
        Ok(
            EntryWriter {
                slot,
                rel,
                path: vstd::slice::slice_to_vec(path.as_bytes()),
                deflated,
                level: if level <= 9 {
                    level
                } else {
                    9
                },
                buffer: Vec::new(),
            },
        )
    }
}

/// A reader over one entry of a [`Pkg`].
pub struct EntryReader {
    /// The underlying handle.
    pub handle: crate::read::ReadHandle,
}

impl EntryReader {
    /// The reader stays within the archive's storage.
    pub open spec fn wf(&self, pkg: &Pkg) -> bool {
        match self.handle {
            crate::read::ReadHandle::Raw(rw) => rw.wf(pkg.storage@),
            crate::read::ReadHandle::Deflate(dh) => dh.cursor <= dh.data@.len(),
        }
    }

    /// Reads everything from the cursor to the end of the entry's logical
    /// bytes.
    pub fn read_to_end(&mut self, pkg: &Pkg) -> (r: Vec<u8>)
        requires
            old(self).wf(pkg),
            pkg.wf(),
        ensures
            final(self).wf(pkg),
            match old(self).handle {
                crate::read::ReadHandle::Raw(rw) => rw.cursor <= rw.size ==> r@
                    == pkg.storage@.subrange(rw.offset + rw.cursor, rw.offset + rw.size),
                crate::read::ReadHandle::Deflate(dh) => r@ == dh.data@.subrange(
                    dh.cursor as int,
                    dh.data@.len() as int,
                ),
            },
    {
        match &mut self.handle {
            crate::read::ReadHandle::Raw(rw) => rw.read_to_end(&pkg.storage),
            crate::read::ReadHandle::Deflate(dh) => dh.read_to_end(),
        }
    }

    /// Reads up to `count` bytes at the cursor, advancing it.
    pub fn read(&mut self, pkg: &Pkg, count: usize) -> (r: Vec<u8>)
        requires
            old(self).wf(pkg),
            pkg.wf(),
        ensures
            final(self).wf(pkg),
            match old(self).handle {
                crate::read::ReadHandle::Raw(rw) => {
                    &&& (final(self).handle matches crate::read::ReadHandle::Raw(rw2) && rw2.offset
                        == rw.offset && rw2.size == rw.size && (if rw.cursor <= rw.size {
                        let n = vstd::math::min(count as int, rw.size - rw.cursor);
                        r@ == pkg.storage@.subrange(
                            rw.offset + rw.cursor,
                            rw.offset + rw.cursor + n,
                        ) && rw2.cursor == rw.cursor + n
                    } else {
                        r@ == Seq::<u8>::empty() && rw2.cursor == rw.cursor
                    }))
                },
                crate::read::ReadHandle::Deflate(dh) => {
                    &&& (final(self).handle matches crate::read::ReadHandle::Deflate(dh2)
                        && dh2.data@ == dh.data@ && ({
                        let n = vstd::math::min(count as int, dh.data@.len() - dh.cursor);
                        r@ == dh.data@.subrange(dh.cursor as int, dh.cursor + n) && dh2.cursor
                            == dh.cursor + n
                    }))
                },
            },
    {
        match &mut self.handle {
            crate::read::ReadHandle::Raw(rw) => rw.read(&pkg.storage, count),
            crate::read::ReadHandle::Deflate(dh) => dh.read(count),
        }
    }

    /// Whether the entry is deflate-compressed.
    pub fn is_compressed(&self) -> (r: bool)
        ensures
            r == (self.handle is Deflate),
    {
        self.handle.is_compressed()
    }

    /// Whether the reader supports seeking.
    pub fn is_seekable(&self) -> (r: bool)
        ensures
            r == (self.handle is Raw),
    {
        self.handle.is_seekable()
    }

    /// Seeks within an uncompressed entry; compressed entries are not
    /// seekable.
    pub fn seek(&mut self, pos: crate::storage::SeekFrom) -> (r: Result<
        u64,
        crate::errors::SeekError,
    >)
        ensures
            (old(self).handle is Deflate) ==> (r matches Err(e) && e is NotSeekable && *final(self)
                == *old(self)),
            match old(self).handle {
                crate::read::ReadHandle::Raw(rw) => {
                    &&& (final(self).handle matches crate::read::ReadHandle::Raw(rw2) && rw2.offset
                        == rw.offset && rw2.size == rw.size && (match r {
                        Ok(p) => rw2.cursor == p && (match pos {
                            crate::storage::SeekFrom::Start(st) => p == st,
                            crate::storage::SeekFrom::End(e) => p == rw.size + e,
                            crate::storage::SeekFrom::Current(c) => p == rw.cursor + c,
                        }),
                        Err(crate::errors::SeekError::SeekOutOfBounds) => rw2.cursor == rw.cursor
                            && (match pos {
                            crate::storage::SeekFrom::Start(_) => false,
                            crate::storage::SeekFrom::End(e) => rw.size + e < 0 || rw.size + e
                                > u64::MAX,
                            crate::storage::SeekFrom::Current(c) => rw.cursor + c < 0 || rw.cursor
                                + c > u64::MAX,
                        }),
                        Err(crate::errors::SeekError::NotSeekable) => false,
                    }))
                },
                crate::read::ReadHandle::Deflate(_) => true,
            },
    {
        match &mut self.handle {
            crate::read::ReadHandle::Raw(rw) => rw.seek(pos),
            crate::read::ReadHandle::Deflate(_) => Err(crate::errors::SeekError::NotSeekable),
        }
    }
}

/// A writer that collects one entry's bytes; [`EntryWriter::finish`] stores
/// them in the archive. Until then the reserved slot stays empty on disk and
/// the archive's content is unchanged.
pub struct EntryWriter {
    /// The table slot reserved by the insert.
    pub slot: usize,
    /// The path's offset within the path region.
    pub rel: u32,
    /// The entry's path bytes.
    pub path: Vec<u8>,
    /// Whether the bytes will be stored deflate-compressed.
    pub deflated: bool,
    /// The compression level for a deflate entry.
    pub level: u32,
    /// The bytes written so far.
    pub buffer: Vec<u8>,
}

impl EntryWriter {
    /// The writer matches the reservation the insert made in `pkg`: the path
    /// is still free, its bytes still sit NUL-terminated at the reserved
    /// offset, and the reserved slot is still empty.
    pub open spec fn wf(&self, pkg: &Pkg) -> bool {
        &&& !pkg.state.has_path(self.path@)
        &&& path_bytes_ok(self.path@)
        &&& 0 < self.path@.len() <= 0xFFFF
        &&& (self.slot as int) < pkg.state.entries@.len()
        &&& !pkg.state.occupied(self.slot as int)
        &&& self.rel + self.path@.len() + 1 <= pkg.state.path_region_empty_offset
        &&& ({
            let start = pkg.state.spec_path_region_offset() + self.rel;
            pkg.storage@.subrange(start, start + self.path@.len()) == self.path@ && pkg.storage@[
                start + self.path@.len()] == 0
        })
        &&& self.level <= 9
    }

    /// The bytes the entry will store: the collected bytes themselves, or
    /// their DEFLATE stream.
    pub open spec fn spec_stored(&self) -> Seq<u8> {
        if self.deflated {
            crate::flate::deflate_of(self.buffer@, self.level as int)
        } else {
            self.buffer@
        }
    }

    /// Appends bytes to the entry being written.
    pub fn write(&mut self, data: &[u8])
        ensures
            final(self).buffer@ == old(self).buffer@ + data@,
            final(self).slot == old(self).slot,
            final(self).rel == old(self).rel,
            final(self).path@ == old(self).path@,
            final(self).deflated == old(self).deflated,
            final(self).level == old(self).level,
    {
        self.buffer.extend_from_slice(data);
        proof {
            assert(self.buffer@ =~= old(self).buffer@ + data@);
        }
    }

    /// Whether the entry will be stored deflate-compressed.
    pub fn is_compressed(&self) -> (r: bool)
        ensures
            r == self.deflated,
    {
        self.deflated
    }

    /// Stores the collected bytes: a deflate entry's bytes are compressed,
    /// the blob goes to the end of the stream, and the entry's record — with
    /// the final sizes, the path hash and the flag bit — is written into the
    /// reserved slot, which makes the entry visible.
    ///
    /// Fails with `ArchiveFull`, changing nothing, exactly when the stored
    /// bytes would push the stream past the format's 4 GiB limit or either
    /// size past 32 bits.
    pub fn finish(self, pkg: &mut Pkg) -> (r: Result<(), InsertError>)
        requires
            old(pkg).wf(),
            self.wf(old(pkg)),
        ensures
            final(pkg).wf(),
            old(pkg).hashes_ok() ==> final(pkg).hashes_ok(),
            match r {
                Ok(()) => {
                    &&& !(self.buffer@.len() > 0xFFFF_FFFF || self.spec_stored().len()
                        > 0xFFFF_FFFF || old(pkg).storage@.len() + self.spec_stored().len()
                        > 0xFFFF_FFFF)
                    &&& ({
                        let d = EntryData {
                            deflated: self.deflated,
                            stored: self.spec_stored(),
                            unpacked_size: self.buffer@.len() as u32,
                        };
                        &&& final(pkg).view_map() == old(pkg).view_map().insert(self.path@, d)
                        &&& d.content() == Some(self.buffer@)
                    })
                    &&& final(pkg).state.occupied(self.slot as int)
                    &&& final(pkg).state.entry_at(self.slot as int).path@ == self.path@
                    &&& final(pkg).storage@.len() == old(pkg).storage@.len()
                        + self.spec_stored().len()
                },
                Err(InsertError::ArchiveFull) => {
                    &&& (self.buffer@.len() > 0xFFFF_FFFF || self.spec_stored().len()
                        > 0xFFFF_FFFF || old(pkg).storage@.len() + self.spec_stored().len()
                        > 0xFFFF_FFFF)
                    &&& final(pkg).state == old(pkg).state
                    &&& final(pkg).storage@ == old(pkg).storage@
                },
                Err(InsertError::AlreadyExists) => false,
            },
    {
        let unpacked_len = self.buffer.len();
        let ghost buf = self.buffer@;
        let hash = crate::hash::hash_of_bytes(self.path.as_slice());
        let EntryWriter { slot, rel, path, deflated, level, buffer } = self;
        let stored: Vec<u8> = if deflated {
            crate::flate::deflate_compress(&buffer, level)
        } else {
            buffer
        };
        let cur_len = pkg.storage.len();
        if unpacked_len as u64 > 0xFFFF_FFFF || stored.len() as u64 > 0xFFFF_FFFF || cur_len as u64
            + stored.len() as u64 > 0xFFFF_FFFF {
            return Err(InsertError::ArchiveFull);
        }
        let ghost s1 = pkg.state;
        let ghost b1 = pkg.storage@;
        pkg.storage.write_at(cur_len, stored.as_slice());
        let ghost b2 = pkg.storage@;
        let e = Entry {
            path_hash: hash,
            relative_path_offset: rel,
            path,
            data_offset: cur_len as u32,
            data_size: stored.len() as u32,
            unpacked_size: unpacked_len as u32,
            deflated,
        };
        proof {
            lemma_record_range(s1.entries@.len() as int, slot as int);
        }
        crate::write::write_record(&mut pkg.storage, slot, &e);
        pkg.state.entries[slot] = Some(e);
        proof {
            lemma_store_new_entry(
                &s1,
                &pkg.state,
                b1,
                b2,
                pkg.storage@,
                slot as int,
                self.path@,
                stored@,
            );
            assert(pkg.state.view_of(pkg.storage@) =~= s1.view_of(b1).insert(
                self.path@,
                EntryData {
                    deflated,
                    stored: stored@,
                    unpacked_size: unpacked_len as u32,
                },
            ));
            if deflated {
                assert(stored@ == crate::flate::deflate_of(buf, level as int));
                assert(crate::flate::inflate_of(stored@) == Some(buf));
            }
        }
        Ok(())
    }
}

/// The commit step of [`EntryWriter::finish`]: appending the stored bytes at
/// the stream end and writing the reserved slot's record turns the
/// reservation into a stored entry and adds exactly it to the content.
#[verifier::rlimit(100)]
proof fn lemma_store_new_entry(
    s1: &PkgState,
    post: &PkgState,
    b1: Seq<u8>,
    b2: Seq<u8>,
    b: Seq<u8>,
    slot: int,
    path: Seq<u8>,
    stored: Seq<u8>,
)
    requires
        s1.encodes(b1),
        !s1.has_path(path),
        path_bytes_ok(path),
        0 < path.len(),
        0 <= slot < s1.entries@.len(),
        !s1.occupied(slot),
        b2.len() == b1.len() + stored.len() <= 0xFFFF_FFFF,
        forall|k: int| 0 <= k < b1.len() ==> b2[k] == b1[k],
        b2.subrange(b1.len() as int, b2.len() as int) == stored,
        b.len() == b2.len(),
        forall|k: int|
            0 <= k < b2.len() && !(16 + 20 * slot <= k < 16 + 20 * slot + 20) ==> b[k] == b2[k],
        b.subrange(16 + 20 * slot, 16 + 20 * slot + 20) == post.entry_at(slot).record_bytes(),
        post.entries@.len() == s1.entries@.len(),
        forall|j: int| 0 <= j < s1.entries@.len() && j != slot ==> post.entries@[j]
            == s1.entries@[j],
        post.occupied(slot),
        ({
            let e = post.entry_at(slot);
            &&& e.path@ == path
            &&& e.path_hash == crate::hash::hash_of(path)
            &&& e.relative_path_offset + path.len() + 1 <= s1.path_region_empty_offset
            &&& e.data_offset == b1.len()
            &&& e.data_size == stored.len()
        }),
        ({
            let start = s1.spec_path_region_offset() + post.entry_at(slot).relative_path_offset;
            b1.subrange(start, start + path.len()) == path && b1[start + path.len()] == 0
        }),
        post.path_region_size == s1.path_region_size,
        post.path_region_empty_offset == s1.path_region_empty_offset,
    ensures
        post.encodes(b),
        post.view_of(b) == s1.view_of(b1).insert(
            path,
            (EntryData {
                deflated: post.entry_at(slot).deflated,
                stored,
                unpacked_size: post.entry_at(slot).unpacked_size,
            }),
        ),
        s1.hashes_ok() ==> post.hashes_ok(),
{
    let n = post.entries@.len() as int;
    let pro = s1.spec_path_region_offset();
    assert(post.spec_path_region_offset() == pro);
    lemma_record_range(n, slot);

    assert forall|j: int| post.occupied(j) implies #[trigger] post.entry_wf(j) by {
        if j != slot {
            assert(s1.occupied(j));
            assert(s1.entry_wf(j));
        } else {
            assert(b1.len() >= s1.spec_data_region_offset());
        }
    }
    assert forall|i2: int, j2: int|
        post.occupied(i2) && post.occupied(j2) && i2 != j2 implies post.entry_at(i2).path@
        != post.entry_at(j2).path@ by {
        if i2 == slot {
            assert(s1.occupied(j2) && s1.entry_at(j2).path@ == post.entry_at(j2).path@);
        } else if j2 == slot {
            assert(s1.occupied(i2) && s1.entry_at(i2).path@ == post.entry_at(i2).path@);
        } else {
            assert(s1.occupied(i2) && s1.occupied(j2));
        }
    }
    assert(post.wf());

    crate::codec::lemma_be16_at_frame(b1, b, 4);
    crate::codec::lemma_be16_at_frame(b1, b, 6);
    crate::codec::lemma_be32_at_frame(b1, b, 8);
    crate::codec::lemma_be32_at_frame(b1, b, 12);
    lemma_subrange_frame(b1, b, 0, 4);
    assert forall|j: int| 0 <= j < n implies #[trigger] post.record_encoded(b, j) by {
        lemma_record_range(n, j);
        if j != slot {
            lemma_subrange_frame(b1, b, 16 + 20 * j, 16 + 20 * j + 20);
            lemma_subrange_frame(b1, b, 16 + 20 * j + 8, 16 + 20 * j + 12);
            assert(s1.record_encoded(b1, j));
        }
    }
    assert forall|j: int| post.occupied(j) implies #[trigger] post.path_region_encoded(b, j) by {
        let e2 = post.entry_at(j);
        let start = pro + e2.relative_path_offset;
        if j != slot {
            assert(s1.occupied(j));
            assert(s1.entry_wf(j));
            assert(s1.path_region_encoded(b1, j));
        }
        lemma_subrange_frame(b1, b, start, start + e2.path@.len());
    }
    assert forall|j: int| post.occupied(j) implies #[trigger] post.data_range_ok(
        b.len() as int,
        j,
    ) by {
        if j != slot {
            assert(s1.occupied(j));
            assert(s1.data_range_ok(b1.len() as int, j));
        }
    }
    assert(post.encodes(b));

    assert forall|q: Seq<u8>| post.has_path(q) == (s1.has_path(q) || q == path) by {
        if post.has_path(q) {
            let w = choose|k: int| post.occupied(k) && post.entry_at(k).path@ == q;
            if w != slot {
                assert(s1.occupied(w) && s1.entry_at(w).path@ == q);
            }
        }
        if s1.has_path(q) {
            let w = choose|k: int| s1.occupied(k) && s1.entry_at(k).path@ == q;
            assert(post.occupied(w) && post.entry_at(w).path@ == q);
        }
        if q == path {
            assert(post.occupied(slot) && post.entry_at(slot).path@ == q);
        }
    }
    assert(post.stored_of(b, slot) == stored) by {
        let e2 = post.entry_at(slot);
        lemma_subrange_frame(b2, b, e2.data_offset as int, e2.data_offset + e2.data_size);
        assert(b2.subrange(e2.data_offset as int, e2.data_offset + e2.data_size) == stored);
    }
    assert forall|q: Seq<u8>| post.has_path(q) implies post.view_of(b)[q] == (if q == path {
        EntryData {
            deflated: post.entry_at(slot).deflated,
            stored,
            unpacked_size: post.entry_at(slot).unpacked_size,
        }
    } else {
        s1.view_of(b1)[q]
    }) by {
        let w = choose|k: int| post.occupied(k) && post.entry_at(k).path@ == q;
        crate::state::lemma_index_of(post, w);
        if q == path {
            if w != slot {
                assert(post.entry_at(w).path@ != post.entry_at(slot).path@);
                assert(false);
            }
        } else {
            assert(w != slot);
            assert(s1.occupied(w));
            crate::state::lemma_index_of(s1, w);
            assert(s1.data_range_ok(b1.len() as int, w));
            lemma_subrange_frame(
                b1,
                b,
                post.entry_at(w).data_offset as int,
                post.entry_at(w).data_offset + post.entry_at(w).data_size,
            );
        }
    }
    assert(post.view_of(b) =~= s1.view_of(b1).insert(
        path,
        (EntryData {
            deflated: post.entry_at(slot).deflated,
            stored,
            unpacked_size: post.entry_at(slot).unpacked_size,
        }),
    ));
    if s1.hashes_ok() {
        assert forall|j: int| post.occupied(j) implies #[trigger] post.entry_at(j).path_hash
            == crate::hash::hash_of(post.entry_at(j).path@) by {
            if j != slot {
                assert(s1.occupied(j));
                assert(s1.entry_at(j).path_hash == crate::hash::hash_of(s1.entry_at(j).path@));
            }
        }
    }
}

} // verus!
