//! Mutating operations: archive creation, entry removal, and the record
//! writing helpers the other mutations share.

use vstd::prelude::*;

use crate::errors::{CreateError, InsertError, RemoveError, RenameError, ReplaceError};
use crate::state::{lemma_record_range, lemma_subrange_frame, path_bytes_ok, zero_record, Entry, EntryData, PkgState};
use crate::storage::{MemStorage, WriteExt};

verus! {

/// Builds the twenty on-disk bytes of an entry record.
pub fn record_vec(e: &Entry) -> (r: Vec<u8>)
    requires
        e.relative_path_offset < 0x0100_0000,
    ensures
        r@ == e.record_bytes(),
{
    let mut rec = crate::codec::u32_to_be(e.path_hash);
    let packed: u32 = if e.deflated {
        e.relative_path_offset + 0x0100_0000
    } else {
        e.relative_path_offset
    };
    let mut t = crate::codec::u32_to_be(packed);
    rec.append(&mut t);
    let mut t = crate::codec::u32_to_be(e.data_offset);
    rec.append(&mut t);
    let mut t = crate::codec::u32_to_be(e.data_size);
    rec.append(&mut t);
    let mut t = crate::codec::u32_to_be(e.unpacked_size);
    rec.append(&mut t);
    proof {
        assert(packed == e.packed_field());
        assert(rec@ =~= e.record_bytes());
    }
    rec
}

/// Writes the record of `e` into the table slot `slot`.
pub fn write_record(storage: &mut MemStorage, slot: usize, e: &Entry)
    requires
        16 + 20 * (slot as int) + 20 <= old(storage)@.len(),
        old(storage)@.len() <= usize::MAX,
        e.relative_path_offset < 0x0100_0000,
    ensures
        final(storage)@.len() == old(storage)@.len(),
        forall|i: int|
            0 <= i < old(storage)@.len() && !(16 + 20 * (slot as int) <= i < 16 + 20 * (slot as int)
                + 20) ==> final(storage)@[i] == old(storage)@[i],
        final(storage)@.subrange(16 + 20 * (slot as int), 16 + 20 * (slot as int) + 20)
            == e.record_bytes(),
{
    let rec = record_vec(e);
    let off: usize = 16 + 20 * slot;
    storage.write_at(off, rec.as_slice());
}

/// Zeroes the table slot `slot`.
pub fn write_empty_record(storage: &mut MemStorage, slot: usize)
    requires
        16 + 20 * (slot as int) + 20 <= old(storage)@.len(),
        old(storage)@.len() <= usize::MAX,
    ensures
        final(storage)@.len() == old(storage)@.len(),
        forall|i: int|
            0 <= i < old(storage)@.len() && !(16 + 20 * (slot as int) <= i < 16 + 20 * (slot as int)
                + 20) ==> final(storage)@[i] == old(storage)@[i],
        final(storage)@.subrange(16 + 20 * (slot as int), 16 + 20 * (slot as int) + 20)
            == zero_record(),
{
    let off: usize = 16 + 20 * slot;
    let ghost pre = storage@;
    storage.fill(off, 0, 20);
    proof {
        assert(final(storage)@.subrange(16 + 20 * (slot as int), 16 + 20 * (slot as int) + 20)
            =~= zero_record());
    }
}

impl PkgState {
    /// Initialises a fresh archive at the front of `storage`: a header,
    /// sixty-four empty entry slots and a zeroed path region. Bytes beyond
    /// the initialised regions are left as they are (the storage is never
    /// truncated, so a pre-filled buffer keeps its tail).
    ///
    /// Fails with `ArchiveFull` only when the storage already exceeds the
    /// format's 4 GiB addressing limit.
    pub fn create(storage: &mut MemStorage) -> (r: Result<PkgState, CreateError>)
        ensures
            match r {
                Ok(s) => {
                    &&& s.encodes(final(storage)@)
                    &&& s.hashes_ok()
                    &&& forall|p: Seq<u8>| !s.has_path(p)
                    &&& s.view_of(final(storage)@) == Map::<Seq<u8>, crate::state::EntryData>::empty()
                    &&& s.entries@.len() == 64
                    &&& s.path_region_size == 1920
                    &&& s.path_region_empty_offset == 0
                    &&& forall|j: int|
                        0 <= j < 64 ==> #[trigger] final(storage)@.subrange(
                            16 + 20 * j,
                            16 + 20 * j + 20,
                        ) == zero_record()
                    &&& final(storage)@.len() == vstd::math::max(old(storage)@.len() as int, 3216)
                    &&& forall|i: int|
                        3216 <= i < old(storage)@.len() ==> final(storage)@[i] == old(storage)@[i]
                    &&& old(storage)@.len() <= 0xFFFF_FFFF
                },
                Err(CreateError::ArchiveFull) => {
                    &&& old(storage)@.len() > 0xFFFF_FFFF
                    &&& final(storage)@ == old(storage)@
                },
            },
    {
        if storage.len() > 0xFFFF_FFFF {
            return Err(CreateError::ArchiveFull);
        }
        let magic = crate::codec::magic_vec();
        storage.write_at(0, magic.as_slice());
        let ghost b1 = storage@;
        storage.write_u16_be(4, 16);
        let ghost b2 = storage@;
        storage.write_u16_be(6, 20);
        let ghost b3 = storage@;
        storage.write_u32_be(8, 64);
        let ghost b4 = storage@;
        storage.write_u32_be(12, 1920);
        let ghost b5 = storage@;
        storage.fill(16, 0, 3200);

        let mut entries: Vec<Option<Entry>> = Vec::new();
        let mut i: usize = 0;
        while i < 64
            invariant
                i <= 64,
                entries@.len() == i,
                forall|j: int| 0 <= j < i ==> entries@[j] is None,
            decreases 64 - i,
        {
            entries.push(None);
            i = i + 1;
        }
        let state = PkgState { path_region_size: 1920, path_region_empty_offset: 0, entries };

        proof {
            let b = storage@;
            assert forall|i: int| 0 <= i < 16 implies b[i] == b5[i] by {}
            assert forall|i: int| 0 <= i < 12 implies b5[i] == b4[i] by {}
            assert forall|i: int| 0 <= i < 8 implies b4[i] == b3[i] by {}
            assert forall|i: int| 0 <= i < 6 implies b3[i] == b2[i] by {}
            assert forall|i: int| 0 <= i < 4 implies b2[i] == b1[i] by {}
            assert(b.subrange(0, 4) =~= crate::codec::magic_seq());
            crate::codec::lemma_be16_at_bytes(b2, 4, 16);
            crate::codec::lemma_be16_at_frame(b2, b, 4);
            crate::codec::lemma_be16_at_bytes(b3, 6, 20);
            crate::codec::lemma_be16_at_frame(b3, b, 6);
            crate::codec::lemma_be32_at_bytes(b4, 8, 64);
            crate::codec::lemma_be32_at_frame(b4, b, 8);
            crate::codec::lemma_be32_at_bytes(b5, 12, 1920);
            crate::codec::lemma_be32_at_frame(b5, b, 12);
            assert(state.spec_data_region_offset() == 3216);
            assert forall|j: int| 0 <= j < 64 implies #[trigger] state.record_encoded(b, j)
                && b.subrange(16 + 20 * j, 16 + 20 * j + 20) == zero_record() by {
                lemma_record_range(64, j);
                assert(b.subrange(16 + 20 * j + 8, 16 + 20 * j + 12) =~= crate::codec::be32_bytes(
                    0u32,
                ));
                assert(b.subrange(16 + 20 * j, 16 + 20 * j + 20) =~= zero_record());
            }
            assert(state.encodes(b));
            assert(state.view_of(b) =~= Map::<Seq<u8>, crate::state::EntryData>::empty());
        }
        Ok(state)
    }

    /// Removes the entry named `path`: the slot is freed in memory and its
    /// record is zeroed on disk. The entry's data bytes stay where they are,
    /// unreferenced, until the next repack.
    pub fn remove(&mut self, storage: &mut MemStorage, path: &[u8]) -> (r: Result<(), RemoveError>)
        requires
            old(self).encodes(old(storage)@),
        ensures
            final(self).encodes(final(storage)@),
            match r {
                Ok(()) => {
                    &&& old(self).has_path(path@)
                    &&& final(self).entries@ == old(self).entries@.update(
                        old(self).index_of(path@),
                        None,
                    )
                    &&& final(storage)@.subrange(
                        16 + 20 * old(self).index_of(path@),
                        16 + 20 * old(self).index_of(path@) + 20,
                    ) == zero_record()
                    &&& final(self).path_region_size == old(self).path_region_size
                    &&& final(self).path_region_empty_offset == old(self).path_region_empty_offset
                    &&& final(self).view_of(final(storage)@) == old(self).view_of(
                        old(storage)@,
                    ).remove(path@)
                    &&& final(storage)@.len() == old(storage)@.len()
                    &&& old(self).hashes_ok() ==> final(self).hashes_ok()
                },
                Err(RemoveError::NotFound) => {
                    &&& !old(self).has_path(path@)
                    &&& *final(self) == *old(self)
                    &&& final(storage)@ == old(storage)@
                },
            },
    {
        let idx = match self.find_index(path) {
            Some(i) => i,
            None => {
                return Err(RemoveError::NotFound);
            },
        };
        proof {
            crate::state::lemma_index_of(&*self, idx as int);
            lemma_record_range(self.entries@.len() as int, idx as int);
        }
        let ghost old_self = *self;
        let ghost old_b = storage@;
        self.entries[idx] = None;
        write_empty_record(storage, idx);
        proof {
            let b = storage@;
            crate::state::lemma_zero_record_mid(b, 16 + 20 * (idx as int));
            let n = self.entries@.len() as int;
            assert(self.spec_path_region_offset() == old_self.spec_path_region_offset());
            assert forall|j: int| self.occupied(j) implies #[trigger] self.entry_wf(j) by {
                assert(old_self.occupied(j));
                assert(old_self.entry_wf(j));
            }
            assert forall|i2: int, j2: int|
                self.occupied(i2) && self.occupied(j2) && i2 != j2 implies self.entry_at(
                i2,
            ).path@ != self.entry_at(j2).path@ by {
                assert(old_self.occupied(i2) && old_self.occupied(j2));
            }
            assert(self.wf());
            crate::codec::lemma_be32_at_frame(old_b, b, 8);
            crate::codec::lemma_be32_at_frame(old_b, b, 12);
            crate::codec::lemma_be16_at_frame(old_b, b, 4);
            crate::codec::lemma_be16_at_frame(old_b, b, 6);
            lemma_subrange_frame(old_b, b, 0, 4);
            assert forall|j: int| 0 <= j < n implies #[trigger] self.record_encoded(b, j) by {
                lemma_record_range(n, j);
                if j != idx {
                    lemma_record_range(n, idx as int);
                    lemma_subrange_frame(old_b, b, 16 + 20 * j, 16 + 20 * j + 20);
                    lemma_subrange_frame(old_b, b, 16 + 20 * j + 8, 16 + 20 * j + 12);
                    assert(old_self.record_encoded(old_b, j));
                }
            }
            assert forall|j: int| self.occupied(j) implies #[trigger] self.path_region_encoded(
                b,
                j,
            ) by {
                let e = self.entry_at(j);
                let start = self.spec_path_region_offset() + e.relative_path_offset;
                assert(old_self.path_region_encoded(old_b, j));
                assert(old_self.entry_wf(j));
                lemma_record_range(n, idx as int);
                lemma_subrange_frame(old_b, b, start, start + e.path@.len());
            }
            assert forall|j: int| self.occupied(j) implies #[trigger] self.data_range_ok(
                b.len() as int,
                j,
            ) by {
                assert(old_self.data_range_ok(old_b.len() as int, j));
            }
            assert(self.encodes(b));
            assert forall|p: Seq<u8>| self.has_path(p) <==> (old_self.has_path(p) && p != path@) by {
                if self.has_path(p) {
                    let w = choose|i: int| self.occupied(i) && self.entry_at(i).path@ == p;
                    assert(old_self.occupied(w) && old_self.entry_at(w).path@ == p);
                    assert(w != idx as int);
                }
                if old_self.has_path(p) && p != path@ {
                    let w = choose|i: int|
                        old_self.occupied(i) && old_self.entry_at(i).path@ == p;
                    assert(w != idx as int);
                    assert(self.occupied(w) && self.entry_at(w).path@ == p);
                }
            }
            assert forall|p: Seq<u8>| self.has_path(p) implies self.view_of(b)[p]
                == old_self.view_of(old_b)[p] by {
                let w = choose|i: int| self.occupied(i) && self.entry_at(i).path@ == p;
                crate::state::lemma_index_of(&*self, w);
                assert(old_self.occupied(w));
                crate::state::lemma_index_of(&old_self, w);
                assert(old_self.entry_wf(w));
                assert(old_self.data_range_ok(old_b.len() as int, w));
                lemma_record_range(n, idx as int);
                lemma_subrange_frame(
                    old_b,
                    b,
                    self.entry_at(w).data_offset as int,
                    self.entry_at(w).data_offset + self.entry_at(w).data_size,
                );
            }
            assert(self.view_of(b) =~= old_self.view_of(old_b).remove(path@));
            if old_self.hashes_ok() {
                assert forall|j: int| self.occupied(j) implies #[trigger] self.entry_at(
                    j,
                ).path_hash == crate::hash::hash_of(self.entry_at(j).path@) by {
                    assert(old_self.occupied(j));
                    assert(old_self.entry_at(j).path_hash == crate::hash::hash_of(
                        old_self.entry_at(j).path@,
                    ));
                }
            }
        }
        Ok(())
    }
}


impl PkgState {
    /// The path region can grow by `plen + 1` bytes (with the preallocation
    /// burst) without breaking the format's limits: the grown region stays
    /// below the twenty-four-bit offset ceiling, the grown metadata stays
    /// addressable, and relocating the blobs below the new region end stays
    /// within the four-gigabyte stream ceiling.
    pub open spec fn can_reserve_path(&self, b: Seq<u8>, plen: int) -> bool {
        &&& self.path_region_size + plen + 961 <= 0xFF_FFFF
        &&& 16 + 20 * (self.entries@.len() as int) + self.path_region_size + plen + 961
            <= 0xFFFF_FFFF
        &&& vstd::math::max(b.len() as int, self.spec_data_region_offset() + plen + 961)
            + self.spec_sum_moved_from(self.spec_data_region_offset() + plen + 961, 0)
            <= 0xFFFF_FFFF
    }

    /// The entry table can grow by sixty-four slots (and the path region by
    /// its preallocation) without breaking the format's limits.
    pub open spec fn can_reserve_entries(&self, b: Seq<u8>) -> bool {
        &&& self.path_region_size + 1920 <= 0xFF_FFFF
        &&& 16 + 20 * (self.entries@.len() as int + 64) + self.path_region_size + 1920
            <= 0xFFFF_FFFF
        &&& vstd::math::max(b.len() as int, self.spec_data_region_offset() + 3200)
            + self.spec_sum_moved_from(self.spec_data_region_offset() + 3200, 0) <= 0xFFFF_FFFF
    }

    /// Checks [`Self::can_reserve_path`].
    fn path_reserve_ok(&self, storage: &MemStorage, plen: usize) -> (r: bool)
        requires
            self.encodes(storage@),
            plen <= 0xFFFF,
        ensures
            r == self.can_reserve_path(storage@, plen as int),
    {
        if !(self.path_region_size as u64 + plen as u64 + 961 <= 0xFF_FFFF) {
            return false;
        }
        if !(16 + 20 * (self.entries.len() as u64) + self.path_region_size as u64 + plen as u64
            + 961 <= 0xFFFF_FFFF) {
            return false;
        }
        let dro = self.data_region_offset();
        let new_min: u64 = dro as u64 + plen as u64 + 961;
        let sm = self.sum_moved(new_min as u32);
        if sm > 0xFFFF_FFFF {
            proof {
                crate::layout::lemma_sum_moved_nonneg(self, new_min as int, 0);
            }
            return false;
        }
        let len = storage.len() as u64;
        let base: u64 = if len > new_min {
            len
        } else {
            new_min
        };
        base + sm <= 0xFFFF_FFFF
    }

    /// Checks [`Self::can_reserve_entries`].
    fn entry_reserve_ok(&self, storage: &MemStorage) -> (r: bool)
        requires
            self.encodes(storage@),
        ensures
            r == self.can_reserve_entries(storage@),
    {
        if !(self.path_region_size as u64 + 1920 <= 0xFF_FFFF) {
            return false;
        }
        if !(16 + 20 * (self.entries.len() as u64 + 64) + self.path_region_size as u64 + 1920
            <= 0xFFFF_FFFF) {
            return false;
        }
        let dro = self.data_region_offset();
        let new_min: u64 = dro as u64 + 3200;
        let sm = self.sum_moved(new_min as u32);
        if sm > 0xFFFF_FFFF {
            proof {
                crate::layout::lemma_sum_moved_nonneg(self, new_min as int, 0);
            }
            return false;
        }
        let len = storage.len() as u64;
        let base: u64 = if len > new_min {
            len
        } else {
            new_min
        };
        base + sm <= 0xFFFF_FFFF
    }

    /// Finds the lowest empty slot.
    fn find_empty_slot(&self) -> (r: Option<usize>)
        ensures
            match r {
                Some(i) => 0 <= i < self.entries@.len() && !self.occupied(i as int) && forall|
                    j: int,
                |
                    0 <= j < i ==> self.occupied(j),
                None => forall|j: int| 0 <= j < self.entries@.len() ==> self.occupied(j),
            },
    {
        let mut i: usize = 0;
        while i < self.entries.len()
            invariant
                i <= self.entries@.len(),
                forall|j: int| 0 <= j < i ==> self.occupied(j),
            decreases self.entries@.len() - i,
        {
            if self.entries[i].is_none() {
                return Some(i);
            }
            i = i + 1;
        }
        None
    }

    /// Prepares the insertion of a new entry named `path`: the path goes
    /// NUL-terminated into the path region, and the lowest empty slot is
    /// picked (the table grows by sixty-four slots when none is empty).
    /// Returns the chosen slot and the path's offset in the path region.
    ///
    /// Nothing is committed yet: the slot's record stays zero on disk and
    /// empty in memory, and the archive's content is unchanged, until
    /// [`crate::sync::EntryWriter::finish`] stores the entry. `ArchiveFull`
    /// reports growth past the format's 4 GiB limit; the archive stays
    /// consistent, though regions may already have been enlarged.
    #[verifier::rlimit(100)]
    pub fn insert(
        &mut self,
        storage: &mut MemStorage,
        path: &[u8],
    ) -> (r: Result<(usize, u32), InsertError>)
        requires
            old(self).encodes(old(storage)@),
            path_bytes_ok(path@),
            0 < path@.len() <= 0xFFFF,
        ensures
            final(self).encodes(final(storage)@),
            old(self).hashes_ok() ==> final(self).hashes_ok(),
            final(self).view_of(final(storage)@) == old(self).view_of(old(storage)@),
            match r {
                Ok((slot, rel)) => {
                    &&& !old(self).has_path(path@)
                    &&& !final(self).has_path(path@)
                    &&& slot < final(self).entries@.len()
                    &&& !final(self).occupied(slot as int)
                    &&& forall|j: int| 0 <= j < slot ==> final(self).occupied(j)
                    &&& forall|j: int| 0 <= j < slot ==> old(self).occupied(j)
                    &&& (slot < old(self).entries@.len() ==> !old(self).occupied(slot as int))
                    &&& rel + path@.len() + 1 == final(self).path_region_empty_offset
                    &&& ({
                        let start = final(self).spec_path_region_offset() + rel;
                        final(storage)@.subrange(start, start + path@.len()) == path@
                            && final(storage)@[start + path@.len()] == 0
                    })
                    &&& old(storage)@.len() <= final(storage)@.len()
                },
                Err(InsertError::AlreadyExists) => {
                    &&& old(self).has_path(path@)
                    &&& *final(self) == *old(self)
                    &&& final(storage)@ == old(storage)@
                },
                Err(InsertError::ArchiveFull) => {
                    &&& !old(self).has_path(path@)
                    &&& (!final(self).can_reserve_path(final(storage)@, path@.len() as int) || ((
                    forall|j: int| 0 <= j < old(self).entries@.len() ==> old(self).occupied(j))
                        && !old(self).can_reserve_entries(old(storage)@)))
                    &&& ((exists|j: int| 0 <= j < old(self).entries@.len() && !old(self).occupied(j))
                        ==> (*final(self) == *old(self) && final(storage)@ == old(storage)@
                            && !old(self).can_reserve_path(old(storage)@, path@.len() as int)))
                },
            },
    {
        if self.contains(path) {
            return Err(InsertError::AlreadyExists);
        }
        let ghost s0 = *old(self);
        let ghost b0 = old(storage)@;
        let slot = match self.find_empty_slot() {
            Some(i) => i,
            None => {
                let i = self.entries.len();
                if !self.entry_reserve_ok(storage) {
                    return Err(InsertError::ArchiveFull);
                }
                self.reserve_entries(storage, 64);
                proof {
                    assert forall|p: Seq<u8>| self.has_path(p) == s0.has_path(p) by {
                        if self.has_path(p) {
                            let w = choose|k: int|
                                self.occupied(k) && self.entry_at(k).path@ == p;
                            assert(s0.occupied(w) && s0.entry_at(w).path@ == p);
                        }
                        if s0.has_path(p) {
                            let w = choose|k: int| s0.occupied(k) && s0.entry_at(k).path@ == p;
                            assert(self.occupied(w) && self.entry_at(w).path@ == p);
                        }
                    }
                }
                i
            },
        };
        if !self.path_reserve_ok(storage, path.len()) {
            return Err(InsertError::ArchiveFull);
        }
        let ghost s1 = *self;
        let rel = self.insert_path_into_path_region(storage, path);
        proof {
            assert forall|p: Seq<u8>| self.has_path(p) == s1.has_path(p) by {
                if self.has_path(p) {
                    let w = choose|k: int| self.occupied(k) && self.entry_at(k).path@ == p;
                    assert(s1.occupied(w) && s1.entry_at(w).path@ == p);
                }
                if s1.has_path(p) {
                    let w = choose|k: int| s1.occupied(k) && s1.entry_at(k).path@ == p;
                    assert(self.occupied(w) && self.entry_at(w).path@ == p);
                }
            }
        }
        Ok((slot, rel))
    }
}

impl PkgState {
    /// Renames `src` to `dst`. The destination path is appended to the path
    /// region (the source's bytes become garbage until the next repack), the
    /// entry's path, path offset and path hash are updated, and its record is
    /// rewritten. The entry's data bytes are untouched.
    #[verifier::rlimit(100)]
    pub fn rename(
        &mut self,
        storage: &mut MemStorage,
        src: &[u8],
        dst: &[u8],
    ) -> (r: Result<(), RenameError>)
        requires
            old(self).encodes(old(storage)@),
            path_bytes_ok(dst@),
            0 < dst@.len() <= 0xFFFF,
        ensures
            final(self).encodes(final(storage)@),
            old(self).hashes_ok() ==> final(self).hashes_ok(),
            match r {
                Ok(()) => {
                    &&& old(self).has_path(src@)
                    &&& !old(self).has_path(dst@)
                    &&& final(self).view_of(final(storage)@) == old(self).view_of(
                        old(storage)@,
                    ).remove(src@).insert(dst@, old(self).view_of(old(storage)@)[src@])
                    &&& old(storage)@.len() <= final(storage)@.len()
                },
                Err(RenameError::NotFound) => {
                    &&& !old(self).has_path(src@)
                    &&& *final(self) == *old(self)
                    &&& final(storage)@ == old(storage)@
                },
                Err(RenameError::AlreadyExists) => {
                    &&& old(self).has_path(src@)
                    &&& old(self).has_path(dst@)
                    &&& *final(self) == *old(self)
                    &&& final(storage)@ == old(storage)@
                },
                Err(RenameError::ArchiveFull) => {
                    &&& old(self).has_path(src@)
                    &&& !old(self).has_path(dst@)
                    &&& !old(self).can_reserve_path(old(storage)@, dst@.len() as int)
                    &&& *final(self) == *old(self)
                    &&& final(storage)@ == old(storage)@
                },
            },
    {
        let idx = match self.find_index(src) {
            Some(i) => i,
            None => {
                return Err(RenameError::NotFound);
            },
        };
        if self.contains(dst) {
            return Err(RenameError::AlreadyExists);
        }
        let ghost s0 = *old(self);
        let ghost b0 = old(storage)@;
        if !self.path_reserve_ok(storage, dst.len()) {
            return Err(RenameError::ArchiveFull);
        }
        let rel = self.insert_path_into_path_region(storage, dst);
        let ghost s2 = *self;
        let ghost b2 = storage@;
        proof {
            assert forall|p: Seq<u8>| s2.has_path(p) == s0.has_path(p) by {
                if s2.has_path(p) {
                    let w = choose|k: int| s2.occupied(k) && s2.entry_at(k).path@ == p;
                    assert(s0.occupied(w) && s0.entry_at(w).path@ == p);
                }
                if s0.has_path(p) {
                    let w = choose|k: int| s0.occupied(k) && s0.entry_at(k).path@ == p;
                    assert(s2.occupied(w) && s2.entry_at(w).path@ == p);
                }
            }
            assert(s2.entry_at(idx as int).path@ == src@);
        }
        let hash = crate::hash::hash_of_bytes(dst);
        let slot = vstd::std_specs::vec::vec_index_mut(&mut self.entries, idx);
        let e_old = slot.take();
        let e_new = match e_old {
            Some(e) => Entry {
                path_hash: hash,
                relative_path_offset: rel,
                path: vstd::slice::slice_to_vec(dst),
                data_offset: e.data_offset,
                data_size: e.data_size,
                unpacked_size: e.unpacked_size,
                deflated: e.deflated,
            },
            None => {
                proof {
                    assert(false);
                }
                vstd::pervasive::unreached()
            },
        };
        proof {
            lemma_record_range(s2.entries@.len() as int, idx as int);
            assert(rel + dst@.len() + 1 <= s2.path_region_empty_offset);
        }
        write_record(storage, idx, &e_new);
        self.entries[idx] = Some(e_new);
        proof {
            lemma_rename_commit(&s2, &*self, b2, storage@, idx as int, src@, dst@);
            assert(s2.view_of(b2) == s0.view_of(b0));
            assert(s2.occupied(idx as int) && s2.entry_at(idx as int).path@ == src@);
            crate::state::lemma_index_of(&s2, idx as int);
            assert(self.view_of(storage@) =~= s0.view_of(b0).remove(src@).insert(
                dst@,
                s0.view_of(b0)[src@],
            ));
            if s0.hashes_ok() {
                assert(s2.hashes_ok());
            }
        }
        Ok(())
    }

    /// Renames `src` onto `dst`, replacing `dst` if it exists: the `dst`
    /// entry is re-pointed at `src`'s data and the `src` slot is freed; when
    /// `dst` does not exist this is exactly a rename. Replacing an entry with
    /// itself leaves the archive as it is.
    pub fn replace(
        &mut self,
        storage: &mut MemStorage,
        src: &[u8],
        dst: &[u8],
    ) -> (r: Result<(), ReplaceError>)
        requires
            old(self).encodes(old(storage)@),
            path_bytes_ok(dst@),
            0 < dst@.len() <= 0xFFFF,
        ensures
            final(self).encodes(final(storage)@),
            old(self).hashes_ok() ==> final(self).hashes_ok(),
            match r {
                Ok(()) => {
                    &&& old(self).has_path(src@)
                    &&& final(self).view_of(final(storage)@) == old(self).view_of(
                        old(storage)@,
                    ).remove(src@).insert(dst@, old(self).view_of(old(storage)@)[src@])
                    &&& old(storage)@.len() <= final(storage)@.len()
                    &&& ((old(self).has_path(dst@) && src@ != dst@) ==> {
                        &&& final(self).entries@.len() == old(self).entries@.len()
                        &&& final(self).occupied(old(self).index_of(dst@))
                        &&& final(self).entry_at(old(self).index_of(dst@)).path@ == dst@
                        &&& final(storage)@.subrange(
                            16 + 20 * old(self).index_of(src@),
                            16 + 20 * old(self).index_of(src@) + 20,
                        ) == zero_record()
                    })
                },
                Err(ReplaceError::NotFound) => {
                    &&& !old(self).has_path(src@)
                    &&& *final(self) == *old(self)
                    &&& final(storage)@ == old(storage)@
                },
                Err(ReplaceError::ArchiveFull) => {
                    &&& old(self).has_path(src@)
                    &&& !old(self).has_path(dst@)
                    &&& !old(self).can_reserve_path(old(storage)@, dst@.len() as int)
                    &&& *final(self) == *old(self)
                    &&& final(storage)@ == old(storage)@
                },
            },
    {
        let ghost s0 = *old(self);
        let ghost b0 = old(storage)@;
        let src_idx = match self.find_index(src) {
            Some(i) => i,
            None => {
                return Err(ReplaceError::NotFound);
            },
        };
        let dst_idx = match self.find_index(dst) {
            Some(i) => i,
            None => {
                // plain rename; the destination is free
                let res = self.rename(storage, src, dst);
                return match res {
                    Ok(()) => Ok(()),
                    Err(RenameError::ArchiveFull) => Err(ReplaceError::ArchiveFull),
                    Err(RenameError::NotFound) => {
                        proof {
                            assert(false);
                        }
                        Err(ReplaceError::NotFound)
                    },
                    Err(RenameError::AlreadyExists) => {
                        proof {
                            assert(false);
                        }
                        Err(ReplaceError::NotFound)
                    },
                };
            },
        };
        if src_idx == dst_idx {
            proof {
                crate::state::lemma_index_of(&*self, src_idx as int);
                assert(src@ == dst@);
                assert(self.view_of(storage@) =~= s0.view_of(b0).remove(src@).insert(
                    dst@,
                    s0.view_of(b0)[src@],
                ));
            }
            return Ok(());
        }
        proof {
            crate::state::lemma_index_of(&*self, src_idx as int);
            crate::state::lemma_index_of(&*self, dst_idx as int);
            lemma_record_range(self.entries@.len() as int, src_idx as int);
            lemma_record_range(self.entries@.len() as int, dst_idx as int);
        }
        // move the data fields of src onto dst
        let (src_off, src_size, src_unpacked, src_deflated) = match &self.entries[src_idx] {
            Some(e) => (e.data_offset, e.data_size, e.unpacked_size, e.deflated),
            None => {
                proof {
                    assert(false);
                }
                vstd::pervasive::unreached()
            },
        };
        let slot = vstd::std_specs::vec::vec_index_mut(&mut self.entries, dst_idx);
        let e_old = slot.take();
        let e_new = match e_old {
            Some(e) => Entry {
                path_hash: e.path_hash,
                relative_path_offset: e.relative_path_offset,
                path: e.path,
                data_offset: src_off,
                data_size: src_size,
                unpacked_size: src_unpacked,
                deflated: src_deflated,
            },
            None => {
                proof {
                    assert(false);
                }
                vstd::pervasive::unreached()
            },
        };
        let ghost s_mid = *self;
        proof {
            assert(s0.entry_wf(src_idx as int));
            assert(s0.entry_wf(dst_idx as int));
        }
        self.entries[src_idx] = None;
        write_empty_record(storage, src_idx);
        let ghost b3 = storage@;
        write_record(storage, dst_idx, &e_new);
        self.entries[dst_idx] = Some(e_new);
        proof {
            if src_idx < dst_idx {
                lemma_record_disjoint(src_idx as int, dst_idx as int);
            } else {
                lemma_record_disjoint(dst_idx as int, src_idx as int);
            }
            assert(storage@.subrange(16 + 20 * (src_idx as int), 16 + 20 * (src_idx as int) + 20)
                == zero_record()) by {
                lemma_subrange_frame(
                    b3,
                    storage@,
                    16 + 20 * (src_idx as int),
                    16 + 20 * (src_idx as int) + 20,
                );
            }
            crate::state::lemma_zero_record_mid(storage@, 16 + 20 * (src_idx as int));
            lemma_replace_commit(&s0, &*self, b0, storage@, src_idx as int, dst_idx as int);
            crate::state::lemma_index_of(&s0, src_idx as int);
            assert(self.view_of(storage@) =~= s0.view_of(b0).remove(src@).insert(
                dst@,
                s0.view_of(b0)[src@],
            ));
        }
        Ok(())
    }
}


/// The record ranges of two different slots do not overlap.
pub proof fn lemma_record_disjoint(i: int, j: int)
    requires
        0 <= i < j,
    ensures
        16 + 20 * i + 20 <= 16 + 20 * j,
{
    assert(20 * i + 20 <= 20 * j) by (nonlinear_arith)
        requires
            0 <= i < j,
    ;
}

/// The commit step of [`PkgState::rename`]: rewriting one record with the
/// new path, path offset and hash renames exactly that entry, and its data
/// bytes stay what they were.
#[verifier::rlimit(100)]
proof fn lemma_rename_commit(
    s2: &PkgState,
    post: &PkgState,
    b2: Seq<u8>,
    b: Seq<u8>,
    idx: int,
    src: Seq<u8>,
    dst: Seq<u8>,
)
    requires
        s2.encodes(b2),
        s2.occupied(idx),
        s2.entry_at(idx).path@ == src,
        !s2.has_path(dst),
        path_bytes_ok(dst),
        0 < dst.len(),
        post.entries@.len() == s2.entries@.len(),
        forall|j: int| 0 <= j < s2.entries@.len() && j != idx ==> post.entries@[j]
            == s2.entries@[j],
        post.occupied(idx),
        ({
            let e = post.entry_at(idx);
            let e1 = s2.entry_at(idx);
            &&& e.path@ == dst
            &&& e.path_hash == crate::hash::hash_of(dst)
            &&& e.relative_path_offset + dst.len() + 1 <= s2.path_region_empty_offset
            &&& e.data_offset == e1.data_offset
            &&& e.data_size == e1.data_size
            &&& e.unpacked_size == e1.unpacked_size
            &&& e.deflated == e1.deflated
        }),
        post.path_region_size == s2.path_region_size,
        post.path_region_empty_offset == s2.path_region_empty_offset,
        b.len() == b2.len(),
        forall|k: int|
            0 <= k < b2.len() && !(16 + 20 * idx <= k < 16 + 20 * idx + 20) ==> b[k] == b2[k],
        b.subrange(16 + 20 * idx, 16 + 20 * idx + 20) == post.entry_at(idx).record_bytes(),
        ({
            let start = s2.spec_path_region_offset() + post.entry_at(idx).relative_path_offset;
            b2.subrange(start, start + dst.len()) == dst && b2[start + dst.len()] == 0
        }),
    ensures
        post.encodes(b),
        post.view_of(b) == s2.view_of(b2).remove(src).insert(dst, s2.view_of(b2)[src]),
        s2.hashes_ok() ==> post.hashes_ok(),
{
    let n = post.entries@.len() as int;
    let pro = s2.spec_path_region_offset();
    assert(post.spec_path_region_offset() == pro);
    lemma_record_range(n, idx);

    assert forall|j: int| post.occupied(j) implies #[trigger] post.entry_wf(j) by {
        if j != idx {
            assert(s2.occupied(j));
            assert(s2.entry_wf(j));
        } else {
            assert(s2.entry_wf(idx));
        }
    }
    assert forall|i2: int, j2: int|
        post.occupied(i2) && post.occupied(j2) && i2 != j2 implies post.entry_at(i2).path@
        != post.entry_at(j2).path@ by {
        if i2 == idx {
            assert(s2.occupied(j2) && s2.entry_at(j2).path@ == post.entry_at(j2).path@);
        } else if j2 == idx {
            assert(s2.occupied(i2) && s2.entry_at(i2).path@ == post.entry_at(i2).path@);
        } else {
            assert(s2.occupied(i2) && s2.occupied(j2));
        }
    }
    assert(post.wf());

    crate::codec::lemma_be16_at_frame(b2, b, 4);
    crate::codec::lemma_be16_at_frame(b2, b, 6);
    crate::codec::lemma_be32_at_frame(b2, b, 8);
    crate::codec::lemma_be32_at_frame(b2, b, 12);
    lemma_subrange_frame(b2, b, 0, 4);
    assert forall|j: int| 0 <= j < n implies #[trigger] post.record_encoded(b, j) by {
        lemma_record_range(n, j);
        if j != idx {
            lemma_subrange_frame(b2, b, 16 + 20 * j, 16 + 20 * j + 20);
            lemma_subrange_frame(b2, b, 16 + 20 * j + 8, 16 + 20 * j + 12);
            assert(s2.record_encoded(b2, j));
        }
    }
    assert forall|j: int| post.occupied(j) implies #[trigger] post.path_region_encoded(b, j) by {
        let e2 = post.entry_at(j);
        let start = pro + e2.relative_path_offset;
        if j == idx {
            lemma_subrange_frame(b2, b, start, start + e2.path@.len());
        } else {
            assert(s2.occupied(j));
            assert(s2.entry_wf(j));
            assert(s2.path_region_encoded(b2, j));
            lemma_subrange_frame(b2, b, start, start + e2.path@.len());
        }
    }
    assert forall|j: int| post.occupied(j) implies #[trigger] post.data_range_ok(
        b.len() as int,
        j,
    ) by {
        assert(s2.occupied(j));
        assert(s2.data_range_ok(b2.len() as int, j));
    }
    assert(post.encodes(b));

    crate::state::lemma_index_of(s2, idx);
    assert forall|p: Seq<u8>| post.has_path(p) == ((s2.has_path(p) && p != src) || p == dst) by {
        if post.has_path(p) {
            let w = choose|k: int| post.occupied(k) && post.entry_at(k).path@ == p;
            if w != idx {
                assert(s2.occupied(w) && s2.entry_at(w).path@ == p);
                assert(p != src);
            }
        }
        if s2.has_path(p) && p != src {
            let w = choose|k: int| s2.occupied(k) && s2.entry_at(k).path@ == p;
            assert(w != idx);
            assert(post.occupied(w) && post.entry_at(w).path@ == p);
        }
        if p == dst {
            assert(post.occupied(idx) && post.entry_at(idx).path@ == p);
        }
    }
    assert forall|p: Seq<u8>| post.has_path(p) implies post.view_of(b)[p] == (if p == dst {
        s2.view_of(b2)[src]
    } else {
        s2.view_of(b2)[p]
    }) by {
        let w = choose|k: int| post.occupied(k) && post.entry_at(k).path@ == p;
        crate::state::lemma_index_of(post, w);
        assert(s2.occupied(w));
        assert(s2.data_range_ok(b2.len() as int, w));
        lemma_subrange_frame(
            b2,
            b,
            post.entry_at(w).data_offset as int,
            post.entry_at(w).data_offset + post.entry_at(w).data_size,
        );
        if p == dst {
            if w != idx {
                assert(post.entry_at(w).path@ != post.entry_at(idx).path@);
                assert(false);
            }
        } else {
            assert(w != idx);
            crate::state::lemma_index_of(s2, w);
        }
    }
    assert(post.view_of(b) =~= s2.view_of(b2).remove(src).insert(dst, s2.view_of(b2)[src]));
    if s2.hashes_ok() {
        assert forall|j: int| post.occupied(j) implies #[trigger] post.entry_at(j).path_hash
            == crate::hash::hash_of(post.entry_at(j).path@) by {
            if j != idx {
                assert(s2.occupied(j));
                assert(s2.entry_at(j).path_hash == crate::hash::hash_of(s2.entry_at(j).path@));
            }
        }
    }
}

/// The commit step of [`PkgState::replace`] when both names exist: the
/// destination record is re-pointed at the source's data, the source record
/// is zeroed, and everything else stays in place.
#[verifier::rlimit(100)]
proof fn lemma_replace_commit(
    s0: &PkgState,
    post: &PkgState,
    b0: Seq<u8>,
    b: Seq<u8>,
    src_idx: int,
    dst_idx: int,
)
    requires
        s0.encodes(b0),
        src_idx != dst_idx,
        s0.occupied(src_idx),
        s0.occupied(dst_idx),
        post.entries@.len() == s0.entries@.len(),
        forall|j: int|
            0 <= j < s0.entries@.len() && j != src_idx && j != dst_idx ==> post.entries@[j]
                == s0.entries@[j],
        post.entries@[src_idx] is None,
        post.occupied(dst_idx),
        ({
            let e = post.entry_at(dst_idx);
            let ed = s0.entry_at(dst_idx);
            let es = s0.entry_at(src_idx);
            &&& e.path@ == ed.path@
            &&& e.path_hash == ed.path_hash
            &&& e.relative_path_offset == ed.relative_path_offset
            &&& e.data_offset == es.data_offset
            &&& e.data_size == es.data_size
            &&& e.unpacked_size == es.unpacked_size
            &&& e.deflated == es.deflated
        }),
        post.path_region_size == s0.path_region_size,
        post.path_region_empty_offset == s0.path_region_empty_offset,
        b.len() == b0.len(),
        forall|k: int|
            0 <= k < b0.len() && !(16 + 20 * src_idx <= k < 16 + 20 * src_idx + 20) && !(16 + 20
                * dst_idx <= k < 16 + 20 * dst_idx + 20) ==> b[k] == b0[k],
        b.subrange(16 + 20 * src_idx, 16 + 20 * src_idx + 20) == zero_record(),
        b.subrange(16 + 20 * dst_idx, 16 + 20 * dst_idx + 20) == post.entry_at(
            dst_idx,
        ).record_bytes(),
    ensures
        post.encodes(b),
        post.view_of(b) == s0.view_of(b0).remove(s0.entry_at(src_idx).path@).insert(
            s0.entry_at(dst_idx).path@,
            s0.view_of(b0)[s0.entry_at(src_idx).path@],
        ),
        s0.hashes_ok() ==> post.hashes_ok(),
{
    let n = post.entries@.len() as int;
    let pro = s0.spec_path_region_offset();
    let src = s0.entry_at(src_idx).path@;
    let dst = s0.entry_at(dst_idx).path@;
    assert(post.spec_path_region_offset() == pro);
    lemma_record_range(n, src_idx);
    lemma_record_range(n, dst_idx);
    crate::state::lemma_zero_record_mid(b, 16 + 20 * src_idx);

    assert forall|j: int| post.occupied(j) implies #[trigger] post.entry_wf(j) by {
        assert(s0.occupied(j));
        assert(s0.entry_wf(j));
        if j == dst_idx {
            assert(s0.entry_wf(src_idx));
        }
    }
    assert forall|i2: int, j2: int|
        post.occupied(i2) && post.occupied(j2) && i2 != j2 implies post.entry_at(i2).path@
        != post.entry_at(j2).path@ by {
        assert(s0.occupied(i2) && s0.occupied(j2));
        assert(post.entry_at(i2).path@ == s0.entry_at(i2).path@);
        assert(post.entry_at(j2).path@ == s0.entry_at(j2).path@);
    }
    assert(post.wf());

    crate::codec::lemma_be16_at_frame(b0, b, 4);
    crate::codec::lemma_be16_at_frame(b0, b, 6);
    crate::codec::lemma_be32_at_frame(b0, b, 8);
    crate::codec::lemma_be32_at_frame(b0, b, 12);
    lemma_subrange_frame(b0, b, 0, 4);
    assert forall|j: int| 0 <= j < n implies #[trigger] post.record_encoded(b, j) by {
        lemma_record_range(n, j);
        if j != src_idx && j != dst_idx {
            lemma_subrange_frame(b0, b, 16 + 20 * j, 16 + 20 * j + 20);
            lemma_subrange_frame(b0, b, 16 + 20 * j + 8, 16 + 20 * j + 12);
            assert(s0.record_encoded(b0, j));
        }
    }
    assert forall|j: int| post.occupied(j) implies #[trigger] post.path_region_encoded(b, j) by {
        assert(s0.occupied(j));
        assert(s0.entry_wf(j));
        assert(s0.path_region_encoded(b0, j));
        let e2 = post.entry_at(j);
        let start = pro + e2.relative_path_offset;
        lemma_subrange_frame(b0, b, start, start + e2.path@.len());
    }
    assert forall|j: int| post.occupied(j) implies #[trigger] post.data_range_ok(
        b.len() as int,
        j,
    ) by {
        assert(s0.occupied(j));
        assert(s0.data_range_ok(b.len() as int, j));
        if j == dst_idx {
            assert(s0.data_range_ok(b.len() as int, src_idx));
        }
    }
    assert(post.encodes(b));

    crate::state::lemma_index_of(s0, src_idx);
    crate::state::lemma_index_of(s0, dst_idx);
    assert forall|p: Seq<u8>| post.has_path(p) == (s0.has_path(p) && p != src) by {
        if post.has_path(p) {
            let w = choose|k: int| post.occupied(k) && post.entry_at(k).path@ == p;
            assert(s0.occupied(w) && s0.entry_at(w).path@ == p);
            assert(w != src_idx);
            assert(p != src);
        }
        if s0.has_path(p) && p != src {
            let w = choose|k: int| s0.occupied(k) && s0.entry_at(k).path@ == p;
            assert(w != src_idx);
            assert(post.occupied(w) && post.entry_at(w).path@ == p);
        }
    }
    assert forall|p: Seq<u8>| post.has_path(p) implies post.view_of(b)[p] == (if p == dst {
        s0.view_of(b0)[src]
    } else {
        s0.view_of(b0)[p]
    }) by {
        let w = choose|k: int| post.occupied(k) && post.entry_at(k).path@ == p;
        crate::state::lemma_index_of(post, w);
        assert(s0.occupied(w));
        crate::state::lemma_index_of(s0, w);
        assert(s0.data_range_ok(b0.len() as int, w));
        if w == dst_idx {
            assert(s0.data_range_ok(b0.len() as int, src_idx));
            lemma_subrange_frame(
                b0,
                b,
                post.entry_at(w).data_offset as int,
                post.entry_at(w).data_offset + post.entry_at(w).data_size,
            );
            assert(post.stored_of(b, w) == s0.stored_of(b0, src_idx));
        } else {
            lemma_subrange_frame(
                b0,
                b,
                post.entry_at(w).data_offset as int,
                post.entry_at(w).data_offset + post.entry_at(w).data_size,
            );
        }
    }
    assert(post.view_of(b) =~= s0.view_of(b0).remove(src).insert(dst, s0.view_of(b0)[src]));
    if s0.hashes_ok() {
        assert forall|j: int| post.occupied(j) implies #[trigger] post.entry_at(j).path_hash
            == crate::hash::hash_of(post.entry_at(j).path@) by {
            assert(s0.occupied(j));
            assert(s0.entry_at(j).path_hash == crate::hash::hash_of(s0.entry_at(j).path@));
            assert(post.entry_at(j).path@ == s0.entry_at(j).path@);
            assert(post.entry_at(j).path_hash == s0.entry_at(j).path_hash);
        }
    }
}

} // verus!
