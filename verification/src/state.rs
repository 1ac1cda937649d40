//! The in-memory index of an archive and its relation to the bytes on
//! storage.
//!
//! [`PkgState`] mirrors the on-disk layout: a header, a table of fixed-size
//! entry records (with empty slots), a region of NUL-terminated paths, and a
//! data region holding the blob bytes. [`PkgState::encodes`] states, byte for
//! byte, what a storage buffer must hold for this state to describe it; every
//! mutating operation preserves it.

use vstd::prelude::*;

use crate::codec::{be16_at, be32_at, be32_bytes, magic_seq};
use crate::hash::hash_of;

verus! {

/// The lowest data offset an occupied entry may use is never zero: a record
/// whose `data_offset` field is zero marks an empty slot.
pub struct Entry {
    /// The on-disk hash of `path` (an on-disk hint only).
    pub path_hash: u32,
    /// Offset of this entry's path within the path region.
    pub relative_path_offset: u32,
    /// The entry's path, as ASCII bytes without the NUL terminator.
    pub path: Vec<u8>,
    /// Absolute offset of the entry's stored bytes.
    pub data_offset: u32,
    /// Number of stored bytes.
    pub data_size: u32,
    /// Number of bytes the stored bytes decompress to (equal to `data_size`
    /// for uncompressed entries).
    pub unpacked_size: u32,
    /// Whether the stored bytes are a raw DEFLATE stream.
    pub deflated: bool,
}

impl Entry {
    /// The packed on-disk field: low 24 bits are the path offset, bit 24 is
    /// the deflate flag.
    pub open spec fn packed_field(&self) -> u32 {
        if self.deflated {
            (self.relative_path_offset + 0x0100_0000) as u32
        } else {
            self.relative_path_offset
        }
    }

    /// The twenty bytes of this entry's on-disk record.
    pub open spec fn record_bytes(&self) -> Seq<u8> {
        be32_bytes(self.path_hash) + be32_bytes(self.packed_field()) + be32_bytes(self.data_offset)
            + be32_bytes(self.data_size) + be32_bytes(self.unpacked_size)
    }
}

/// The record bytes of an empty slot: twenty zeros.
pub open spec fn zero_record() -> Seq<u8> {
    Seq::new(20, |i: int| 0u8)
}

/// Every path byte is ASCII and none is NUL.
pub open spec fn path_bytes_ok(p: Seq<u8>) -> bool {
    forall|k: int| 0 <= k < p.len() ==> 1 <= #[trigger] p[k] <= 0x7F
}

/// What one entry contributes to the archive's logical content.
pub struct EntryData {
    /// Whether `stored` is a raw DEFLATE stream.
    pub deflated: bool,
    /// The stored bytes of the entry.
    pub stored: Seq<u8>,
    /// The recorded unpacked size.
    pub unpacked_size: u32,
}

impl EntryData {
    /// The logical bytes of the entry: the stored bytes themselves, or what
    /// they decompress to.
    pub open spec fn content(&self) -> Option<Seq<u8>> {
        if self.deflated {
            crate::flate::inflate_of(self.stored)
        } else {
            Some(self.stored)
        }
    }
}

/// The in-memory index of an archive.
pub struct PkgState {
    /// On-disk size of the path region in bytes.
    pub path_region_size: u32,
    /// First unused byte of the path region.
    pub path_region_empty_offset: u32,
    /// The entry table; `None` is an empty slot (all-zero record on disk).
    pub entries: Vec<Option<Entry>>,
}

impl PkgState {
    /// Offset of the entry table: right after the header.
    pub open spec fn spec_entry_list_offset() -> int {
        16
    }

    /// Offset of the path region: right after the entry table.
    pub open spec fn spec_path_region_offset(&self) -> int {
        16 + 20 * (self.entries@.len() as int)
    }

    /// Offset of the data region: right after the path region.
    pub open spec fn spec_data_region_offset(&self) -> int {
        self.spec_path_region_offset() + self.path_region_size
    }

    /// Whether slot `i` holds an entry.
    pub open spec fn occupied(&self, i: int) -> bool {
        0 <= i < self.entries@.len() && self.entries@[i] is Some
    }

    /// The entry in slot `i`.
    pub open spec fn entry_at(&self, i: int) -> Entry {
        self.entries@[i]->Some_0
    }

    /// Whether some occupied slot holds path `p`.
    pub open spec fn has_path(&self, p: Seq<u8>) -> bool {
        exists|i: int| self.occupied(i) && self.entry_at(i).path@ == p
    }

    /// The slot index of path `p` (meaningful when `has_path(p)`).
    pub open spec fn index_of(&self, p: Seq<u8>) -> int {
        choose|i: int| self.occupied(i) && self.entry_at(i).path@ == p
    }

    /// Well-formedness of one occupied slot, relative to the index fields.
    pub open spec fn entry_wf(&self, i: int) -> bool {
        let e = self.entry_at(i);
        &&& e.relative_path_offset + e.path@.len() + 1 <= self.path_region_empty_offset
        &&& e.data_offset != 0
        &&& path_bytes_ok(e.path@)
    }

    /// Well-formedness of the in-memory index.
    pub open spec fn wf(&self) -> bool {
        &&& self.path_region_empty_offset <= self.path_region_size
        &&& self.path_region_size <= 0xFF_FFFF
        &&& 16 + 20 * (self.entries@.len() as int) + self.path_region_size <= 0xFFFF_FFFF
        &&& forall|i: int| self.occupied(i) ==> #[trigger] self.entry_wf(i)
        &&& forall|i: int, j: int|
            self.occupied(i) && self.occupied(j) && i != j
                ==> self.entry_at(i).path@ != self.entry_at(j).path@
    }

    /// Every occupied entry's recorded hash is the hash of its path. This
    /// holds of every archive this crate creates; a parsed foreign archive
    /// may violate it, since the hash is an unchecked hint.
    pub open spec fn hashes_ok(&self) -> bool {
        forall|i: int|
            self.occupied(i) ==> #[trigger] self.entry_at(i).path_hash == hash_of(
                self.entry_at(i).path@,
            )
    }

    /// The header bytes of `b` describe this state.
    pub open spec fn header_encoded(&self, b: Seq<u8>) -> bool {
        &&& b.subrange(0, 4) == magic_seq()
        &&& be16_at(b, 4) == 16
        &&& be16_at(b, 6) == 20
        &&& be32_at(b, 8) == self.entries@.len()
        &&& be32_at(b, 12) == self.path_region_size
    }

    /// The record bytes for slot `i` in `b` describe that slot. An empty
    /// slot is marked by a zero data-offset field alone: the format ignores
    /// the other fields of an empty record.
    pub open spec fn record_encoded(&self, b: Seq<u8>, i: int) -> bool {
        if self.entries@[i] is Some {
            b.subrange(16 + 20 * i, 16 + 20 * i + 20) == self.entry_at(i).record_bytes()
        } else {
            b.subrange(16 + 20 * i + 8, 16 + 20 * i + 12) == crate::codec::be32_bytes(0)
        }
    }

    /// The path bytes of occupied slot `i` sit NUL-terminated at the entry's
    /// recorded offset within the path region of `b`.
    pub open spec fn path_region_encoded(&self, b: Seq<u8>, i: int) -> bool {
        let e = self.entry_at(i);
        let start = self.spec_path_region_offset() + e.relative_path_offset;
        &&& b.subrange(start, start + e.path@.len()) == e.path@
        &&& b[start + e.path@.len()] == 0
    }

    /// The data range of occupied slot `i` lies within the data region of a
    /// stream of length `blen`.
    pub open spec fn data_range_ok(&self, blen: int, i: int) -> bool {
        let e = self.entry_at(i);
        &&& self.spec_data_region_offset() <= e.data_offset
        &&& e.data_offset + e.data_size <= blen
    }

    /// The full storage relation: `b` is an archive that parses back to this
    /// state (up to the derived `path_region_empty_offset`).
    pub open spec fn encodes(&self, b: Seq<u8>) -> bool {
        &&& self.wf()
        &&& self.spec_data_region_offset() <= b.len() <= 0xFFFF_FFFF
        &&& self.header_encoded(b)
        &&& forall|i: int| 0 <= i < self.entries@.len() ==> #[trigger] self.record_encoded(b, i)
        &&& forall|i: int| self.occupied(i) ==> #[trigger] self.path_region_encoded(b, i)
        &&& forall|i: int| self.occupied(i) ==> #[trigger] self.data_range_ok(b.len() as int, i)
    }

    /// The stored bytes of occupied slot `i` in `b`.
    pub open spec fn stored_of(&self, b: Seq<u8>, i: int) -> Seq<u8> {
        let e = self.entry_at(i);
        b.subrange(e.data_offset as int, e.data_offset + e.data_size)
    }

    /// The logical content of the archive: a map from path bytes to the
    /// entry's stored bytes and compression flag.
    pub open spec fn view_of(&self, b: Seq<u8>) -> Map<Seq<u8>, EntryData> {
        Map::new(
            |p: Seq<u8>| self.has_path(p),
            |p: Seq<u8>|
                {
                    let e = self.entry_at(self.index_of(p));
                    EntryData {
                        deflated: e.deflated,
                        stored: self.stored_of(b, self.index_of(p)),
                        unpacked_size: e.unpacked_size,
                    }
                },
        )
    }

    /// Exec mirror of [`Self::spec_path_region_offset`].
    pub fn path_region_offset(&self) -> (r: usize)
        requires
            self.wf(),
        ensures
            r == self.spec_path_region_offset(),
    {
        16 + 20 * self.entries.len()
    }

    /// Exec mirror of [`Self::spec_data_region_offset`].
    pub fn data_region_offset(&self) -> (r: usize)
        requires
            self.wf(),
        ensures
            r == self.spec_data_region_offset(),
    {
        16 + 20 * self.entries.len() + (self.path_region_size as usize)
    }

    /// Finds the slot holding `path`, if any.
    pub fn find_index(&self, path: &[u8]) -> (r: Option<usize>)
        ensures
            match r {
                Some(i) => self.occupied(i as int) && self.entry_at(i as int).path@ == path@,
                None => !self.has_path(path@),
            },
    {
        let mut i: usize = 0;
        while i < self.entries.len()
            invariant
                i <= self.entries@.len(),
                forall|j: int|
                    0 <= j < i && self.occupied(j) ==> #[trigger] self.entry_at(j).path@ != path@,
            decreases self.entries@.len() - i,
        {
            match &self.entries[i] {
                Some(e) => {
                    if bytes_eq(e.path.as_slice(), path) {
                        return Some(i);
                    }
                },
                None => {},
            }
            i = i + 1;
        }
        None
    }

    /// Checks whether the archive contains `path`.
    pub fn contains(&self, path: &[u8]) -> (r: bool)
        ensures
            r == self.has_path(path@),
    {
        self.find_index(path).is_some()
    }

    /// Returns the paths of all occupied entries, in slot order.
    pub fn paths(&self) -> (r: Vec<Vec<u8>>)
        requires
            self.wf(),
        ensures
            forall|k: int| 0 <= k < r@.len() ==> self.has_path(#[trigger] r@[k]@),
            forall|p: Seq<u8>| self.has_path(p) ==> exists|k: int| 0 <= k < r@.len() && #[trigger] r@[k]@ == p,
            forall|k1: int, k2: int| 0 <= k1 < k2 < r@.len() ==> r@[k1]@ != r@[k2]@,
    {
        let mut out: Vec<Vec<u8>> = Vec::new();
        let mut i: usize = 0;
        while i < self.entries.len()
            invariant
                self.wf(),
                i <= self.entries@.len(),
                forall|k: int| 0 <= k < out@.len() ==> self.has_path(#[trigger] out@[k]@),
                forall|j: int|
                    0 <= j < i && self.occupied(j) ==> exists|k: int|
                        0 <= k < out@.len() && #[trigger] out@[k]@ == self.entry_at(j).path@,
                forall|k: int| 0 <= k < out@.len() ==> exists|j: int|
                    0 <= j < i && self.occupied(j) && #[trigger] out@[k]@ == self.entry_at(j).path@,
                forall|k1: int, k2: int| 0 <= k1 < k2 < out@.len() ==> out@[k1]@ != out@[k2]@,
            decreases self.entries@.len() - i,
        {
            let ghost prev = out@;
            match &self.entries[i] {
                Some(e) => {
                    let p = clone_bytes(&e.path);
                    proof {
                        assert(self.occupied(i as int) && self.entry_at(i as int).path@ == p@);
                    }
                    out.push(p);
                },
                None => {},
            }
            i = i + 1;
            proof {
                assert forall|j: int| 0 <= j < i && self.occupied(j) implies exists|k: int|
                    0 <= k < out@.len() && #[trigger] out@[k]@ == self.entry_at(j).path@ by {
                    if j == i - 1 {
                        assert(out@[out@.len() - 1]@ == self.entry_at(j).path@);
                    } else {
                        let k = choose|k: int|
                            0 <= k < prev.len() && #[trigger] prev[k]@ == self.entry_at(j).path@;
                        assert(out@[k]@ == self.entry_at(j).path@);
                    }
                }
                assert forall|k: int| 0 <= k < out@.len() implies exists|j: int|
                    0 <= j < i && self.occupied(j) && #[trigger] out@[k]@ == self.entry_at(
                        j,
                    ).path@ by {
                    if k < prev.len() {
                        let j = choose|j: int|
                            0 <= j < i - 1 && self.occupied(j) && #[trigger] prev[k]@
                                == self.entry_at(j).path@;
                        assert(out@[k]@ == self.entry_at(j).path@);
                    } else {
                        assert(self.occupied(i - 1) && out@[k]@ == self.entry_at(i - 1).path@);
                    }
                }
            }
        }
        out
    }
}

/// Compares two byte strings for equality.
pub fn bytes_eq(a: &[u8], b: &[u8]) -> (r: bool)
    ensures
        r == (a@ == b@),
{
    if a.len() != b.len() {
        proof {
            assert(a@.len() != b@.len());
        }
        return false;
    }
    let mut i: usize = 0;
    while i < a.len()
        invariant
            i <= a@.len(),
            a@.len() == b@.len(),
            forall|j: int| 0 <= j < i ==> a@[j] == b@[j],
        decreases a@.len() - i,
    {
        if a[i] != b[i] {
            return false;
        }
        i = i + 1;
    }
    proof {
        assert(a@ =~= b@);
    }
    true
}

/// Copies a byte buffer.
pub fn clone_bytes(v: &Vec<u8>) -> (r: Vec<u8>)
    ensures
        r@ == v@,
{
    let mut out: Vec<u8> = Vec::new();
    let mut i: usize = 0;
    while i < v.len()
        invariant
            i <= v@.len(),
            out@ == v@.take(i as int),
        decreases v@.len() - i,
    {
        out.push(v[i]);
        i = i + 1;
        proof {
            assert(out@ =~= v@.take(i as int));
        }
    }
    proof {
        assert(v@.take(v@.len() as int) =~= v@);
    }
    out
}

/// In a well-formed state, the slot of a path is unique, so `index_of`
/// returns the slot an entry actually occupies.
pub proof fn lemma_index_of(s: &PkgState, i: int)
    requires
        s.wf(),
        s.occupied(i),
    ensures
        s.index_of(s.entry_at(i).path@) == i,
{
    let p = s.entry_at(i).path@;
    assert(s.occupied(i) && s.entry_at(i).path@ == p);
    let w = s.index_of(p);
    assert(s.occupied(w) && s.entry_at(w).path@ == p);
}

/// An all-zero record has a zero data-offset field.
pub proof fn lemma_zero_record_mid(b: Seq<u8>, base: int)
    requires
        0 <= base,
        base + 20 <= b.len(),
        b.subrange(base, base + 20) == zero_record(),
    ensures
        b.subrange(base + 8, base + 12) == crate::codec::be32_bytes(0),
{
    assert(b.subrange(base + 8, base + 12) =~= crate::codec::be32_bytes(0)) by {
        assert(b[base + 8] == zero_record()[8]);
        assert(b[base + 9] == zero_record()[9]);
        assert(b[base + 10] == zero_record()[10]);
        assert(b[base + 11] == zero_record()[11]);
    }
}

/// Two byte sequences that agree pointwise on a range have equal subranges
/// there.
pub proof fn lemma_subrange_frame(b0: Seq<u8>, b1: Seq<u8>, lo: int, hi: int)
    requires
        0 <= lo <= hi <= b0.len(),
        hi <= b1.len(),
        forall|i: int| lo <= i < hi ==> b1[i] == b0[i],
    ensures
        b1.subrange(lo, hi) == b0.subrange(lo, hi),
{
    assert(b1.subrange(lo, hi) =~= b0.subrange(lo, hi));
}

/// The record range of slot `i` lies within the entry table.
pub proof fn lemma_record_range(n: int, i: int)
    requires
        0 <= i < n,
    ensures
        16 + 20 * i + 20 <= 16 + 20 * n,
{
    assert(20 * i + 20 <= 20 * n) by (nonlinear_arith)
        requires
            0 <= i < n,
    ;
}

/// A state still describes a buffer whose metadata bytes (everything below
/// the data region) are unchanged and whose length has not shrunk.
pub proof fn lemma_encodes_frame(s: &PkgState, b0: Seq<u8>, b1: Seq<u8>)
    requires
        s.encodes(b0),
        b0.len() <= b1.len() <= 0xFFFF_FFFF,
        forall|i: int| 0 <= i < s.spec_data_region_offset() ==> b1[i] == b0[i],
    ensures
        s.encodes(b1),
{
    let n = s.entries@.len() as int;
    let pro = s.spec_path_region_offset();
    let dro = s.spec_data_region_offset();
    lemma_subrange_frame(b0, b1, 0, 4);
    assert forall|i: int| 0 <= i < n implies #[trigger] s.record_encoded(b1, i) by {
        lemma_record_range(n, i);
        lemma_subrange_frame(b0, b1, 16 + 20 * i, 16 + 20 * i + 20);
        lemma_subrange_frame(b0, b1, 16 + 20 * i + 8, 16 + 20 * i + 12);
        assert(s.record_encoded(b0, i));
    }
    assert forall|i: int| s.occupied(i) implies #[trigger] s.path_region_encoded(b1, i) by {
        let e = s.entry_at(i);
        let start = pro + e.relative_path_offset;
        assert(s.entry_wf(i));
        assert(s.path_region_encoded(b0, i));
        lemma_subrange_frame(b0, b1, start, start + e.path@.len());
    }
    assert forall|i: int| s.occupied(i) implies #[trigger] s.data_range_ok(b1.len() as int, i) by {
        assert(s.data_range_ok(b0.len() as int, i));
    }
}

/// The data-offset field of an occupied record reads back as the entry's
/// offset.
pub proof fn lemma_record_offset_field(b: Seq<u8>, base: int, e: Entry)
    requires
        0 <= base,
        base + 20 <= b.len(),
        b.subrange(base, base + 20) == e.record_bytes(),
    ensures
        crate::codec::be32_at(b, base + 8) == e.data_offset,
{
    lemma_record_pieces(e);
    assert(b.subrange(base + 8, base + 12) =~= crate::codec::be32_bytes(e.data_offset)) by {
        assert forall|q: int| 0 <= q < 4 implies b.subrange(base + 8, base + 12)[q]
            == crate::codec::be32_bytes(e.data_offset)[q] by {
            assert(b.subrange(base, base + 20)[q + 8] == e.record_bytes()[q + 8]);
            assert(e.record_bytes().subrange(8, 12)[q] == e.record_bytes()[q + 8]);
        }
    }
    crate::codec::lemma_be32_at_bytes(b, base + 8, e.data_offset);
}

/// Two occupied entries with the same record bytes have the same fields.
pub proof fn lemma_record_fields_determined(
    b: Seq<u8>,
    base: int,
    e1: Entry,
    e2: Entry,
)
    requires
        0 <= base,
        base + 20 <= b.len(),
        b.subrange(base, base + 20) == e1.record_bytes(),
        b.subrange(base, base + 20) == e2.record_bytes(),
        e1.relative_path_offset < 0x0100_0000,
        e2.relative_path_offset < 0x0100_0000,
    ensures
        e1.path_hash == e2.path_hash,
        e1.relative_path_offset == e2.relative_path_offset,
        e1.data_offset == e2.data_offset,
        e1.data_size == e2.data_size,
        e1.unpacked_size == e2.unpacked_size,
        e1.deflated == e2.deflated,
{
    assert(e1.record_bytes() == e2.record_bytes());
    lemma_record_pieces(e1);
    lemma_record_pieces(e2);
    lemma_be32_bytes_fields(e1.path_hash, e2.path_hash, e1.record_bytes(), e2.record_bytes(), 0);
    lemma_be32_bytes_fields(
        e1.packed_field(),
        e2.packed_field(),
        e1.record_bytes(),
        e2.record_bytes(),
        4,
    );
    lemma_be32_bytes_fields(
        e1.data_offset,
        e2.data_offset,
        e1.record_bytes(),
        e2.record_bytes(),
        8,
    );
    lemma_be32_bytes_fields(e1.data_size, e2.data_size, e1.record_bytes(), e2.record_bytes(), 12);
    lemma_be32_bytes_fields(
        e1.unpacked_size,
        e2.unpacked_size,
        e1.record_bytes(),
        e2.record_bytes(),
        16,
    );
    let p1 = e1.packed_field();
    let p2 = e2.packed_field();
    let r1 = e1.relative_path_offset;
    let r2 = e2.relative_path_offset;
    let d1: u32 = if e1.deflated {
        1
    } else {
        0
    };
    let d2: u32 = if e2.deflated {
        1
    } else {
        0
    };
    assert(p1 == r1 + d1 * 0x0100_0000 && p2 == r2 + d2 * 0x0100_0000);
    assert((p1 == r1 + d1 * 0x0100_0000 && p2 == r2 + d2 * 0x0100_0000 && r1 < 0x0100_0000 && r2
        < 0x0100_0000 && d1 <= 1 && d2 <= 1 && p1 == p2) ==> (r1 == r2 && d1 == d2))
        by (nonlinear_arith);
}

/// The five field slices of a record are the five fields' bytes.
pub proof fn lemma_record_pieces(e: Entry)
    ensures
        e.record_bytes().len() == 20,
        e.record_bytes().subrange(0, 4) == crate::codec::be32_bytes(e.path_hash),
        e.record_bytes().subrange(4, 8) == crate::codec::be32_bytes(e.packed_field()),
        e.record_bytes().subrange(8, 12) == crate::codec::be32_bytes(e.data_offset),
        e.record_bytes().subrange(12, 16) == crate::codec::be32_bytes(e.data_size),
        e.record_bytes().subrange(16, 20) == crate::codec::be32_bytes(e.unpacked_size),
{
    assert(e.record_bytes().subrange(0, 4) =~= crate::codec::be32_bytes(e.path_hash));
    assert(e.record_bytes().subrange(4, 8) =~= crate::codec::be32_bytes(e.packed_field()));
    assert(e.record_bytes().subrange(8, 12) =~= crate::codec::be32_bytes(e.data_offset));
    assert(e.record_bytes().subrange(12, 16) =~= crate::codec::be32_bytes(e.data_size));
    assert(e.record_bytes().subrange(16, 20) =~= crate::codec::be32_bytes(e.unpacked_size));
}

/// The big-endian field bytes at one record position pin the field value.
pub proof fn lemma_be32_bytes_fields(v1: u32, v2: u32, r1: Seq<u8>, r2: Seq<u8>, off: int)
    requires
        r1 == r2,
        r1.len() == 20,
        0 <= off <= 16,
        r1.subrange(off, off + 4) == crate::codec::be32_bytes(v1),
        r2.subrange(off, off + 4) == crate::codec::be32_bytes(v2),
    ensures
        v1 == v2,
{
    crate::codec::lemma_be32_at_bytes(r1, off, v1);
    crate::codec::lemma_be32_at_bytes(r2, off, v2);
}

/// A NUL-terminated path at one offset is determined by the bytes: two
/// NUL-free byte strings that both sit NUL-terminated at the same start are
/// equal.
pub proof fn lemma_path_determined(b: Seq<u8>, start: int, p1: Seq<u8>, p2: Seq<u8>)
    requires
        0 <= start,
        start + p1.len() < b.len(),
        start + p2.len() < b.len(),
        b.subrange(start, start + p1.len()) == p1,
        b.subrange(start, start + p2.len()) == p2,
        b[start + p1.len()] == 0,
        b[start + p2.len()] == 0,
        path_bytes_ok(p1),
        path_bytes_ok(p2),
    ensures
        p1 == p2,
{
    if p1.len() < p2.len() {
        assert(p2[p1.len() as int] == b[start + p1.len()]) by {
            assert(b.subrange(start, start + p2.len())[p1.len() as int] == b[start + p1.len()]);
        }
        assert(false);
    } else if p2.len() < p1.len() {
        assert(p1[p2.len() as int] == b[start + p2.len()]) by {
            assert(b.subrange(start, start + p1.len())[p2.len() as int] == b[start + p2.len()]);
        }
        assert(false);
    } else {
        assert(p1 =~= p2);
    }
}


/// Every field of an occupied record reads back from its bytes.
pub proof fn lemma_record_reads(b: Seq<u8>, base: int, e: Entry)
    requires
        0 <= base,
        base + 20 <= b.len(),
        b.subrange(base, base + 20) == e.record_bytes(),
    ensures
        crate::codec::be32_at(b, base) == e.path_hash,
        crate::codec::be32_at(b, base + 4) == e.packed_field(),
        crate::codec::be32_at(b, base + 8) == e.data_offset,
        crate::codec::be32_at(b, base + 12) == e.data_size,
        crate::codec::be32_at(b, base + 16) == e.unpacked_size,
{
    lemma_record_pieces(e);
    lemma_record_field_at(b, base, 0, e.path_hash, e);
    lemma_record_field_at(b, base, 4, e.packed_field(), e);
    lemma_record_field_at(b, base, 8, e.data_offset, e);
    lemma_record_field_at(b, base, 12, e.data_size, e);
    lemma_record_field_at(b, base, 16, e.unpacked_size, e);
}

/// One field slice of a record reads back as its value.
proof fn lemma_record_field_at(b: Seq<u8>, base: int, off: int, v: u32, e: Entry)
    requires
        0 <= base,
        0 <= off <= 16,
        base + 20 <= b.len(),
        b.subrange(base, base + 20) == e.record_bytes(),
        e.record_bytes().subrange(off, off + 4) == crate::codec::be32_bytes(v),
    ensures
        crate::codec::be32_at(b, base + off) == v,
{
    assert(b.subrange(base + off, base + off + 4) =~= crate::codec::be32_bytes(v)) by {
        assert forall|q: int| 0 <= q < 4 implies b.subrange(base + off, base + off + 4)[q]
            == crate::codec::be32_bytes(v)[q] by {
            assert(b.subrange(base, base + 20)[off + q] == e.record_bytes()[off + q]);
            assert(e.record_bytes().subrange(off, off + 4)[q] == e.record_bytes()[off + q]);
        }
    }
    crate::codec::lemma_be32_at_bytes(b, base + off, v);
}

} // verus!
