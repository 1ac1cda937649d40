//! Reconstructing the in-memory index from archive bytes.

use vstd::prelude::*;

use crate::codec::{be32_bytes, magic_seq};
use crate::errors::ParseError;
use crate::state::{path_bytes_ok, Entry, PkgState};
use crate::storage::{MemStorage, ReadExt};

verus! {

/// Checks that the stream starts with the magic bytes `PKG\n`.
pub fn check_magic(storage: &MemStorage) -> (r: bool)
    ensures
        r == (storage@.len() >= 4 && storage@.subrange(0, 4) == magic_seq()),
{
    if storage.len() < 4 {
        return false;
    }
    let ok = storage.byte_at(0) == 0x50 && storage.byte_at(1) == 0x4B && storage.byte_at(2) == 0x47
        && storage.byte_at(3) == 0x0A;
    proof {
        if ok {
            assert(storage@.subrange(0, 4) =~= magic_seq());
        } else {
            assert(storage@.subrange(0, 4) != magic_seq()) by {
                if storage@.subrange(0, 4) == magic_seq() {
                    assert(storage@[0] == magic_seq()[0]);
                    assert(storage@[1] == magic_seq()[1]);
                    assert(storage@[2] == magic_seq()[2]);
                    assert(storage@[3] == magic_seq()[3]);
                }
            }
        }
    }
    ok
}

/// The four big-endian bytes of a read-back value are the bytes read.
proof fn lemma_be32_inverse(b: Seq<u8>, off: int)
    requires
        0 <= off,
        off + 4 <= b.len(),
    ensures
        0 <= crate::codec::be32_at(b, off) <= 0xFFFF_FFFF,
        b.subrange(off, off + 4) == be32_bytes(crate::codec::be32_at(b, off) as u32),
{
    let b0 = b[off];
    let b1 = b[off + 1];
    let b2 = b[off + 2];
    let b3 = b[off + 3];
    let v = (crate::codec::be32_at(b, off)) as u32;
    assert((b0 as u32) * 0x100_0000 + (b1 as u32) * 0x1_0000 + (b2 as u32) * 0x100 + (b3 as u32)
        == v ==> v / 0x100_0000 == b0 && (v / 0x1_0000) % 0x100 == b1 && (v / 0x100) % 0x100 == b2
        && v % 0x100 == b3) by (bit_vector);
    assert(b.subrange(off, off + 4) =~= be32_bytes(v));
}

/// Reconstructing the packed field from its decoded parts gives it back.
proof fn lemma_packed_split(packed: u32)
    ensures
        packed % 0x0100_0000 + (packed / 0x0100_0000) * 0x0100_0000 == packed,
        packed % 0x0100_0000 < 0x0100_0000,
{
    assert(packed % 0x0100_0000 + (packed / 0x0100_0000) * 0x0100_0000 == packed && packed
        % 0x0100_0000 < 0x0100_0000) by (bit_vector);
}

/// What the record bytes of slot `i` force on any state that encodes `b`.
#[verifier::rlimit(100)]
proof fn lemma_slot_reads(s: &PkgState, b: Seq<u8>, i: int)
    requires
        s.encodes(b),
        0 <= i < s.entries@.len(),
    ensures
        s.entries@[i] is Some ==> ({
            let e = s.entry_at(i);
            &&& crate::codec::be32_at(b, 16 + 20 * i) == e.path_hash
            &&& crate::codec::be32_at(b, 16 + 20 * i + 4) == e.packed_field()
            &&& crate::codec::be32_at(b, 16 + 20 * i + 8) == e.data_offset
            &&& crate::codec::be32_at(b, 16 + 20 * i + 12) == e.data_size
            &&& crate::codec::be32_at(b, 16 + 20 * i + 16) == e.unpacked_size
            &&& e.relative_path_offset < 0x0100_0000
            &&& e.data_offset != 0
        }),
        s.entries@[i] is None ==> crate::codec::be32_at(b, 16 + 20 * i + 8) == 0,
{
    crate::state::lemma_record_range(s.entries@.len() as int, i);
    assert(s.record_encoded(b, i));
    if s.entries@[i] is Some {
        assert(s.occupied(i));
        assert(s.entry_wf(i));
        crate::state::lemma_record_reads(b, 16 + 20 * i, s.entry_at(i));
    } else {
        crate::codec::lemma_be32_at_bytes(b, 16 + 20 * i + 8, 0u32);
    }
}

/// A nonzero data-offset field forces any encoding state to hold an entry in
/// that slot, with exactly the record's fields.
#[verifier::rlimit(100)]
proof fn lemma_occupied_slot(s: &PkgState, b: Seq<u8>, i: int)
    requires
        s.encodes(b),
        0 <= i < crate::codec::be32_at(b, 8),
        crate::codec::be32_at(b, 16 + 20 * i + 8) != 0,
    ensures
        s.occupied(i),
        s.entry_at(i).data_offset == crate::codec::be32_at(b, 16 + 20 * i + 8),
        s.entry_at(i).data_size == crate::codec::be32_at(b, 16 + 20 * i + 12),
        s.entry_at(i).relative_path_offset == (crate::codec::be32_at(b, 16 + 20 * i + 4) as u32)
            % 0x0100_0000,
        ((crate::codec::be32_at(b, 16 + 20 * i + 4) as u32) / 0x0100_0000) * 0x0100_0000 == (
        if s.entry_at(i).deflated {
            0x0100_0000u32
        } else {
            0u32
        }),
    decreases 0int,
{
    assert(crate::codec::be32_at(b, 8) == s.entries@.len());
    lemma_slot_reads(s, b, i);
    assert(s.entries@[i] is Some);
    let e = s.entry_at(i);
    let packed = e.packed_field();
    let dd: u32 = if e.deflated {
        1
    } else {
        0
    };
    assert(packed == e.relative_path_offset + dd * 0x0100_0000);
    lemma_packed_decode(packed, e.relative_path_offset, dd);
}

/// Splitting a packed field recovers its path offset and flag bits.
proof fn lemma_packed_decode(packed: u32, rel: u32, dd: u32)
    requires
        packed == rel + dd * 0x0100_0000,
        rel < 0x0100_0000,
        dd <= 1,
    ensures
        packed % 0x0100_0000 == rel,
        (packed / 0x0100_0000) * 0x0100_0000 == dd * 0x0100_0000,
{
    assert((packed == rel + dd * 0x0100_0000 && rel < 0x0100_0000 && dd <= 1) ==> (packed
        % 0x0100_0000 == rel && (packed / 0x0100_0000) * 0x0100_0000 == dd * 0x0100_0000))
        by (bit_vector);
}

impl PkgState {
    /// Parses an archive from `storage`. On success the returned index
    /// describes the bytes exactly ([`PkgState::encodes`]); an error is
    /// reported only when no index at all can describe them, so parsing is
    /// total on everything this crate writes.
    ///
    /// The reported errors follow the order of the checks: the magic, the
    /// two header size fields, the entry table and path region against the
    /// stream length, then per occupied record the flag bits, the data range
    /// (`EntryOverflow`), the path offset and its NUL terminator
    /// (`PathOverflow`), ASCII cleanliness, and duplicate paths. Records
    /// with a zero data offset are empty slots; their other fields are
    /// ignored.
    #[verifier::rlimit(100)]
    pub fn parse(storage: &MemStorage) -> (r: Result<PkgState, ParseError>)
        requires
            storage@.len() <= 0xFFFF_FFFF,
        ensures
            match r {
                Ok(s) => s.encodes(storage@),
                Err(e) => {
                    &&& !(exists|s: PkgState| s.encodes(storage@))
                    &&& match e {
                        ParseError::MismatchedMagic => !(storage@.len() >= 4 && storage@.subrange(
                            0,
                            4,
                        ) == magic_seq()),
                        ParseError::MismatchedHeaderSize { size } => size != 16,
                        ParseError::MismatchedEntrySize { size } => size != 20,
                        ParseError::UnrecognisedEntryFlags(bits) => bits != 0 && bits
                            != 0x0100_0000,
                        _ => true,
                    }
                },
            },
    {
        let ghost b = storage@;
        if !check_magic(storage) {
            proof {
                assert forall|s: PkgState| !(#[trigger] s.encodes(b)) by {
                    if s.encodes(b) {
                        assert(b.subrange(0, 4) == magic_seq());
                        assert(b.len() >= s.spec_data_region_offset() >= 16);
                    }
                }
            }
            return Err(ParseError::MismatchedMagic);
        }
        let len = storage.len();
        if len < 16 {
            proof {
                assert forall|s: PkgState| !(#[trigger] s.encodes(b)) by {
                    if s.encodes(b) {
                        assert(b.len() >= s.spec_data_region_offset() >= 16);
                    }
                }
            }
            return Err(ParseError::EntryOverflow);
        }
        let header_size = storage.read_u16_be(4);
        if header_size != 16 {
            proof {
                assert forall|s: PkgState| !(#[trigger] s.encodes(b)) by {
                    if s.encodes(b) {
                        assert(crate::codec::be16_at(b, 4) == 16);
                    }
                }
            }
            return Err(ParseError::MismatchedHeaderSize { size: header_size });
        }
        let entry_size = storage.read_u16_be(6);
        if entry_size != 20 {
            proof {
                assert forall|s: PkgState| !(#[trigger] s.encodes(b)) by {
                    if s.encodes(b) {
                        assert(crate::codec::be16_at(b, 6) == 20);
                    }
                }
            }
            return Err(ParseError::MismatchedEntrySize { size: entry_size });
        }
        let entry_count = storage.read_u32_be(8) as usize;
        if 16 + 20 * (entry_count as u64) > len as u64 {
            proof {
                assert forall|s: PkgState| !(#[trigger] s.encodes(b)) by {
                    if s.encodes(b) {
                        assert(crate::codec::be32_at(b, 8) == s.entries@.len());
                        assert(16 + 20 * (s.entries@.len() as int) <= s.spec_data_region_offset()
                            <= b.len());
                    }
                }
            }
            return Err(ParseError::EntryOverflow);
        }
        let prs = storage.read_u32_be(12);
        if 16 + 20 * (entry_count as u64) + prs as u64 > len as u64 {
            proof {
                assert forall|s: PkgState| !(#[trigger] s.encodes(b)) by {
                    if s.encodes(b) {
                        assert(crate::codec::be32_at(b, 8) == s.entries@.len());
                        assert(crate::codec::be32_at(b, 12) == s.path_region_size);
                        assert(s.spec_data_region_offset() <= b.len());
                    }
                }
            }
            return Err(ParseError::PathOverflow);
        }
        if prs > 0xFF_FFFF {
            proof {
                assert forall|s: PkgState| !(#[trigger] s.encodes(b)) by {
                    if s.encodes(b) {
                        assert(crate::codec::be32_at(b, 12) == s.path_region_size);
                        assert(s.path_region_size <= 0xFF_FFFF);
                    }
                }
            }
            return Err(ParseError::PathOverflow);
        }
        let pro: usize = 16 + 20 * entry_count;
        let dro: usize = pro + prs as usize;

        let mut entries: Vec<Option<Entry>> = Vec::new();
        let mut i: usize = 0;
        while i < entry_count
            invariant
                i <= entry_count,
                entries@.len() == i,
                storage@ == b,
                storage@.len() == len <= 0xFFFF_FFFF,
                16 + 20 * (entry_count as int) + prs <= len,
                prs <= 0xFF_FFFF,
                pro == 16 + 20 * (entry_count as int),
                dro == pro + prs,
                crate::codec::be32_at(b, 8) == entry_count,
                crate::codec::be32_at(b, 12) == prs,
                forall|j: int|
                    0 <= j < i && entries@[j] is Some ==> {
                        let e = (#[trigger] entries@[j])->Some_0;
                        &&& storage@.subrange(16 + 20 * j, 16 + 20 * j + 20) == e.record_bytes()
                        &&& e.data_offset != 0
                        &&& dro <= e.data_offset
                        &&& e.data_offset + e.data_size <= len
                        &&& e.relative_path_offset + e.path@.len() + 1 <= prs
                        &&& path_bytes_ok(e.path@)
                        &&& storage@.subrange(
                            pro + e.relative_path_offset,
                            pro + e.relative_path_offset + e.path@.len(),
                        ) == e.path@
                        &&& storage@[pro + e.relative_path_offset + e.path@.len()] == 0
                    },
                forall|j: int|
                    0 <= j < i && entries@[j] is None ==> crate::codec::be32_at(
                        storage@,
                        16 + 20 * j + 8,
                    ) == 0,
                forall|j1: int, j2: int|
                    #![trigger entries@[j1], entries@[j2]]
                    0 <= j1 < j2 < i && entries@[j1] is Some && entries@[j2] is Some
                        ==> entries@[j1]->Some_0.path@ != entries@[j2]->Some_0.path@,
            decreases entry_count - i,
        {
            proof {
                crate::state::lemma_record_range(entry_count as int, i as int);
            }
            let base: usize = 16 + 20 * i;
            let path_hash = storage.read_u32_be(base);
            let packed = storage.read_u32_be(base + 4);
            let data_offset = storage.read_u32_be(base + 8);
            let data_size = storage.read_u32_be(base + 12);
            let unpacked_size = storage.read_u32_be(base + 16);
            let rel = packed % 0x0100_0000;
            let flag_bits = (packed / 0x0100_0000) * 0x0100_0000;
            if data_offset == 0 {
                entries.push(None);
            } else {
                if flag_bits != 0 && flag_bits != 0x0100_0000 {
                    proof {
                        assert forall|s: PkgState| !(#[trigger] s.encodes(b)) by {
                            if s.encodes(b) {
                                lemma_occupied_slot(&s, b, i as int);
                                assert((crate::codec::be32_at(b, 16 + 20 * (i as int) + 4) as u32)
                                    == packed);
                                assert(flag_bits == 0 || flag_bits == 0x0100_0000);
                            }
                        }
                    }
                    return Err(ParseError::UnrecognisedEntryFlags(flag_bits));
                }
                if (data_offset as usize) < dro || data_offset as u64 + data_size as u64
                    > len as u64 {
                    proof {
                        assert forall|s: PkgState| !(#[trigger] s.encodes(b)) by {
                            if s.encodes(b) {
                                lemma_occupied_slot(&s, b, i as int);
                                assert(s.occupied(i as int));
                                assert(s.data_range_ok(b.len() as int, i as int));
                                assert(s.entries@.len() == entry_count);
                                assert(s.path_region_size == prs);
                                assert(s.spec_data_region_offset() == dro);
                            }
                        }
                    }
                    return Err(ParseError::EntryOverflow);
                }
                if rel >= prs {
                    proof {
                        assert forall|s: PkgState| !(#[trigger] s.encodes(b)) by {
                            if s.encodes(b) {
                                lemma_occupied_slot(&s, b, i as int);
                                assert(s.occupied(i as int));
                                assert(s.entry_wf(i as int));
                                assert(s.path_region_size == prs);
                                assert(s.entry_at(i as int).relative_path_offset == rel);
                            }
                        }
                    }
                    return Err(ParseError::PathOverflow);
                }
                // read the NUL-terminated path
                let mut path: Vec<u8> = Vec::new();
                let mut j: usize = rel as usize;
                let mut terminated = false;
                while j < prs as usize && !terminated
                    invariant
                        rel < prs,
                        rel as usize <= j <= prs,
                        storage@ == b,
                        storage@.len() == len,
                        dro == pro + prs,
                        dro <= len <= 0xFFFF_FFFF,
                        pro == 16 + 20 * (entry_count as int),
                        i < entry_count,
                        crate::codec::be32_at(b, 8) == entry_count,
                        crate::codec::be32_at(b, 12) == prs,
                        crate::codec::be32_at(b, 16 + 20 * (i as int) + 8) != 0,
                        (crate::codec::be32_at(b, 16 + 20 * (i as int) + 4) as u32) % 0x0100_0000
                            == rel,
                        path@.len() == (if terminated {
                            j - 1 - rel
                        } else {
                            j - rel
                        }),
                        path@ == storage@.subrange(pro + rel, pro + rel + path@.len()),
                        path_bytes_ok(path@),
                        terminated ==> (j <= prs && storage@[pro + rel + path@.len()] == 0),
                    decreases prs - j + (if terminated {
                        0int
                    } else {
                        1int
                    }),
                {
                    let byte = storage.byte_at(pro + j);
                    if byte == 0 {
                        terminated = true;
                    } else if byte > 0x7F {
                        proof {
                            assert forall|s: PkgState| !(#[trigger] s.encodes(b)) by {
                                if s.encodes(b) {
                                    lemma_occupied_slot(&s, b, i as int);
                                    assert(crate::codec::be32_at(b, 12) == s.path_region_size);
                                    lemma_scanned_byte_ascii(
                                        &s,
                                        b,
                                        i as int,
                                        rel as int,
                                        j as int,
                                        path@,
                                    );
                                }
                            }
                        }
                        return Err(ParseError::NonAsciiPath);
                    } else {
                        path.push(byte);
                        proof {
                            assert(path@ =~= storage@.subrange(
                                pro + rel,
                                pro + rel + path@.len(),
                            ));
                        }
                    }
                    j = j + 1;
                }
                if !terminated {
                    proof {
                        assert forall|s: PkgState| !(#[trigger] s.encodes(b)) by {
                            if s.encodes(b) {
                                lemma_occupied_slot(&s, b, i as int);
                                assert(crate::codec::be32_at(b, 12) == s.path_region_size);
                                lemma_terminator_exists(&s, b, i as int, rel as int);
                                assert(path@ =~= b.subrange(
                                    s.spec_path_region_offset() + rel,
                                    s.spec_path_region_offset() + s.path_region_size,
                                ));
                            }
                        }
                    }
                    return Err(ParseError::PathOverflow);
                }
                // reject duplicate paths
                let mut k: usize = 0;
                while k < i
                    invariant
                        k <= i,
                        i < entry_count,
                        i == entries@.len(),
                        storage@ == b,
                        storage@.len() == len <= 0xFFFF_FFFF,
                        16 + 20 * (entry_count as int) + prs <= len,
                        prs <= 0xFF_FFFF,
                        pro == 16 + 20 * (entry_count as int),
                        dro == pro + prs,
                        crate::codec::be32_at(b, 8) == entry_count,
                        crate::codec::be32_at(b, 12) == prs,
                        crate::codec::be32_at(b, 16 + 20 * (i as int) + 8) != 0,
                        (crate::codec::be32_at(b, 16 + 20 * (i as int) + 4) as u32) % 0x0100_0000
                            == rel,
                        rel < prs,
                        rel + path@.len() + 1 <= prs,
                        path_bytes_ok(path@),
                        path@ == b.subrange(pro + rel, pro + rel + path@.len()),
                        b[pro + rel + path@.len()] == 0,
                        forall|j2: int|
                            0 <= j2 < i && entries@[j2] is Some ==> {
                                let e = (#[trigger] entries@[j2])->Some_0;
                                &&& b.subrange(16 + 20 * j2, 16 + 20 * j2 + 20)
                                    == e.record_bytes()
                                &&& e.data_offset != 0
                                &&& e.relative_path_offset + e.path@.len() + 1 <= prs
                                &&& path_bytes_ok(e.path@)
                                &&& b.subrange(
                                    pro + e.relative_path_offset,
                                    pro + e.relative_path_offset + e.path@.len(),
                                ) == e.path@
                                &&& b[pro + e.relative_path_offset + e.path@.len()] == 0
                            },
                        forall|j2: int|
                            0 <= j2 < k && entries@[j2] is Some ==> (
                            #[trigger] entries@[j2])->Some_0.path@ != path@,
                    decreases i - k,
                {
                    let is_dup = match &entries[k] {
                        Some(e) => crate::state::bytes_eq(e.path.as_slice(), path.as_slice()),
                        None => false,
                    };
                    if is_dup {
                        proof {
                            let ghost prior = entries@[k as int]->Some_0;
                            assert forall|s: PkgState| !(#[trigger] s.encodes(b)) by {
                                if s.encodes(b) {
                                    lemma_occupied_slot(&s, b, i as int);
                                    assert(crate::codec::be32_at(b, 12) == s.path_region_size);
                                    lemma_paths_stay_distinct(
                                        &s,
                                        b,
                                        k as int,
                                        i as int,
                                        prior,
                                        rel as int,
                                        path@,
                                    );
                                }
                            }
                        }
                        return Err(ParseError::SamePath(path));
                    }
                    k = k + 1;
                }
                let e = Entry {
                    path_hash,
                    relative_path_offset: rel,
                    path,
                    data_offset,
                    data_size,
                    unpacked_size,
                    deflated: flag_bits == 0x0100_0000,
                };
                proof {
                    lemma_be32_inverse(storage@, base as int);
                    lemma_be32_inverse(storage@, base + 4);
                    lemma_be32_inverse(storage@, base + 8);
                    lemma_be32_inverse(storage@, base + 12);
                    lemma_be32_inverse(storage@, base + 16);
                    lemma_packed_split(packed);
                    assert(e.packed_field() == packed);
                    assert(storage@.subrange(base as int, base + 20) =~= e.record_bytes()) by {
                        assert forall|q: int|
                            0 <= q < 20 implies storage@.subrange(base as int, base + 20)[q]
                            == e.record_bytes()[q] by {
                            if q < 4 {
                                assert(storage@.subrange(base as int, base + 4)[q]
                                    == be32_bytes(path_hash)[q]);
                            } else if q < 8 {
                                assert(storage@.subrange(base + 4, base + 8)[q - 4]
                                    == be32_bytes(packed)[q - 4]);
                            } else if q < 12 {
                                assert(storage@.subrange(base + 8, base + 12)[q - 8]
                                    == be32_bytes(data_offset)[q - 8]);
                            } else if q < 16 {
                                assert(storage@.subrange(base + 12, base + 16)[q - 12]
                                    == be32_bytes(data_size)[q - 12]);
                            } else {
                                assert(storage@.subrange(base + 16, base + 20)[q - 16]
                                    == be32_bytes(unpacked_size)[q - 16]);
                            }
                        }
                    }
                }
                entries.push(Some(e));
            }
            i = i + 1;
        }

        // derive the first unused path byte from the trailing zero bytes
        let mut t: usize = 0;
        while t < prs as usize && storage.byte_at(dro - 1 - t) == 0
            invariant
                t <= prs,
                dro == pro + prs,
                dro <= storage@.len(),
                pro == 16 + 20 * (entry_count as int),
            decreases prs - t,
        {
            t = t + 1;
        }
        let mut empty: u32 = if t == 0 {
            prs
        } else {
            prs - (t as u32) + 1
        };
        // never place the free mark below a stored path
        let mut k: usize = 0;
        while k < entries.len()
            invariant
                k <= entries@.len(),
                empty <= prs,
                prs <= 0xFF_FFFF,
                forall|j: int|
                    0 <= j < k && entries@[j] is Some ==> ((#[trigger] entries@[
                    j])->Some_0).relative_path_offset + entries@[j]->Some_0.path@.len() + 1
                        <= empty,
                forall|j: int|
                    0 <= j < entries@.len() && entries@[j] is Some ==> ((#[trigger] entries@[
                    j])->Some_0).relative_path_offset + entries@[j]->Some_0.path@.len() + 1 <= prs,
            decreases entries@.len() - k,
        {
            let need: u32 = match &entries[k] {
                Some(e) => e.relative_path_offset + (e.path.len() as u32) + 1,
                None => 0,
            };
            if need > empty {
                empty = need;
            }
            k = k + 1;
        }

        let state = PkgState { path_region_size: prs, path_region_empty_offset: empty, entries };
        proof {
            crate::codec::lemma_be16_at_frame(storage@, storage@, 4);
            assert(state.wf()) by {
                assert forall|j: int| state.occupied(j) implies #[trigger] state.entry_wf(j) by {}
                assert forall|i2: int, j2: int|
                    state.occupied(i2) && state.occupied(j2) && i2 != j2 implies state.entry_at(
                    i2,
                ).path@ != state.entry_at(j2).path@ by {
                    if i2 < j2 {
                        assert(state.entries@[i2] is Some && state.entries@[j2] is Some);
                    } else {
                        assert(state.entries@[j2] is Some && state.entries@[i2] is Some);
                    }
                }
            }
            assert(state.header_encoded(storage@));
            assert forall|j: int| 0 <= j < state.entries@.len() implies
                #[trigger] state.record_encoded(storage@, j) by {
                if state.entries@[j] is None {
                    crate::state::lemma_record_range(entry_count as int, j);
                    lemma_be32_inverse(storage@, 16 + 20 * j + 8);
                }
            }
            assert forall|j: int| state.occupied(j) implies #[trigger] state.path_region_encoded(
                storage@,
                j,
            ) by {}
            assert forall|j: int| state.occupied(j) implies #[trigger] state.data_range_ok(
                storage@.len() as int,
                j,
            ) by {}
            assert(state.encodes(storage@));
        }
        Ok(state)
    }
}

/// Behind a recorded path offset, every byte up to and including the first
/// NUL is ASCII: what the scan is about to read cannot exceed the range.
#[verifier::rlimit(100)]
proof fn lemma_scanned_byte_ascii(
    s: &PkgState,
    b: Seq<u8>,
    i: int,
    rel: int,
    j: int,
    path_so_far: Seq<u8>,
)
    requires
        s.encodes(b),
        crate::codec::be32_at(b, 8) == s.entries@.len(),
        0 <= i < s.entries@.len(),
        s.occupied(i),
        s.entry_at(i).relative_path_offset == rel,
        rel <= j,
        path_so_far.len() == j - rel,
        j + s.spec_path_region_offset() < b.len(),
        path_so_far == b.subrange(
            s.spec_path_region_offset() + rel,
            s.spec_path_region_offset() + j,
        ),
        path_bytes_ok(path_so_far),
    ensures
        b[s.spec_path_region_offset() + j] <= 0x7F,
{
    let pro = s.spec_path_region_offset();
    let e = s.entry_at(i);
    assert(s.entry_wf(i));
    assert(s.path_region_encoded(b, i));
    // the terminator cannot lie before position j: those bytes are nonzero
    if rel + e.path@.len() < j {
        assert(path_so_far[e.path@.len() as int] == b[pro + rel + e.path@.len()]);
        assert(path_so_far[e.path@.len() as int] >= 1);
        assert(b[pro + rel + e.path@.len()] == 0);
        assert(false);
    }
    // so position j is a path byte or the terminator, both ASCII
    if rel + e.path@.len() == j {
        assert(b[pro + j] == 0);
    } else {
        assert(e.path@[j - rel] == b.subrange(pro + rel, pro + rel + e.path@.len())[j - rel]);
        assert(e.path@[j - rel] <= 0x7F);
        assert(b[pro + j] == e.path@[j - rel]);
    }
}

/// Behind a recorded path offset, a NUL terminator lies before the region
/// end: the bytes from the offset to the end cannot all be path bytes.
#[verifier::rlimit(100)]
proof fn lemma_terminator_exists(s: &PkgState, b: Seq<u8>, i: int, rel: int)
    requires
        s.encodes(b),
        crate::codec::be32_at(b, 8) == s.entries@.len(),
        crate::codec::be32_at(b, 12) == s.path_region_size,
        0 <= i < s.entries@.len(),
        s.occupied(i),
        s.entry_at(i).relative_path_offset == rel,
        0 <= rel,
    ensures
        !path_bytes_ok(
            b.subrange(
                s.spec_path_region_offset() + rel,
                s.spec_path_region_offset() + s.path_region_size,
            ),
        ),
{
    let pro = s.spec_path_region_offset();
    let e = s.entry_at(i);
    assert(s.entry_wf(i));
    assert(s.path_region_encoded(b, i));
    // the entry's terminator lies within the range, and it is a zero byte
    let scanned = b.subrange(pro + rel, pro + s.path_region_size);
    assert(rel + e.path@.len() < s.path_region_size);
    assert(scanned[e.path@.len() as int] == b[pro + rel + e.path@.len()]);
    assert(b[pro + rel + e.path@.len()] == 0);
    assert(!(1 <= scanned[e.path@.len() as int] <= 0x7F));
}

/// A slot whose record bytes and path bytes match a rebuilt entry holds
/// that entry's path.
#[verifier::rlimit(100)]
proof fn lemma_rebuilt_path_matches(s: &PkgState, b: Seq<u8>, k: int, prior: Entry)
    requires
        s.encodes(b),
        crate::codec::be32_at(b, 8) == s.entries@.len(),
        crate::codec::be32_at(b, 12) == s.path_region_size,
        0 <= k < s.entries@.len(),
        b.subrange(16 + 20 * k, 16 + 20 * k + 20) == prior.record_bytes(),
        prior.data_offset != 0,
        prior.relative_path_offset + prior.path@.len() + 1 <= s.path_region_size,
        path_bytes_ok(prior.path@),
        b.subrange(
            s.spec_path_region_offset() + prior.relative_path_offset,
            s.spec_path_region_offset() + prior.relative_path_offset + prior.path@.len(),
        ) == prior.path@,
        b[s.spec_path_region_offset() + prior.relative_path_offset + prior.path@.len()] == 0,
    ensures
        s.occupied(k),
        s.entry_at(k).path@ == prior.path@,
{
    let pro = s.spec_path_region_offset();
    let dro = s.spec_data_region_offset();
    crate::state::lemma_record_range(s.entries@.len() as int, k);
    assert(s.record_encoded(b, k));
    if s.entries@[k] is None {
        crate::state::lemma_record_offset_field(b, 16 + 20 * k, prior);
        crate::codec::lemma_be32_at_bytes(b, 16 + 20 * k + 8, 0u32);
        assert(false);
    }
    assert(s.occupied(k));
    let ek = s.entry_at(k);
    assert(s.entry_wf(k));
    assert(s.path_region_encoded(b, k));
    crate::state::lemma_record_fields_determined(b, 16 + 20 * k, ek, prior);
    assert(pro + s.path_region_size <= dro <= b.len());
    assert(ek.relative_path_offset == prior.relative_path_offset);
    crate::state::lemma_path_determined(
        b,
        pro + ek.relative_path_offset,
        ek.path@,
        prior.path@,
    );
}

/// Two occupied records' paths, as rebuilt from the bytes, stay distinct in
/// any state that encodes them.
#[verifier::rlimit(100)]
proof fn lemma_paths_stay_distinct(
    s: &PkgState,
    b: Seq<u8>,
    k: int,
    i: int,
    prior: Entry,
    rel: int,
    path: Seq<u8>,
)
    requires
        s.encodes(b),
        crate::codec::be32_at(b, 8) == s.entries@.len(),
        crate::codec::be32_at(b, 12) == s.path_region_size,
        0 <= k < i < s.entries@.len(),
        // the earlier slot's record and path, as the scan rebuilt them
        b.subrange(16 + 20 * k, 16 + 20 * k + 20) == prior.record_bytes(),
        prior.data_offset != 0,
        prior.relative_path_offset + prior.path@.len() + 1 <= s.path_region_size,
        path_bytes_ok(prior.path@),
        b.subrange(
            s.spec_path_region_offset() + prior.relative_path_offset,
            s.spec_path_region_offset() + prior.relative_path_offset + prior.path@.len(),
        ) == prior.path@,
        b[s.spec_path_region_offset() + prior.relative_path_offset + prior.path@.len()] == 0,
        // the current slot's path, as just read
        s.occupied(i),
        s.entry_at(i).relative_path_offset == rel,
        0 <= rel,
        rel + path.len() + 1 <= s.path_region_size,
        path_bytes_ok(path),
        b.subrange(s.spec_path_region_offset() + rel, s.spec_path_region_offset() + rel
            + path.len()) == path,
        b[s.spec_path_region_offset() + rel + path.len()] == 0,
    ensures
        prior.path@ != path,
{
    let pro = s.spec_path_region_offset();
    let dro = s.spec_data_region_offset();
    lemma_rebuilt_path_matches(s, b, k, prior);
    let ei = s.entry_at(i);
    assert(s.entry_wf(i));
    assert(s.path_region_encoded(b, i));
    assert(pro + s.path_region_size <= dro <= b.len());
    crate::state::lemma_path_determined(b, pro + rel, ei.path@, path);
    // two occupied slots cannot share one path
    assert(s.entry_at(k).path@ != ei.path@);
}

} // verus!
