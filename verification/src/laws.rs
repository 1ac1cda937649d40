//! Laws that tie the operations' contracts together.

use vstd::prelude::*;

use crate::state::{EntryData, PkgState};

verus! {

/// Every path listed by a well-formed archive is contained in it, and its
/// content is the entry the archive's map assigns to it: lookup and listing
/// agree exactly.
pub proof fn lemma_listed_paths_are_contained(pkg: &crate::sync::Pkg, p: Seq<u8>)
    requires
        pkg.wf(),
        pkg.view_map().dom().contains(p),
    ensures
        pkg.view_map()[p] == pkg.state.view_of(pkg.storage@)[p],
        pkg.state.has_path(p),
{
}

/// In an archive built by this crate's operations, every entry's recorded
/// hash is the hash of its path: creation establishes it and every operation
/// preserves it, so it holds after any operation sequence.
pub proof fn lemma_recorded_hashes_match(pkg: &crate::sync::Pkg, j: int)
    requires
        pkg.hashes_ok(),
        pkg.state.occupied(j),
    ensures
        pkg.state.entry_at(j).path_hash == crate::hash::hash_of(pkg.state.entry_at(j).path@),
{
}

/// Renaming `a` to `b` and back restores the original content map exactly.
pub proof fn lemma_rename_round_trip(m: Map<Seq<u8>, EntryData>, a: Seq<u8>, b: Seq<u8>)
    requires
        m.dom().contains(a),
        !m.dom().contains(b),
    ensures
        ({
            let m1 = m.remove(a).insert(b, m[a]);
            m1.remove(b).insert(a, m1[b]) == m
        }),
{
    let m1 = m.remove(a).insert(b, m[a]);
    assert(m1.remove(b).insert(a, m1[b]) =~= m);
}

/// An entry stored by a writer decodes to the bytes that were written: for a
/// plain entry the stored bytes are the written bytes themselves; for a
/// deflate entry they decompress to the written bytes.
pub proof fn lemma_written_content_round_trips(d: EntryData, bytes: Seq<u8>)
    requires
        d.content() == Some(bytes),
    ensures
        !d.deflated ==> d.stored == bytes,
        d.deflated ==> crate::flate::inflate_of(d.stored) == Some(bytes),
{
}

/// Operations that keep the content map keep every entry's logical bytes:
/// what a repack or a region move preserves at the map level is preserved
/// entry by entry.
pub proof fn lemma_preserved_map_preserves_content(
    m1: Map<Seq<u8>, EntryData>,
    m2: Map<Seq<u8>, EntryData>,
    p: Seq<u8>,
)
    requires
        m1 == m2,
        m1.dom().contains(p),
    ensures
        m2.dom().contains(p),
        m1[p].content() == m2[p].content(),
{
}

/// Two indices that describe the same bytes hold the same content: parsing
/// an archive this crate wrote yields the writer's map. The paths, flags and
/// stored ranges of every entry are pinned by the bytes, so the parsed map
/// equals the written one.
pub proof fn lemma_encoding_determines_content(s1: &PkgState, s2: &PkgState, b: Seq<u8>)
    requires
        s1.encodes(b),
        s2.encodes(b),
    ensures
        s1.view_of(b) == s2.view_of(b),
{
    lemma_encoding_determines_slots(s1, s2, b);
    assert forall|p: Seq<u8>| s1.has_path(p) == s2.has_path(p) by {
        if s1.has_path(p) {
            let j = choose|j: int| s1.occupied(j) && s1.entry_at(j).path@ == p;
            assert(s2.occupied(j) && s2.entry_at(j).path@ == p);
        }
        if s2.has_path(p) {
            let j = choose|j: int| s2.occupied(j) && s2.entry_at(j).path@ == p;
            assert(s1.occupied(j) && s1.entry_at(j).path@ == p);
        }
    }
    assert forall|p: Seq<u8>| s1.has_path(p) implies s1.view_of(b)[p] == s2.view_of(b)[p] by {
        let j = choose|j: int| s1.occupied(j) && s1.entry_at(j).path@ == p;
        crate::state::lemma_index_of(s1, j);
        assert(s2.occupied(j) && s2.entry_at(j).path@ == p);
        crate::state::lemma_index_of(s2, j);
    }
    assert(s1.view_of(b) =~= s2.view_of(b));
}

/// Slot by slot, two indices describing the same bytes agree on occupancy
/// and on every field of every occupied entry except the stored path offset
/// bookkeeping, which the content does not depend on.
proof fn lemma_encoding_determines_slots(s1: &PkgState, s2: &PkgState, b: Seq<u8>)
    requires
        s1.encodes(b),
        s2.encodes(b),
    ensures
        s1.entries@.len() == s2.entries@.len(),
        forall|j: int| s1.occupied(j) == s2.occupied(j),
        forall|j: int|
            #![trigger s1.entry_at(j)]
            s1.occupied(j) ==> {
                let e1 = s1.entry_at(j);
                let e2 = s2.entry_at(j);
                e1.path@ == e2.path@ && e1.data_offset == e2.data_offset && e1.data_size
                    == e2.data_size && e1.unpacked_size == e2.unpacked_size && e1.deflated
                    == e2.deflated && e1.path_hash == e2.path_hash
            },
{
    let n = s1.entries@.len() as int;
    assert(n == s2.entries@.len()) by {
        assert(crate::codec::be32_at(b, 8) == s1.entries@.len());
        assert(crate::codec::be32_at(b, 8) == s2.entries@.len());
    }
    assert(s1.path_region_size == s2.path_region_size) by {
        assert(crate::codec::be32_at(b, 12) == s1.path_region_size);
    }
    assert forall|j: int| 0 <= j < n implies s1.occupied(j) == s2.occupied(j) && (s1.occupied(j)
        ==> {
        let e1 = s1.entry_at(j);
        let e2 = s2.entry_at(j);
        e1.path@ == e2.path@ && e1.data_offset == e2.data_offset && e1.data_size == e2.data_size
            && e1.unpacked_size == e2.unpacked_size && e1.deflated == e2.deflated && e1.path_hash
            == e2.path_hash
    }) by {
        assert(s1.record_encoded(b, j));
        assert(s2.record_encoded(b, j));
        crate::state::lemma_record_range(n, j);
        if s1.entries@[j] is Some && s2.entries@[j] is Some {
            let e1 = s1.entry_at(j);
            let e2 = s2.entry_at(j);
            assert(s1.entry_wf(j));
            assert(s2.entry_wf(j));
            crate::state::lemma_record_fields_determined(b, 16 + 20 * j, e1, e2);
            assert(s1.path_region_encoded(b, j));
            assert(s2.path_region_encoded(b, j));
            crate::state::lemma_path_determined(
                b,
                s1.spec_path_region_offset() + e1.relative_path_offset,
                e1.path@,
                e2.path@,
            );
        } else if s1.entries@[j] is Some && s2.entries@[j] is None {
            let e1 = s1.entry_at(j);
            assert(s1.entry_wf(j));
            crate::state::lemma_record_offset_field(b, 16 + 20 * j, e1);
            assert(crate::codec::be32_at(b, 16 + 20 * j + 8) == e1.data_offset);
            crate::codec::lemma_be32_at_bytes(b, 16 + 20 * j + 8, 0u32);
            assert(false);
        } else if s1.entries@[j] is None && s2.entries@[j] is Some {
            let e2 = s2.entry_at(j);
            assert(s2.entry_wf(j));
            crate::state::lemma_record_offset_field(b, 16 + 20 * j, e2);
            assert(crate::codec::be32_at(b, 16 + 20 * j + 8) == e2.data_offset);
            crate::codec::lemma_be32_at_bytes(b, 16 + 20 * j + 8, 0u32);
            assert(false);
        }
    }
}

} // verus!
