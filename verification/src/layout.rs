//! The layout manager: operations that relocate the data region and grow the
//! path region and the entry table in place, keeping the archive parseable at
//! every step.

use vstd::prelude::*;

use crate::codec::be32_at;
use crate::state::{lemma_record_range, lemma_subrange_frame, PkgState};
use crate::storage::{MemStorage, ReadSeekWriteExt, WriteExt};
use crate::write::write_record;

verus! {

impl PkgState {
    /// Total stored bytes of occupied slots at indices at or above `lo` whose
    /// data offset lies below `min`.
    pub open spec fn spec_sum_moved_from(&self, min: int, lo: int) -> int
        decreases self.entries@.len() - lo,
    {
        if lo < 0 || lo >= self.entries@.len() {
            0
        } else {
            (if self.occupied(lo) && self.entry_at(lo).data_offset < min {
                self.entry_at(lo).data_size as int
            } else {
                0
            }) + self.spec_sum_moved_from(min, lo + 1)
        }
    }

    /// Total stored bytes of occupied slots at indices at or above `lo`.
    pub open spec fn spec_sum_sizes_from(&self, lo: int) -> int
        decreases self.entries@.len() - lo,
    {
        if lo < 0 || lo >= self.entries@.len() {
            0
        } else {
            (if self.occupied(lo) {
                self.entry_at(lo).data_size as int
            } else {
                0
            }) + self.spec_sum_sizes_from(lo + 1)
        }
    }

    /// Total stored bytes of all occupied slots.
    pub open spec fn spec_data_total(&self) -> int {
        self.spec_sum_sizes_from(0)
    }

    /// Computes the total stored bytes of occupied slots whose data offset
    /// lies below `min`.
    pub fn sum_moved(&self, min: u32) -> (r: u64)
        requires
            self.wf(),
        ensures
            r == self.spec_sum_moved_from(min as int, 0),
    {
        let mut acc: u64 = 0;
        let mut i: usize = self.entries.len();
        proof {
            crate::layout::lemma_sum_moved_nonneg(self, min as int, 0);
        }
        while i > 0
            invariant
                self.wf(),
                i <= self.entries@.len(),
                acc == self.spec_sum_moved_from(min as int, i as int),
                acc <= 0xFFFF_FFFF * (self.entries@.len() - i),
            decreases i,
        {
            i = i - 1;
            proof {
                lemma_sum_count_bound(self.entries@.len() as int);
            }
            match &self.entries[i] {
                Some(e) => {
                    if e.data_offset < min {
                        acc = acc + (e.data_size as u64);
                    }
                },
                None => {},
            }
        }
        acc
    }

    /// Computes the total stored bytes of all occupied slots.
    pub fn data_total(&self) -> (r: u64)
        requires
            self.wf(),
        ensures
            r == self.spec_data_total(),
    {
        let mut acc: u64 = 0;
        let mut i: usize = self.entries.len();
        while i > 0
            invariant
                self.wf(),
                i <= self.entries@.len(),
                acc == self.spec_sum_sizes_from(i as int),
                acc <= 0xFFFF_FFFF * (self.entries@.len() - i),
            decreases i,
        {
            i = i - 1;
            proof {
                lemma_sum_count_bound(self.entries@.len() as int);
            }
            match &self.entries[i] {
                Some(e) => {
                    acc = acc + (e.data_size as u64);
                },
                None => {},
            }
        }
        acc
    }
}

/// The slot count is bounded by what the 32-bit layout admits, so size sums
/// fit comfortably in 64 bits.
proof fn lemma_sum_count_bound(n: int)
    requires
        0 <= n,
        16 + 20 * n <= 0xFFFF_FFFF,
    ensures
        0xFFFF_FFFF * n < 0x7FFF_FFFF_FFFF_FFFF,
{
    assert(n <= 0xCCC_CCCC) by (nonlinear_arith)
        requires
            0 <= n && 16 + 20 * n <= 0xFFFF_FFFF,
    ;
    assert(0xFFFF_FFFF * n <= 0xFFFF_FFFF * 0xCCC_CCCC) by (nonlinear_arith)
        requires
            n <= 0xCCC_CCCC && 0 <= n,
    ;
}

/// Partial moved-size sums are never negative.
pub proof fn lemma_sum_moved_nonneg(s: &PkgState, min: int, lo: int)
    ensures
        0 <= s.spec_sum_moved_from(min, lo),
    decreases s.entries@.len() - lo,
{
    if 0 <= lo && lo < s.entries@.len() {
        lemma_sum_moved_nonneg(s, min, lo + 1);
    }
}

/// Two states with the same slots from `lo` on have the same moved-size sums
/// from `lo` on.
pub proof fn lemma_sum_moved_agree(s1: &PkgState, s2: &PkgState, min: int, lo: int)
    requires
        s1.entries@.len() == s2.entries@.len(),
        forall|j: int| lo <= j < s1.entries@.len() ==> s1.entries@[j] == s2.entries@[j],
    ensures
        s1.spec_sum_moved_from(min, lo) == s2.spec_sum_moved_from(min, lo),
    decreases s1.entries@.len() - lo,
{
    if 0 <= lo && lo < s1.entries@.len() {
        lemma_sum_moved_agree(s1, s2, min, lo + 1);
    }
}

impl PkgState {
    /// Ensures no occupied entry's stored bytes lie below `min_offset`, by
    /// relocating each such blob to the end of the stream (or to `min_offset`
    /// itself when the stream is still shorter than that, zero-filling the
    /// gap). Entry records are rewritten as blobs move; header fields and the
    /// path region stay as they are.
    #[verifier::rlimit(100)]
    pub fn push_back_data_region(&mut self, storage: &mut MemStorage, min_offset: u32)
        requires
            old(self).encodes(old(storage)@),
            vstd::math::max(old(storage)@.len() as int, min_offset as int) + old(
                self,
            ).spec_sum_moved_from(min_offset as int, 0) <= 0xFFFF_FFFF,
        ensures
            final(self).encodes(final(storage)@),
            final(self).entries@.len() == old(self).entries@.len(),
            final(self).path_region_size == old(self).path_region_size,
            final(self).path_region_empty_offset == old(self).path_region_empty_offset,
            forall|j: int| final(self).occupied(j) == old(self).occupied(j),
            forall|j: int|
                #![trigger final(self).entry_at(j)]
                final(self).occupied(j) ==> {
                    let e2 = final(self).entry_at(j);
                    let e1 = old(self).entry_at(j);
                    e2.path@ == e1.path@ && e2.path_hash == e1.path_hash
                        && e2.relative_path_offset == e1.relative_path_offset && e2.data_size
                        == e1.data_size && e2.unpacked_size == e1.unpacked_size && e2.deflated
                        == e1.deflated && e2.data_offset >= min_offset && (e1.data_offset
                        >= min_offset ==> e2.data_offset == e1.data_offset)
                },
            forall|j: int|
                final(self).occupied(j) ==> final(self).stored_of(final(storage)@, j) == old(
                    self,
                ).stored_of(old(storage)@, j),
            forall|i: int|
                0 <= i < old(self).spec_path_region_offset() + old(self).path_region_size
                    && !(16 <= i < old(self).spec_path_region_offset()) ==> final(storage)@[i]
                    == old(storage)@[i],
            old(storage)@.len() <= final(storage)@.len(),
            final(storage)@.len() <= vstd::math::max(old(storage)@.len() as int, min_offset as int)
                + old(self).spec_sum_moved_from(min_offset as int, 0),
            final(self).view_of(final(storage)@) == old(self).view_of(old(storage)@),
            old(self).hashes_ok() ==> final(self).hashes_ok(),
    {
        let ghost s0 = *old(self);
        let ghost b0 = old(storage)@;
        let n = self.entries.len();
        let mut i: usize = 0;
        while i < n
            invariant
                n == s0.entries@.len(),
                i <= n,
                self.encodes(storage@),
                self.entries@.len() == n,
                self.path_region_size == s0.path_region_size,
                self.path_region_empty_offset == s0.path_region_empty_offset,
                forall|j: int| self.occupied(j) == s0.occupied(j),
                forall|j: int| i <= j < n ==> self.entries@[j] == s0.entries@[j],
                forall|j: int|
                    #![trigger self.entry_at(j)]
                    self.occupied(j) ==> {
                        let e2 = self.entry_at(j);
                        let e1 = s0.entry_at(j);
                        e2.path@ == e1.path@ && e2.path_hash == e1.path_hash
                            && e2.relative_path_offset == e1.relative_path_offset && e2.data_size
                            == e1.data_size && e2.unpacked_size == e1.unpacked_size && e2.deflated
                            == e1.deflated && (e1.data_offset >= min_offset ==> e2.data_offset
                            == e1.data_offset)
                    },
                forall|j: int|
                    0 <= j < i && self.occupied(j) ==> #[trigger] self.entry_at(j).data_offset
                        >= min_offset,
                forall|j: int|
                    self.occupied(j) ==> self.stored_of(storage@, j) == s0.stored_of(b0, j),
                forall|k: int|
                    0 <= k < s0.spec_path_region_offset() + s0.path_region_size && !(16 <= k
                        < s0.spec_path_region_offset()) ==> storage@[k] == b0[k],
                b0.len() <= storage@.len(),
                vstd::math::max(b0.len() as int, min_offset as int) + s0.spec_sum_moved_from(
                    min_offset as int,
                    0,
                ) <= 0xFFFF_FFFF,
                vstd::math::max(storage@.len() as int, min_offset as int)
                    + self.spec_sum_moved_from(min_offset as int, i as int) <= vstd::math::max(
                    b0.len() as int,
                    min_offset as int,
                ) + s0.spec_sum_moved_from(min_offset as int, 0),
            decreases n - i,
        {
            let ghost s_pre = *self;
            let ghost b_pre = storage@;
            proof {
                lemma_sum_moved_nonneg(&s_pre, min_offset as int, i as int + 1);
            }
            let needs_move: bool = match &self.entries[i] {
                Some(e) => e.data_offset < min_offset,
                None => false,
            };
            if needs_move {
                proof {
                    assert(self.occupied(i as int));
                    assert(self.data_range_ok(storage@.len() as int, i as int));
                    assert(self.entry_wf(i as int));
                    lemma_record_range(n as int, i as int);
                }
                // Extend the stream up to min_offset if it is still shorter.
                let mut target: usize = storage.len();
                if target < min_offset as usize {
                    let ghost b_a = storage@;
                    storage.fill(target, 0, min_offset as usize - target);
                    target = min_offset as usize;
                    proof {
                        lemma_frame_after_append(&s_pre, b_a, storage@);
                    }
                }
                let ghost b_gap = storage@;
                let (old_off, size) = match &self.entries[i] {
                    Some(e) => (e.data_offset as usize, e.data_size as usize),
                    None => (0, 0),
                };
                proof {
                    assert(self.spec_sum_moved_from(min_offset as int, i as int) == size
                        + self.spec_sum_moved_from(min_offset as int, i as int + 1));
                    assert(target + size <= 0xFFFF_FFFF);
                }
                storage.copy_within(old_off, size, target);
                let ghost b_cp = storage@;
                proof {
                    lemma_subrange_frame(b_pre, b_gap, old_off as int, old_off + size);
                    assert(b_cp.subrange(target as int, target + size) == b_pre.subrange(
                        old_off as int,
                        old_off + size,
                    ));
                }
                // Re-point the entry and rewrite its record.
                let slot = vstd::std_specs::vec::vec_index_mut(&mut self.entries, i);
                let e_old = slot.take();
                let e_new = match e_old {
                    Some(e) => crate::state::Entry {
                        data_offset: target as u32,
                        path_hash: e.path_hash,
                        relative_path_offset: e.relative_path_offset,
                        path: e.path,
                        data_size: e.data_size,
                        unpacked_size: e.unpacked_size,
                        deflated: e.deflated,
                    },
                    None => {
                        proof {
                            assert(false);
                        }
                        vstd::pervasive::unreached()
                    },
                };
                write_record(storage, i, &e_new);
                self.entries[i] = Some(e_new);
                proof {
                    assert(self.entries@ == s_pre.entries@.update(i as int, self.entries@[i as int]));
                    lemma_push_back_step(&s_pre, &*self, b_pre, b_cp, storage@, i as int, min_offset as int, target as int);
                }
            }
            i = i + 1;
            proof {
                if !needs_move {
                    assert(self.spec_sum_moved_from(min_offset as int, i as int)
                        == s_pre.spec_sum_moved_from(min_offset as int, i as int));
                } else {
                    lemma_sum_moved_agree(&s_pre, &*self, min_offset as int, i as int);
                }
            }
        }
        proof {
            assert forall|p: Seq<u8>| s0.has_path(p) == self.has_path(p) by {
                if s0.has_path(p) {
                    let w = choose|k: int| s0.occupied(k) && s0.entry_at(k).path@ == p;
                    assert(self.occupied(w) && self.entry_at(w).path@ == p);
                }
                if self.has_path(p) {
                    let w = choose|k: int| self.occupied(k) && self.entry_at(k).path@ == p;
                    assert(s0.occupied(w) && s0.entry_at(w).path@ == p);
                }
            }
            assert forall|j: int| self.occupied(j) implies exists|k: int|
                #![all_triggers]
                s0.occupied(k) && s0.entry_at(k).path@ == self.entry_at(j).path@ && s0.entry_at(
                    k,
                ).deflated == self.entry_at(j).deflated && s0.entry_at(k).unpacked_size
                    == self.entry_at(j).unpacked_size && s0.stored_of(b0, k) == self.stored_of(
                    storage@,
                    j,
                ) by {
                assert(s0.occupied(j) && s0.entry_at(j).path@ == self.entry_at(j).path@
                    && s0.entry_at(j).deflated == self.entry_at(j).deflated && s0.entry_at(
                    j,
                ).unpacked_size == self.entry_at(j).unpacked_size && s0.stored_of(b0, j)
                    == self.stored_of(storage@, j));
            }
            lemma_view_eq_same_content(&s0, &*self, b0, storage@);
            if s0.hashes_ok() {
                assert forall|j: int| self.occupied(j) implies #[trigger] self.entry_at(
                    j,
                ).path_hash == crate::hash::hash_of(self.entry_at(j).path@) by {
                    assert(s0.occupied(j));
                    assert(s0.entry_at(j).path_hash == crate::hash::hash_of(s0.entry_at(j).path@));
                }
            }
        }
    }
}

/// Appending bytes at or beyond the stream end leaves everything the encoding
/// speaks of unchanged.
proof fn lemma_frame_after_append(s: &PkgState, b0: Seq<u8>, b1: Seq<u8>)
    requires
        s.encodes(b0),
        b0.len() <= b1.len() <= 0xFFFF_FFFF,
        forall|k: int| 0 <= k < b0.len() ==> b1[k] == b0[k],
    ensures
        s.encodes(b1),
        forall|j: int| s.occupied(j) ==> s.stored_of(b1, j) == s.stored_of(b0, j),
{
    crate::state::lemma_encodes_frame(s, b0, b1);
    assert forall|j: int| s.occupied(j) implies s.stored_of(b1, j) == s.stored_of(b0, j) by {
        assert(s.data_range_ok(b0.len() as int, j));
        let e = s.entry_at(j);
        lemma_subrange_frame(b0, b1, e.data_offset as int, e.data_offset + e.data_size);
    }
}

/// One relocation step of [`PkgState::push_back_data_region`] preserves the
/// encoding and the stored bytes of every occupied slot.
#[verifier::rlimit(100)]
proof fn lemma_push_back_step(
    pre: &PkgState,
    post: &PkgState,
    b_pre: Seq<u8>,
    b_cp: Seq<u8>,
    b: Seq<u8>,
    i: int,
    min: int,
    target: int,
)
    requires
        pre.encodes(b_pre),
        pre.occupied(i),
        pre.entry_at(i).data_offset < min,
        min <= 0xFFFF_FFFF,
        // after the optional gap fill and the copy:
        vstd::math::max(b_pre.len() as int, min) == target,
        target + pre.entry_at(i).data_size == b_cp.len(),
        b_cp.len() <= 0xFFFF_FFFF,
        forall|k: int| 0 <= k < b_pre.len() ==> b_cp[k] == b_pre[k],
        b_cp.subrange(target, target + pre.entry_at(i).data_size) == pre.stored_of(b_pre, i),
        // after the record rewrite:
        b.len() == b_cp.len(),
        forall|k: int|
            0 <= k < b_cp.len() && !(16 + 20 * i <= k < 16 + 20 * i + 20) ==> b[k] == b_cp[k],
        b.subrange(16 + 20 * i, 16 + 20 * i + 20) == post.entry_at(i).record_bytes(),
        // the state update:
        post.entries@ == pre.entries@.update(
            i,
            Some(
                crate::state::Entry {
                    data_offset: target as u32,
                    path_hash: pre.entry_at(i).path_hash,
                    relative_path_offset: pre.entry_at(i).relative_path_offset,
                    path: pre.entry_at(i).path,
                    data_size: pre.entry_at(i).data_size,
                    unpacked_size: pre.entry_at(i).unpacked_size,
                    deflated: pre.entry_at(i).deflated,
                },
            ),
        ),
        post.path_region_size == pre.path_region_size,
        post.path_region_empty_offset == pre.path_region_empty_offset,
    ensures
        post.encodes(b),
        forall|j: int| post.occupied(j) == pre.occupied(j),
        forall|j: int|
            post.occupied(j) ==> post.stored_of(b, j) == pre.stored_of(b_pre, j),
        forall|k: int|
            0 <= k < pre.spec_path_region_offset() + pre.path_region_size && !(16 <= k
                < pre.spec_path_region_offset()) ==> b[k] == b_pre[k],
{
    let n = pre.entries@.len() as int;
    assert(pre.entry_wf(i));
    assert(pre.data_range_ok(b_pre.len() as int, i));
    lemma_record_range(n, i);
    lemma_push_back_step_meta(pre, post, b_pre, b_cp, b, i, min, target);
    lemma_push_back_step_paths(pre, post, b_pre, b_cp, b, i, min, target);
    assert(pre.entry_wf(i));
    assert(16 + 20 * i + 20 <= pre.spec_data_region_offset());
    assert forall|k: int|
        pre.spec_data_region_offset() <= k < b_pre.len() implies b[k] == b_pre[k] by {}
    assert(b.subrange(target, target + pre.entry_at(i).data_size) == pre.stored_of(b_pre, i)) by {
        lemma_subrange_frame(b_cp, b, target, target + pre.entry_at(i).data_size);
    }
    lemma_push_back_step_data(pre, post, b_pre, b, i, target);
    assert(post.encodes(b));
}

/// The metadata half of the relocation step: well-formedness, header and
/// record clauses.
#[verifier::rlimit(100)]
proof fn lemma_push_back_step_meta(
    pre: &PkgState,
    post: &PkgState,
    b_pre: Seq<u8>,
    b_cp: Seq<u8>,
    b: Seq<u8>,
    i: int,
    min: int,
    target: int,
)
    requires
        pre.encodes(b_pre),
        pre.occupied(i),
        pre.entry_at(i).data_offset < min,
        min <= 0xFFFF_FFFF,
        vstd::math::max(b_pre.len() as int, min) == target,
        target + pre.entry_at(i).data_size == b_cp.len(),
        b_cp.len() <= 0xFFFF_FFFF,
        forall|k: int| 0 <= k < b_pre.len() ==> b_cp[k] == b_pre[k],
        b_cp.subrange(target, target + pre.entry_at(i).data_size) == pre.stored_of(b_pre, i),
        b.len() == b_cp.len(),
        forall|k: int|
            0 <= k < b_cp.len() && !(16 + 20 * i <= k < 16 + 20 * i + 20) ==> b[k] == b_cp[k],
        b.subrange(16 + 20 * i, 16 + 20 * i + 20) == post.entry_at(i).record_bytes(),
        post.entries@ == pre.entries@.update(
            i,
            Some(
                crate::state::Entry {
                    data_offset: target as u32,
                    path_hash: pre.entry_at(i).path_hash,
                    relative_path_offset: pre.entry_at(i).relative_path_offset,
                    path: pre.entry_at(i).path,
                    data_size: pre.entry_at(i).data_size,
                    unpacked_size: pre.entry_at(i).unpacked_size,
                    deflated: pre.entry_at(i).deflated,
                },
            ),
        ),
        post.path_region_size == pre.path_region_size,
        post.path_region_empty_offset == pre.path_region_empty_offset,
    ensures
        post.wf(),
        post.spec_path_region_offset() == pre.spec_path_region_offset(),
        post.spec_data_region_offset() == pre.spec_data_region_offset(),
        post.header_encoded(b),
        forall|j: int| 0 <= j < post.entries@.len() ==> #[trigger] post.record_encoded(b, j),
{
    let n = pre.entries@.len() as int;
    let pro = pre.spec_path_region_offset();
    assert(pre.entry_wf(i));
    lemma_record_range(n, i);

    assert forall|j: int| post.occupied(j) implies #[trigger] post.entry_wf(j) by {
        assert(pre.occupied(j));
        assert(pre.entry_wf(j));
    }
    assert forall|i2: int, j2: int|
        post.occupied(i2) && post.occupied(j2) && i2 != j2 implies post.entry_at(i2).path@
        != post.entry_at(j2).path@ by {
        assert(pre.occupied(i2) && pre.occupied(j2));
    }
    assert(post.wf());

    crate::codec::lemma_be16_at_frame(b_pre, b, 4);
    crate::codec::lemma_be16_at_frame(b_pre, b, 6);
    crate::codec::lemma_be32_at_frame(b_pre, b, 8);
    crate::codec::lemma_be32_at_frame(b_pre, b, 12);
    lemma_subrange_frame(b_pre, b, 0, 4);

    assert forall|j: int| 0 <= j < n implies #[trigger] post.record_encoded(b, j) by {
        lemma_record_range(n, j);
        if j != i {
            lemma_subrange_frame(b_pre, b, 16 + 20 * j, 16 + 20 * j + 20);
            lemma_subrange_frame(b_pre, b, 16 + 20 * j + 8, 16 + 20 * j + 12);
            assert(pre.record_encoded(b_pre, j));
        }
    }
}

/// The path-region half of the relocation step.
#[verifier::rlimit(100)]
proof fn lemma_push_back_step_paths(
    pre: &PkgState,
    post: &PkgState,
    b_pre: Seq<u8>,
    b_cp: Seq<u8>,
    b: Seq<u8>,
    i: int,
    min: int,
    target: int,
)
    requires
        pre.encodes(b_pre),
        pre.occupied(i),
        pre.entry_at(i).data_offset < min,
        min <= 0xFFFF_FFFF,
        vstd::math::max(b_pre.len() as int, min) == target,
        target + pre.entry_at(i).data_size == b_cp.len(),
        b_cp.len() <= 0xFFFF_FFFF,
        forall|k: int| 0 <= k < b_pre.len() ==> b_cp[k] == b_pre[k],
        b_cp.subrange(target, target + pre.entry_at(i).data_size) == pre.stored_of(b_pre, i),
        b.len() == b_cp.len(),
        forall|k: int|
            0 <= k < b_cp.len() && !(16 + 20 * i <= k < 16 + 20 * i + 20) ==> b[k] == b_cp[k],
        b.subrange(16 + 20 * i, 16 + 20 * i + 20) == post.entry_at(i).record_bytes(),
        post.entries@ == pre.entries@.update(
            i,
            Some(
                crate::state::Entry {
                    data_offset: target as u32,
                    path_hash: pre.entry_at(i).path_hash,
                    relative_path_offset: pre.entry_at(i).relative_path_offset,
                    path: pre.entry_at(i).path,
                    data_size: pre.entry_at(i).data_size,
                    unpacked_size: pre.entry_at(i).unpacked_size,
                    deflated: pre.entry_at(i).deflated,
                },
            ),
        ),
        post.path_region_size == pre.path_region_size,
        post.path_region_empty_offset == pre.path_region_empty_offset,
    ensures
        forall|j: int| post.occupied(j) == pre.occupied(j),
        forall|j: int| post.occupied(j) ==> #[trigger] post.path_region_encoded(b, j),
        forall|k: int|
            0 <= k < pre.spec_path_region_offset() + pre.path_region_size && !(16 <= k
                < pre.spec_path_region_offset()) ==> b[k] == b_pre[k],
{
    let n = pre.entries@.len() as int;
    let pro = pre.spec_path_region_offset();
    assert(pre.entry_wf(i));
    lemma_record_range(n, i);
    assert(post.spec_path_region_offset() == pro);

    assert forall|j: int| post.occupied(j) implies #[trigger] post.path_region_encoded(b, j) by {
        assert(pre.occupied(j));
        assert(pre.entry_wf(j));
        assert(pre.path_region_encoded(b_pre, j));
        let e = post.entry_at(j);
        let start = pro + e.relative_path_offset;
        lemma_subrange_frame(b_pre, b, start, start + e.path@.len());
    }
}

/// The data-region half of the relocation step, over just the facts it
/// needs: every pre-existing byte outside the rewritten record is unchanged,
/// and the moved blob's bytes reappear at `target`.
#[verifier::rlimit(100)]
proof fn lemma_push_back_step_data(
    pre: &PkgState,
    post: &PkgState,
    b_pre: Seq<u8>,
    b: Seq<u8>,
    i: int,
    target: int,
)
    requires
        pre.occupied(i),
        forall|j: int| pre.occupied(j) ==> #[trigger] pre.data_range_ok(b_pre.len() as int, j),
        post.spec_data_region_offset() == pre.spec_data_region_offset(),
        pre.spec_data_region_offset() <= b_pre.len(),
        b_pre.len() <= target,
        target + pre.entry_at(i).data_size == b.len(),
        forall|k: int|
            pre.spec_data_region_offset() <= k < b_pre.len() ==> b[k] == b_pre[k],
        b.subrange(target, target + pre.entry_at(i).data_size) == pre.stored_of(b_pre, i),
        post.entries@.len() == pre.entries@.len(),
        forall|j: int| 0 <= j < pre.entries@.len() && j != i ==> post.entries@[j]
            == pre.entries@[j],
        post.occupied(i),
        post.entry_at(i).data_offset == target,
        post.entry_at(i).data_size == pre.entry_at(i).data_size,
    ensures
        forall|j: int| post.occupied(j) ==> #[trigger] post.data_range_ok(b.len() as int, j),
        forall|j: int|
            post.occupied(j) ==> post.stored_of(b, j) == pre.stored_of(b_pre, j),
{
    assert forall|j: int| post.occupied(j) implies #[trigger] post.data_range_ok(
        b.len() as int,
        j,
    ) by {
        if j != i {
            assert(pre.occupied(j));
            assert(pre.data_range_ok(b_pre.len() as int, j));
        }
    }
    assert forall|j: int| post.occupied(j) implies post.stored_of(b, j) == pre.stored_of(
        b_pre,
        j,
    ) by {
        if j == i {
            assert(post.stored_of(b, i) == b.subrange(
                target,
                target + pre.entry_at(i).data_size,
            ));
        } else {
            assert(pre.occupied(j));
            assert(pre.data_range_ok(b_pre.len() as int, j));
            let e = post.entry_at(j);
            lemma_subrange_frame(b_pre, b, e.data_offset as int, e.data_offset + e.data_size);
        }
    }
}

/// Two states with the same paths, flags and stored bytes describe the same
/// logical content.
pub proof fn lemma_view_eq_same_content(s1: &PkgState, s2: &PkgState, b1: Seq<u8>, b2: Seq<u8>)
    requires
        s1.wf(),
        s2.wf(),
        forall|p: Seq<u8>| s1.has_path(p) == s2.has_path(p),
        forall|j: int|
            s2.occupied(j) ==> exists|k: int|
                #![all_triggers]
                s1.occupied(k) && s1.entry_at(k).path@ == s2.entry_at(j).path@ && s1.entry_at(
                    k,
                ).deflated == s2.entry_at(j).deflated && s1.entry_at(k).unpacked_size
                    == s2.entry_at(j).unpacked_size && s1.stored_of(b1, k) == s2.stored_of(b2, j),
    ensures
        s1.view_of(b1) == s2.view_of(b2),
{
    assert forall|p: Seq<u8>| s2.has_path(p) implies s1.view_of(b1)[p] == s2.view_of(b2)[p] by {
        let j = choose|j: int| s2.occupied(j) && s2.entry_at(j).path@ == p;
        crate::state::lemma_index_of(s2, j);
        let k = choose|k: int|
            #![all_triggers]
            s1.occupied(k) && s1.entry_at(k).path@ == s2.entry_at(j).path@ && s1.entry_at(
                k,
            ).deflated == s2.entry_at(j).deflated && s1.entry_at(k).unpacked_size == s2.entry_at(
                j,
            ).unpacked_size && s1.stored_of(b1, k) == s2.stored_of(b2, j);
        crate::state::lemma_index_of(s1, k);
    }
    assert(s1.view_of(b1) =~= s2.view_of(b2));
}

} // verus!
verus! {

/// A state whose path region grew (with the data region already pushed clear)
/// still describes a buffer whose other metadata bytes are unchanged.
#[verifier::rlimit(100)]
pub proof fn lemma_encodes_grow_path_region(s1: &PkgState, s2: &PkgState, b1: Seq<u8>, b2: Seq<u8>)
    requires
        s1.encodes(b1),
        s2.path_region_size >= s1.path_region_size,
        s2.path_region_empty_offset >= s1.path_region_empty_offset,
        s2.path_region_empty_offset <= s2.path_region_size,
        s2.entries@ == s1.entries@,
        16 + 20 * (s1.entries@.len() as int) + s2.path_region_size <= 0xFFFF_FFFF,
        s2.path_region_size <= 0xFF_FFFF,
        b1.len() <= b2.len() <= 0xFFFF_FFFF,
        s2.spec_data_region_offset() <= b2.len(),
        be32_at(b2, 12) == s2.path_region_size,
        forall|k: int|
            0 <= k < b1.len() && !(12 <= k < 16) && !(s1.spec_path_region_offset()
                + s1.path_region_empty_offset <= k < s1.spec_path_region_offset()
                + s2.path_region_size) ==> b2[k] == b1[k],
        forall|j: int|
            s1.occupied(j) ==> #[trigger] s1.entry_at(j).data_offset
                >= s2.spec_data_region_offset(),
    ensures
        s2.encodes(b2),
        forall|j: int| s2.occupied(j) ==> s2.stored_of(b2, j) == s1.stored_of(b1, j),
{
    let n = s1.entries@.len() as int;
    let pro = s1.spec_path_region_offset();
    assert(s2.spec_path_region_offset() == pro);
    assert forall|j: int| s2.occupied(j) implies #[trigger] s2.entry_wf(j) by {
        assert(s1.occupied(j));
        assert(s1.entry_wf(j));
    }
    assert forall|i2: int, j2: int|
        s2.occupied(i2) && s2.occupied(j2) && i2 != j2 implies s2.entry_at(i2).path@
        != s2.entry_at(j2).path@ by {
        assert(s1.occupied(i2) && s1.occupied(j2));
    }
    assert(s2.wf());
    crate::codec::lemma_be16_at_frame(b1, b2, 4);
    crate::codec::lemma_be16_at_frame(b1, b2, 6);
    crate::codec::lemma_be32_at_frame(b1, b2, 8);
    lemma_subrange_frame(b1, b2, 0, 4);
    assert forall|j: int| 0 <= j < n implies #[trigger] s2.record_encoded(b2, j) by {
        lemma_record_range(n, j);
        lemma_subrange_frame(b1, b2, 16 + 20 * j, 16 + 20 * j + 20);
        lemma_subrange_frame(b1, b2, 16 + 20 * j + 8, 16 + 20 * j + 12);
        assert(s1.record_encoded(b1, j));
    }
    assert forall|j: int| s2.occupied(j) implies #[trigger] s2.path_region_encoded(b2, j) by {
        assert(s1.occupied(j));
        assert(s1.entry_wf(j));
        assert(s1.path_region_encoded(b1, j));
        let e = s2.entry_at(j);
        let start = pro + e.relative_path_offset;
        lemma_subrange_frame(b1, b2, start, start + e.path@.len());
    }
    assert forall|j: int| s2.occupied(j) implies #[trigger] s2.data_range_ok(
        b2.len() as int,
        j,
    ) by {
        assert(s1.occupied(j));
        assert(s1.data_range_ok(b1.len() as int, j));
    }
    assert forall|j: int| s2.occupied(j) implies s2.stored_of(b2, j) == s1.stored_of(b1, j) by {
        assert(s1.occupied(j));
        assert(s1.data_range_ok(b1.len() as int, j));
        let e = s2.entry_at(j);
        lemma_subrange_frame(b1, b2, e.data_offset as int, e.data_offset + e.data_size);
    }
    assert(s2.encodes(b2));
}

impl PkgState {
    /// Grows the path region by `amount` bytes in place: the data region is
    /// first pushed past the new region end, the new tail is zero-filled, and
    /// the header's path-region-size field is rewritten last.
    #[verifier::rlimit(100)]
    pub fn reserve_path_space(&mut self, storage: &mut MemStorage, amount: u32)
        requires
            old(self).encodes(old(storage)@),
            old(self).path_region_size + amount <= 0xFF_FFFF,
            16 + 20 * (old(self).entries@.len() as int) + old(self).path_region_size + amount
                <= 0xFFFF_FFFF,
            vstd::math::max(
                old(storage)@.len() as int,
                old(self).spec_data_region_offset() + amount,
            ) + old(self).spec_sum_moved_from(old(self).spec_data_region_offset() + amount, 0)
                <= 0xFFFF_FFFF,
        ensures
            final(self).encodes(final(storage)@),
            final(self).path_region_size == old(self).path_region_size + amount,
            final(self).path_region_empty_offset == old(self).path_region_empty_offset,
            final(self).entries@.len() == old(self).entries@.len(),
            forall|j: int| final(self).occupied(j) == old(self).occupied(j),
            forall|j: int|
                #![trigger final(self).entry_at(j)]
                final(self).occupied(j) ==> {
                    let e2 = final(self).entry_at(j);
                    let e1 = old(self).entry_at(j);
                    e2.path@ == e1.path@ && e2.path_hash == e1.path_hash
                        && e2.relative_path_offset == e1.relative_path_offset && e2.data_size
                        == e1.data_size && e2.unpacked_size == e1.unpacked_size && e2.deflated
                        == e1.deflated
                },
            forall|j: int|
                final(self).occupied(j) ==> final(self).stored_of(final(storage)@, j) == old(
                    self,
                ).stored_of(old(storage)@, j),
            old(storage)@.len() <= final(storage)@.len(),
            final(storage)@.len() <= vstd::math::max(
                old(storage)@.len() as int,
                old(self).spec_data_region_offset() + amount,
            ) + old(self).spec_sum_moved_from(old(self).spec_data_region_offset() + amount, 0),
            final(self).view_of(final(storage)@) == old(self).view_of(old(storage)@),
            old(self).hashes_ok() ==> final(self).hashes_ok(),
            forall|i: int|
                old(self).spec_path_region_offset() + old(self).path_region_empty_offset <= i
                    < old(self).spec_path_region_offset() + old(self).path_region_size + amount
                    ==> final(storage)@[i] == 0,
    {
        let ghost s0 = *old(self);
        let ghost b0 = old(storage)@;
        let dro = self.data_region_offset();
        let new_min: usize = dro + amount as usize;
        proof {
            assert(new_min <= 0xFFFF_FFFF);
        }
        self.push_back_data_region(storage, new_min as u32);
        let ghost s1 = *self;
        let ghost b1 = storage@;
        let pro = self.path_region_offset();
        let start = pro + self.path_region_empty_offset as usize;
        let count = (self.path_region_size as usize + amount as usize)
            - self.path_region_empty_offset as usize;
        storage.fill(start, 0, count);
        let ghost b2 = storage@;
        storage.write_u32_be(12, self.path_region_size + amount);
        self.path_region_size = self.path_region_size + amount;
        proof {
            let b = storage@;
            crate::codec::lemma_be32_at_bytes(b, 12, self.path_region_size);
            assert forall|k: int|
                0 <= k < b1.len() && !(12 <= k < 16) && !(s1.spec_path_region_offset()
                    + s1.path_region_empty_offset <= k < s1.spec_path_region_offset()
                    + self.path_region_size) implies b[k] == b1[k] by {}
            assert forall|j: int|
                s1.occupied(j) implies #[trigger] s1.entry_at(j).data_offset
                >= self.spec_data_region_offset() by {
                assert(s1.entry_at(j).data_offset >= new_min);
            }
            lemma_encodes_grow_path_region(&s1, &*self, b1, storage@);
            assert forall|p: Seq<u8>| s1.has_path(p) == self.has_path(p) by {
                if s1.has_path(p) {
                    let w = choose|k: int| s1.occupied(k) && s1.entry_at(k).path@ == p;
                    assert(self.occupied(w) && self.entry_at(w).path@ == p);
                }
                if self.has_path(p) {
                    let w = choose|k: int| self.occupied(k) && self.entry_at(k).path@ == p;
                    assert(s1.occupied(w) && s1.entry_at(w).path@ == p);
                }
            }
            assert forall|j: int| self.occupied(j) implies exists|k: int|
                #![all_triggers]
                s1.occupied(k) && s1.entry_at(k).path@ == self.entry_at(j).path@ && s1.entry_at(
                    k,
                ).deflated == self.entry_at(j).deflated && s1.entry_at(k).unpacked_size
                    == self.entry_at(j).unpacked_size && s1.stored_of(b1, k) == self.stored_of(
                    storage@,
                    j,
                ) by {
                assert(s1.occupied(j) && s1.entry_at(j).path@ == self.entry_at(j).path@
                    && s1.entry_at(j).deflated == self.entry_at(j).deflated && s1.entry_at(
                    j,
                ).unpacked_size == self.entry_at(j).unpacked_size && s1.stored_of(b1, j)
                    == self.stored_of(storage@, j));
            }
            lemma_view_eq_same_content(&s1, &*self, b1, storage@);
            assert forall|j: int|
                self.occupied(j) implies self.stored_of(storage@, j) == s0.stored_of(b0, j) by {
                assert(s1.occupied(j));
                assert(s1.stored_of(b1, j) == s0.stored_of(b0, j));
            }
            lemma_sum_moved_nonneg(&s0, new_min as int, 0);
            assert(b1.len() <= vstd::math::max(b0.len() as int, new_min as int)
                + s0.spec_sum_moved_from(new_min as int, 0));
            assert(storage@.len() == vstd::math::max(b2.len() as int, 16));
            assert(b2.len() == vstd::math::max(b1.len() as int, new_min as int));
            assert(storage@.len() <= vstd::math::max(b0.len() as int, s0.spec_data_region_offset()
                + amount) + s0.spec_sum_moved_from(s0.spec_data_region_offset() + amount, 0));
            if s0.hashes_ok() {
                assert forall|j: int| self.occupied(j) implies #[trigger] self.entry_at(
                    j,
                ).path_hash == crate::hash::hash_of(self.entry_at(j).path@) by {
                    assert(s1.occupied(j));
                    assert(s1.entry_at(j).path_hash == crate::hash::hash_of(s1.entry_at(j).path@));
                }
            }
        }
    }
}

} // verus!

verus! {

impl PkgState {
    /// Appends `path`, NUL-terminated, at the first unused byte of the path
    /// region, growing the region first if the path does not fit. Returns the
    /// path's offset within the region.
    #[verifier::rlimit(100)]
    pub fn insert_path_into_path_region(&mut self, storage: &mut MemStorage, path: &[u8]) -> (r:
        u32)
        requires
            old(self).encodes(old(storage)@),
            crate::state::path_bytes_ok(path@),
            path@.len() <= 0xFFFF,
            old(self).path_region_size + path@.len() + 961 <= 0xFF_FFFF,
            16 + 20 * (old(self).entries@.len() as int) + old(self).path_region_size + path@.len()
                + 961 <= 0xFFFF_FFFF,
            vstd::math::max(
                old(storage)@.len() as int,
                old(self).spec_data_region_offset() + path@.len() + 961,
            ) + old(self).spec_sum_moved_from(
                old(self).spec_data_region_offset() + path@.len() + 961,
                0,
            ) <= 0xFFFF_FFFF,
        ensures
            final(self).encodes(final(storage)@),
            r == old(self).path_region_empty_offset,
            final(self).path_region_empty_offset == r + path@.len() + 1,
            final(self).path_region_size >= old(self).path_region_size,
            final(self).entries@.len() == old(self).entries@.len(),
            final(self).spec_path_region_offset() == old(self).spec_path_region_offset(),
            forall|j: int| final(self).occupied(j) == old(self).occupied(j),
            forall|j: int|
                #![trigger final(self).entry_at(j)]
                final(self).occupied(j) ==> {
                    let e2 = final(self).entry_at(j);
                    let e1 = old(self).entry_at(j);
                    e2.path@ == e1.path@ && e2.path_hash == e1.path_hash
                        && e2.relative_path_offset == e1.relative_path_offset && e2.data_size
                        == e1.data_size && e2.unpacked_size == e1.unpacked_size && e2.deflated
                        == e1.deflated
                },
            forall|j: int|
                final(self).occupied(j) ==> final(self).stored_of(final(storage)@, j) == old(
                    self,
                ).stored_of(old(storage)@, j),
            final(self).view_of(final(storage)@) == old(self).view_of(old(storage)@),
            old(self).hashes_ok() ==> final(self).hashes_ok(),
            ({
                let start = final(self).spec_path_region_offset() + r;
                final(storage)@.subrange(start, start + path@.len()) == path@ && final(storage)@[
                    start + path@.len()] == 0
            }),
            old(storage)@.len() <= final(storage)@.len(),
    {
        let ghost s0 = *old(self);
        let ghost b0 = old(storage)@;
        let len_p = path.len();
        if self.path_region_empty_offset as usize + len_p + 1 >= self.path_region_size as usize {
            let amount: u32 = (len_p as u32) + 961;
            self.reserve_path_space(storage, amount);
        }
        let ghost s1 = *self;
        let ghost b1 = storage@;
        let pro = self.path_region_offset();
        let offset = self.path_region_empty_offset;
        let start = pro + offset as usize;
        storage.write_at(start, path);
        let ghost b_mid = storage@;
        storage.write_u8(start + len_p, 0);
        self.path_region_empty_offset = offset + (len_p as u32) + 1;
        proof {
            let b = storage@;
            assert(b.len() == b1.len());
            assert(offset + len_p + 1 <= self.path_region_size);
            assert forall|k: int|
                0 <= k < b1.len() && !(start <= k < start + len_p + 1) implies b[k] == b1[k] by {}
            assert(b.subrange(start as int, start + len_p) =~= path@) by {
                lemma_subrange_frame(b_mid, b, start as int, start + len_p);
            }
            assert(b[start + len_p] == 0);
            crate::codec::lemma_be32_at_frame(b1, b, 12);
            assert forall|k: int|
                0 <= k < b1.len() && !(12 <= k < 16) && !(s1.spec_path_region_offset()
                    + s1.path_region_empty_offset <= k < s1.spec_path_region_offset()
                    + self.path_region_size) implies b[k] == b1[k] by {}
            assert forall|j: int|
                s1.occupied(j) implies #[trigger] s1.entry_at(j).data_offset
                >= self.spec_data_region_offset() by {
                assert(s1.data_range_ok(b1.len() as int, j));
            }
            lemma_encodes_grow_path_region(&s1, &*self, b1, b);
            assert forall|p: Seq<u8>| s1.has_path(p) == self.has_path(p) by {
                if s1.has_path(p) {
                    let w = choose|k: int| s1.occupied(k) && s1.entry_at(k).path@ == p;
                    assert(self.occupied(w) && self.entry_at(w).path@ == p);
                }
                if self.has_path(p) {
                    let w = choose|k: int| self.occupied(k) && self.entry_at(k).path@ == p;
                    assert(s1.occupied(w) && s1.entry_at(w).path@ == p);
                }
            }
            assert forall|j: int| self.occupied(j) implies exists|k: int|
                #![all_triggers]
                s1.occupied(k) && s1.entry_at(k).path@ == self.entry_at(j).path@ && s1.entry_at(
                    k,
                ).deflated == self.entry_at(j).deflated && s1.entry_at(k).unpacked_size
                    == self.entry_at(j).unpacked_size && s1.stored_of(b1, k) == self.stored_of(
                    b,
                    j,
                ) by {
                assert(s1.occupied(j) && s1.entry_at(j).path@ == self.entry_at(j).path@
                    && s1.entry_at(j).deflated == self.entry_at(j).deflated && s1.entry_at(
                    j,
                ).unpacked_size == self.entry_at(j).unpacked_size && s1.stored_of(b1, j)
                    == self.stored_of(b, j));
            }
            lemma_view_eq_same_content(&s1, &*self, b1, b);
            assert forall|j: int|
                self.occupied(j) implies self.stored_of(b, j) == s0.stored_of(b0, j) by {
                assert(s1.occupied(j));
                assert(s1.stored_of(b1, j) == s0.stored_of(b0, j));
            }
            if s0.hashes_ok() {
                assert forall|j: int| self.occupied(j) implies #[trigger] self.entry_at(
                    j,
                ).path_hash == crate::hash::hash_of(self.entry_at(j).path@) by {
                    assert(s1.occupied(j));
                    assert(s1.entry_at(j).path_hash == crate::hash::hash_of(s1.entry_at(j).path@));
                }
            }
        }
        offset
    }
}

} // verus!

verus! {

/// Pointwise view of a block copy: equal subranges mean equal bytes at
/// shifted positions.
pub proof fn lemma_block_pointwise(b1: Seq<u8>, b2: Seq<u8>, src: int, dst: int, len: int)
    requires
        0 <= len,
        0 <= src,
        src + len <= b1.len(),
        0 <= dst,
        dst + len <= b2.len(),
        b2.subrange(dst, dst + len) == b1.subrange(src, src + len),
    ensures
        forall|k: int| 0 <= k < len ==> #[trigger] b2[dst + k] == b1[src + k],
{
    assert forall|k: int| 0 <= k < len implies #[trigger] b2[dst + k] == b1[src + k] by {
        assert(b2.subrange(dst, dst + len)[k] == b2[dst + k]);
        assert(b1.subrange(src, src + len)[k] == b1[src + k]);
    }
}

/// The commit step of [`PkgState::reserve_entries`]: with the data region
/// already clear of the enlarged metadata area and the stream long enough,
/// the rewritten table, relocated path region and updated header counts
/// encode the grown state.
#[verifier::rlimit(100)]
proof fn lemma_reserve_commit(
    s1: &PkgState,
    s2: &PkgState,
    b1: Seq<u8>,
    b: Seq<u8>,
    amount: int,
)
    requires
        s1.encodes(b1),
        0 < amount,
        s1.spec_data_region_offset() + 50 * amount <= b1.len(),
        forall|j: int|
            s1.occupied(j) ==> #[trigger] s1.entry_at(j).data_offset
                >= s1.spec_data_region_offset() + 50 * amount,
        s2.entries@.len() == s1.entries@.len() + amount,
        forall|j: int| 0 <= j < s1.entries@.len() ==> s2.entries@[j] == s1.entries@[j],
        forall|j: int|
            (s1.entries@.len() <= j && j < s2.entries@.len()) ==> (s2.entries@[j] is None),
        s2.path_region_size == s1.path_region_size + 30 * amount,
        s2.path_region_empty_offset == s1.path_region_empty_offset,
        16 + 20 * (s2.entries@.len() as int) + s2.path_region_size <= 0xFFFF_FFFF,
        s2.path_region_size <= 0xFF_FFFF,
        b.len() == b1.len(),
        forall|k: int|
            0 <= k < b1.len() && !(8 <= k < 16) && !(s1.spec_path_region_offset() <= k
                < s1.spec_data_region_offset() + 50 * amount) ==> b[k] == b1[k],
        forall|k2: int|
            0 <= k2 < s1.path_region_size ==> #[trigger] b[s2.spec_path_region_offset() + k2]
                == b1[s1.spec_path_region_offset() + k2],
        forall|k: int|
            s1.spec_path_region_offset() <= k < s1.spec_path_region_offset() + 20 * amount ==> b[k]
                == 0,
        be32_at(b, 8) == s2.entries@.len(),
        be32_at(b, 12) == s2.path_region_size,
    ensures
        s2.encodes(b),
        forall|j: int| s2.occupied(j) ==> s1.occupied(j),
        forall|j: int| 0 <= j < s1.entries@.len() ==> s2.occupied(j) == s1.occupied(j),
        forall|j: int| s2.occupied(j) ==> s2.stored_of(b, j) == s1.stored_of(b1, j),
        forall|j: int|
            (s1.entries@.len() <= j && j < s2.entries@.len()) ==> #[trigger] b.subrange(
                16 + 20 * j,
                16 + 20 * j + 20,
            ) == crate::state::zero_record(),
{
    let n1 = s1.entries@.len() as int;
    let n2 = s2.entries@.len() as int;
    let pro1 = s1.spec_path_region_offset();
    let pro2 = s2.spec_path_region_offset();
    let dro2 = s2.spec_data_region_offset();
    assert(pro2 == pro1 + 20 * amount);
    assert(dro2 == s1.spec_data_region_offset() + 50 * amount);
    assert forall|j: int| s2.occupied(j) implies s1.occupied(j) by {
        if j >= n1 {
            assert(s2.entries@[j] is None);
        }
    }
    assert forall|j: int| s2.occupied(j) implies #[trigger] s2.entry_wf(j) by {
        assert(s1.occupied(j));
        assert(s1.entry_wf(j));
    }
    assert forall|i2: int, j2: int|
        s2.occupied(i2) && s2.occupied(j2) && i2 != j2 implies s2.entry_at(i2).path@
        != s2.entry_at(j2).path@ by {
        assert(s1.occupied(i2) && s1.occupied(j2));
    }
    assert(s2.wf());

    lemma_subrange_frame(b1, b, 0, 4);
    crate::codec::lemma_be16_at_frame(b1, b, 4);
    crate::codec::lemma_be16_at_frame(b1, b, 6);

    assert forall|j: int| 0 <= j < n2 implies #[trigger] s2.record_encoded(b, j) by {
        lemma_record_range(n2, j);
        if j < n1 {
            lemma_record_range(n1, j);
            lemma_subrange_frame(b1, b, 16 + 20 * j, 16 + 20 * j + 20);
            lemma_subrange_frame(b1, b, 16 + 20 * j + 8, 16 + 20 * j + 12);
            assert(s1.record_encoded(b1, j));
        } else {
            assert(16 + 20 * j >= pro1) by (nonlinear_arith)
                requires
                    j >= n1 && pro1 == 16 + 20 * n1,
            ;
            assert(16 + 20 * j + 20 <= pro1 + 20 * amount) by (nonlinear_arith)
                requires
                    j < n2 == n1 + amount && pro1 == 16 + 20 * n1,
            ;
            assert(b.subrange(16 + 20 * j + 8, 16 + 20 * j + 12) =~= crate::codec::be32_bytes(
                0u32,
            ));
        }
    }
    assert forall|j: int|
        (n1 <= j && j < n2) implies #[trigger] b.subrange(16 + 20 * j, 16 + 20 * j + 20)
        == crate::state::zero_record() by {
        lemma_record_range(n2, j);
        assert(16 + 20 * j >= pro1) by (nonlinear_arith)
            requires
                j >= n1 && pro1 == 16 + 20 * n1,
        ;
        assert(16 + 20 * j + 20 <= pro1 + 20 * amount) by (nonlinear_arith)
            requires
                j < n2 == n1 + amount && pro1 == 16 + 20 * n1,
        ;
        assert(b.subrange(16 + 20 * j, 16 + 20 * j + 20) =~= crate::state::zero_record());
    }

    assert forall|j: int| s2.occupied(j) implies #[trigger] s2.path_region_encoded(b, j) by {
        assert(s1.occupied(j));
        assert(s1.entry_wf(j));
        assert(s1.path_region_encoded(b1, j));
        let e = s2.entry_at(j);
        let rel = e.relative_path_offset as int;
        let start1 = pro1 + rel;
        let start2 = pro2 + rel;
        assert(b.subrange(start2, start2 + e.path@.len()) =~= b1.subrange(
            start1,
            start1 + e.path@.len(),
        )) by {
            assert forall|k2: int|
                0 <= k2 < e.path@.len() implies #[trigger] b.subrange(
                start2,
                start2 + e.path@.len(),
            )[k2] == b1.subrange(start1, start1 + e.path@.len())[k2] by {
                assert(b[pro2 + (rel + k2)] == b1[pro1 + (rel + k2)]);
            }
        }
        assert(b[pro2 + (rel + e.path@.len())] == b1[pro1 + (rel + e.path@.len())]);
    }

    assert forall|j: int| s2.occupied(j) implies #[trigger] s2.data_range_ok(b.len() as int, j) by {
        assert(s1.occupied(j));
        assert(s1.data_range_ok(b1.len() as int, j));
    }
    assert forall|j: int| s2.occupied(j) implies s2.stored_of(b, j) == s1.stored_of(b1, j) by {
        assert(s1.occupied(j));
        assert(s1.data_range_ok(b1.len() as int, j));
        let e = s2.entry_at(j);
        lemma_subrange_frame(b1, b, e.data_offset as int, e.data_offset + e.data_size);
    }
    assert(s2.encodes(b));
}

impl PkgState {
    /// Grows the entry table by `amount` slots: the data region is pushed
    /// clear, the path region is copied up behind the enlarged table (and
    /// preallocated thirty bytes per new slot), the new slots are zeroed, and
    /// the header counts are rewritten last.
    #[verifier::rlimit(100)]
    pub fn reserve_entries(&mut self, storage: &mut MemStorage, amount: u32)
        requires
            old(self).encodes(old(storage)@),
            0 < amount <= 1024,
            old(self).path_region_size + 30 * amount <= 0xFF_FFFF,
            16 + 20 * (old(self).entries@.len() as int + amount) + old(self).path_region_size + 30
                * amount <= 0xFFFF_FFFF,
            vstd::math::max(
                old(storage)@.len() as int,
                old(self).spec_data_region_offset() + 50 * amount,
            ) + old(self).spec_sum_moved_from(
                old(self).spec_data_region_offset() + 50 * amount,
                0,
            ) <= 0xFFFF_FFFF,
        ensures
            final(self).encodes(final(storage)@),
            final(self).entries@.len() == old(self).entries@.len() + amount,
            forall|j: int|
                (old(self).entries@.len() <= j && j < final(self).entries@.len())
                    ==> (final(self).entries@[j] is None),
            forall|j: int|
                (old(self).entries@.len() <= j && j < final(self).entries@.len())
                    ==> #[trigger] final(storage)@.subrange(16 + 20 * j, 16 + 20 * j + 20)
                        == crate::state::zero_record(),
            forall|j: int|
                0 <= j < old(self).entries@.len() ==> final(self).occupied(j) == old(self).occupied(
                    j,
                ),
            forall|j: int| final(self).occupied(j) ==> old(self).occupied(j),
            forall|j: int|
                #![trigger final(self).entry_at(j)]
                final(self).occupied(j) ==> {
                    let e2 = final(self).entry_at(j);
                    let e1 = old(self).entry_at(j);
                    e2.path@ == e1.path@ && e2.path_hash == e1.path_hash
                        && e2.relative_path_offset == e1.relative_path_offset && e2.data_size
                        == e1.data_size && e2.unpacked_size == e1.unpacked_size && e2.deflated
                        == e1.deflated
                },
            forall|j: int|
                final(self).occupied(j) ==> final(self).stored_of(final(storage)@, j) == old(
                    self,
                ).stored_of(old(storage)@, j),
            final(self).path_region_size == old(self).path_region_size + 30 * amount,
            final(self).path_region_empty_offset == old(self).path_region_empty_offset,
            final(self).view_of(final(storage)@) == old(self).view_of(old(storage)@),
            old(self).hashes_ok() ==> final(self).hashes_ok(),
            old(storage)@.len() <= final(storage)@.len(),
    {
        let ghost s0 = *old(self);
        let ghost b0 = old(storage)@;
        let pro = self.path_region_offset();
        let dro = self.data_region_offset();
        let grow_rec: usize = 20 * (amount as usize);
        let new_min: usize = dro + 50 * (amount as usize);
        proof {
            assert(new_min <= 0xFFFF_FFFF);
        }
        self.push_back_data_region(storage, new_min as u32);
        // make the stream cover the enlarged metadata area
        let cur_len = storage.len();
        if cur_len < new_min {
            let ghost s_a = *self;
            let ghost b_a = storage@;
            storage.fill(cur_len, 0, new_min - cur_len);
            proof {
                lemma_frame_after_append(&s_a, b_a, storage@);
                assert forall|j: int|
                    self.occupied(j) implies self.stored_of(storage@, j) == s0.stored_of(
                    b0,
                    j,
                ) by {
                    assert(s_a.occupied(j));
                    assert(s_a.stored_of(b_a, j) == s0.stored_of(b0, j));
                    assert(self.stored_of(storage@, j) == s_a.stored_of(b_a, j));
                }
            }
        }
        let ghost s1 = *self;
        let ghost b1 = storage@;
        let prs = self.path_region_size as usize;
        proof {
            assert(s1.spec_data_region_offset() + 50 * (amount as int) <= b1.len());
        }
        storage.copy_within(pro, prs, pro + grow_rec);
        let ghost b2 = storage@;
        storage.fill(pro, 0, grow_rec);
        let ghost b3 = storage@;
        let ghost n0 = self.entries@.len() as int;
        let mut k: usize = 0;
        while k < amount as usize
            invariant
                k <= amount as usize,
                self.entries@.len() == n0 + k,
                self.entries@.subrange(0, n0) == s1.entries@,
                forall|j: int| (n0 <= j && j < self.entries@.len()) ==> (self.entries@[j] is None),
                self.path_region_size == s1.path_region_size,
                self.path_region_empty_offset == s1.path_region_empty_offset,
                n0 == s1.entries@.len(),
                16 + 20 * (n0 + amount) + s1.path_region_size + 30 * amount <= 0xFFFF_FFFF,
            decreases amount as usize - k,
        {
            self.entries.push(None);
            k = k + 1;
            proof {
                assert(self.entries@.subrange(0, n0) =~= s1.entries@);
            }
        }
        self.path_region_size = self.path_region_size + 30 * amount;
        storage.write_u32_be(8, self.entries.len() as u32);
        let ghost b4 = storage@;
        storage.write_u32_be(12, self.path_region_size);
        proof {
            let b = storage@;
            assert(b.len() == b1.len());
            assert forall|j: int| 0 <= j < n0 implies self.entries@[j] == s1.entries@[j] by {
                assert(self.entries@.subrange(0, n0)[j] == self.entries@[j]);
            }
            assert forall|k2: int|
                0 <= k2 < b1.len() && !(8 <= k2 < 16) && !(s1.spec_path_region_offset() <= k2
                    < s1.spec_data_region_offset() + 50 * (amount as int)) implies b[k2]
                == b1[k2] by {}
            lemma_block_pointwise(b1, b2, pro as int, pro + grow_rec, prs as int);
            assert forall|k2: int|
                0 <= k2 < prs implies #[trigger] b[self.spec_path_region_offset() + k2] == b1[pro
                + k2] by {
                assert(b2[pro + grow_rec + k2] == b1[pro + k2]);
                assert(b3[pro + grow_rec + k2] == b2[pro + grow_rec + k2]);
                assert(b4[pro + grow_rec + k2] == b3[pro + grow_rec + k2]);
                assert(b[pro + grow_rec + k2] == b4[pro + grow_rec + k2]);
            }
            assert forall|k2: int| pro <= k2 < pro + grow_rec implies b[k2] == 0 by {
                assert(b3[k2] == 0);
            }
            crate::codec::lemma_be32_at_bytes(b4, 8, self.entries.len() as u32);
            crate::codec::lemma_be32_at_frame(b4, b, 8);
            crate::codec::lemma_be32_at_bytes(b, 12, self.path_region_size);
            assert forall|j: int|
                s1.occupied(j) implies #[trigger] s1.entry_at(j).data_offset
                >= s1.spec_data_region_offset() + 50 * (amount as int) by {
                assert(s1.entry_at(j).data_offset >= new_min);
            }
            lemma_reserve_commit(&s1, &*self, b1, b, amount as int);

            assert forall|p: Seq<u8>| s1.has_path(p) == self.has_path(p) by {
                if s1.has_path(p) {
                    let w = choose|k2: int| s1.occupied(k2) && s1.entry_at(k2).path@ == p;
                    assert(self.occupied(w) && self.entry_at(w).path@ == p);
                }
                if self.has_path(p) {
                    let w = choose|k2: int| self.occupied(k2) && self.entry_at(k2).path@ == p;
                    assert(s1.occupied(w) && s1.entry_at(w).path@ == p);
                }
            }
            assert forall|j: int| self.occupied(j) implies exists|k2: int|
                #![all_triggers]
                s1.occupied(k2) && s1.entry_at(k2).path@ == self.entry_at(j).path@ && s1.entry_at(
                    k2,
                ).deflated == self.entry_at(j).deflated && s1.entry_at(k2).unpacked_size
                    == self.entry_at(j).unpacked_size && s1.stored_of(b1, k2) == self.stored_of(
                    b,
                    j,
                ) by {
                assert(s1.occupied(j) && s1.entry_at(j).path@ == self.entry_at(j).path@
                    && s1.entry_at(j).deflated == self.entry_at(j).deflated && s1.entry_at(
                    j,
                ).unpacked_size == self.entry_at(j).unpacked_size && s1.stored_of(b1, j)
                    == self.stored_of(b, j));
            }
            lemma_view_eq_same_content(&s1, &*self, b1, b);
            assert forall|j: int|
                self.occupied(j) implies self.stored_of(b, j) == s0.stored_of(b0, j) by {
                assert(s1.occupied(j));
                assert(s1.stored_of(b1, j) == s0.stored_of(b0, j));
            }
            if s0.hashes_ok() {
                assert forall|j: int| self.occupied(j) implies #[trigger] self.entry_at(
                    j,
                ).path_hash == crate::hash::hash_of(self.entry_at(j).path@) by {
                    assert(s1.occupied(j));
                    assert(s1.entry_at(j).path_hash == crate::hash::hash_of(s1.entry_at(j).path@));
                }
            }
        }
    }
}

} // verus!
