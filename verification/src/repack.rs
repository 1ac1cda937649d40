//! Compaction: dropping empty slots, packing the path region and the data
//! region with no dead bytes, sorting entries by path hash, and truncating
//! the stream.

use vstd::prelude::*;

use vstd::multiset::Multiset;

use crate::errors::RepackError;
use crate::state::{Entry, PkgState};
use crate::storage::{MemStorage, ReadSeekWriteExt, WriteExt};

verus! {

/// Order on entries by data offset, then stored size.
pub open spec fn off_le(a: Entry, b: Entry) -> bool {
    a.data_offset < b.data_offset || (a.data_offset == b.data_offset && a.data_size
        <= b.data_size)
}

/// Order on entries by recorded path hash.
pub open spec fn hash_le(a: Entry, b: Entry) -> bool {
    a.path_hash <= b.path_hash
}

/// Entry `a` precedes (or ties) `b` in the offset order and its data range
/// runs past `b`'s start: exactly the overlap the compaction pass rejects.
pub open spec fn ranges_clash(a: Entry, b: Entry) -> bool {
    off_le(a, b) && a.data_offset + a.data_size > b.data_offset
}

/// Two occupied entries' data ranges overlap (in the order the compaction
/// pass checks them).
pub open spec fn has_overlap(s: &PkgState) -> bool {
    exists|i: int, j: int|
        s.occupied(i) && s.occupied(j) && i != j && ranges_clash(
            #[trigger] s.entry_at(i),
            #[trigger] s.entry_at(j),
        )
}

/// A compacted, offset-sorted list that passes the consecutive-overlap check
/// certifies that no two occupied data ranges of the state clash.
#[verifier::rlimit(100)]
proof fn lemma_no_overlap_from_sorted(s0: &PkgState, l1: Seq<Entry>)
    requires
        s0.wf(),
        covers(l1, s0),
        forall|k1: int, k2: int| 0 <= k1 <= k2 < l1.len() ==> off_le(l1[k1], l1[k2]),
        no_consecutive_overlap(l1),
    ensures
        !has_overlap(s0),
{
    assert forall|i: int, j: int|
        s0.occupied(i) && s0.occupied(j) && i != j implies !ranges_clash(
        #[trigger] s0.entry_at(i),
        #[trigger] s0.entry_at(j),
    ) by {
        if ranges_clash(s0.entry_at(i), s0.entry_at(j)) {
            assert(listed(s0.entry_at(i), l1));
            let ki = choose|k: int|
                0 <= k < l1.len() && corresponds(#[trigger] l1[k], s0.entry_at(i));
            assert(listed(s0.entry_at(j), l1));
            let kj = choose|k: int|
                0 <= k < l1.len() && corresponds(#[trigger] l1[k], s0.entry_at(j));
            assert(s0.entry_at(i).path@ != s0.entry_at(j).path@);
            assert(ki != kj);
            if ki < kj {
                assert(l1[ki].data_offset + l1[ki].data_size <= l1[ki + 1].data_offset);
                assert(off_le(l1[ki + 1], l1[kj]));
                assert(false);
            } else {
                // the clash forces equal offsets and sizes, yet the list
                // packs kj's range wholly before ki's
                assert(off_le(l1[kj], l1[ki]));
                assert(l1[kj].data_offset + l1[kj].data_size <= l1[kj + 1].data_offset);
                assert(off_le(l1[kj + 1], l1[ki]));
                assert(false);
            }
        }
    }
}

/// One entry corresponds to another: same path, data fields and flags (the
/// path offset may differ).
pub open spec fn corresponds(a: Entry, b: Entry) -> bool {
    &&& a.path@ == b.path@
    &&& a.path_hash == b.path_hash
    &&& a.data_offset == b.data_offset
    &&& a.data_size == b.data_size
    &&& a.unpacked_size == b.unpacked_size
    &&& a.deflated == b.deflated
}

/// The entry stands for some occupied slot of the state.
pub open spec fn stands_for_slot(e: Entry, s: &PkgState) -> bool {
    exists|j: int| s.occupied(j) && corresponds(e, #[trigger] s.entry_at(j))
}

/// Some entry of the list corresponds to `e`.
pub open spec fn listed(e: Entry, live: Seq<Entry>) -> bool {
    exists|k: int| 0 <= k < live.len() && corresponds(#[trigger] live[k], e)
}

/// The entries of `live` are exactly the occupied entries of `s`, up to
/// [`corresponds`].
pub open spec fn covers(live: Seq<Entry>, s: &PkgState) -> bool {
    &&& forall|k: int| 0 <= k < live.len() ==> stands_for_slot(#[trigger] live[k], s)
    &&& forall|j: int| s.occupied(j) ==> listed(#[trigger] s.entry_at(j), live)
    &&& forall|k1: int, k2: int|
        #![trigger live[k1], live[k2]]
        0 <= k1 < k2 < live.len() ==> live[k1].path@ != live[k2].path@
}

/// Total path bytes (with terminators) of occupied slots at or above `lo`.
pub open spec fn spec_path_total_from(s: &PkgState, lo: int) -> int
    decreases s.entries@.len() - lo,
{
    if lo < 0 || lo >= s.entries@.len() {
        0
    } else {
        (if s.occupied(lo) {
            s.entry_at(lo).path@.len() + 1
        } else {
            0
        }) + spec_path_total_from(s, lo + 1)
    }
}

/// Number of occupied slots at or above `lo`.
pub open spec fn spec_occ_count_from(s: &PkgState, lo: int) -> int
    decreases s.entries@.len() - lo,
{
    if lo < 0 || lo >= s.entries@.len() {
        0
    } else {
        (if s.occupied(lo) {
            1int
        } else {
            0
        }) + spec_occ_count_from(s, lo + 1)
    }
}


/// Copies an entry.
pub fn entry_dup(e: &Entry) -> (r: Entry)
    ensures
        corresponds(r, *e),
        r.relative_path_offset == e.relative_path_offset,
{
    Entry {
        path_hash: e.path_hash,
        relative_path_offset: e.relative_path_offset,
        path: crate::state::clone_bytes(&e.path),
        data_offset: e.data_offset,
        data_size: e.data_size,
        unpacked_size: e.unpacked_size,
        deflated: e.deflated,
    }
}

impl PkgState {
    /// Copies the occupied entries, in slot order.
    pub fn collect_live(&self) -> (r: Vec<Entry>)
        requires
            self.wf(),
        ensures
            covers(r@, self),
            r@.len() == spec_occ_count_from(self, 0),
            spec_entries_path_total(r@) == spec_path_total_from(self, 0),
            spec_entries_size_total(r@) == self.spec_sum_sizes_from(0),
    {
        let mut out: Vec<Entry> = Vec::new();
        let n = self.entries.len();
        let mut i: usize = n;
        while i > 0
            invariant
                self.wf(),
                i <= n,
                n == self.entries@.len(),
                forall|k: int|
                    0 <= k < out@.len() ==> exists|j: int|
                        self.occupied(j) && i <= j && corresponds(
                            #[trigger] out@[k],
                            self.entry_at(j),
                        ),
                forall|j: int|
                    i <= j < n && self.occupied(j) ==> exists|k: int|
                        0 <= k < out@.len() && corresponds(out@[k], #[trigger] self.entry_at(j)),
                forall|k1: int, k2: int|
                    #![trigger out@[k1], out@[k2]]
                    0 <= k1 < k2 < out@.len() ==> out@[k1].path@ != out@[k2].path@,
                out@.len() == spec_occ_count_from(self, i as int),
                spec_entries_path_total(out@) == spec_path_total_from(self, i as int),
                spec_entries_size_total(out@) == self.spec_sum_sizes_from(i as int),
            decreases i,
        {
            i = i - 1;
            let ghost prev = out@;
            match &self.entries[i] {
                Some(e) => {
                    let d = entry_dup(e);
                    proof {
                        assert(self.occupied(i as int));
                        assert(corresponds(d, self.entry_at(i as int)));
                        assert forall|k1: int| 0 <= k1 < prev.len() implies prev[k1].path@
                            != d.path@ by {
                            let j = choose|j: int|
                                self.occupied(j) && i + 1 <= j && corresponds(
                                    prev[k1],
                                    self.entry_at(j),
                                );
                            assert(self.occupied(j));
                            assert(j != i as int);
                            assert(self.entry_at(j).path@ != self.entry_at(i as int).path@);
                        }
                    }
                    out.push(d);
                    proof {
                        assert(out@.drop_last() == prev);
                        assert forall|j: int|
                            i <= j < n && self.occupied(j) implies exists|k: int|
                            0 <= k < out@.len() && corresponds(
                                out@[k],
                                #[trigger] self.entry_at(j),
                            ) by {
                            if j == i {
                                assert(corresponds(out@[out@.len() - 1], self.entry_at(j)));
                            } else {
                                let k = choose|k: int|
                                    0 <= k < prev.len() && corresponds(
                                        prev[k],
                                        self.entry_at(j),
                                    );
                                assert(out@[k] == prev[k]);
                                assert(corresponds(out@[k], self.entry_at(j)));
                            }
                        }
                        assert forall|k: int|
                            0 <= k < out@.len() implies exists|j: int|
                            self.occupied(j) && i <= j && corresponds(
                                #[trigger] out@[k],
                                self.entry_at(j),
                            ) by {
                            if k < prev.len() {
                                let j = choose|j: int|
                                    self.occupied(j) && i + 1 <= j && corresponds(
                                        prev[k],
                                        self.entry_at(j),
                                    );
                                assert(out@[k] == prev[k]);
                                assert(self.occupied(j) && i <= j && corresponds(
                                    out@[k],
                                    self.entry_at(j),
                                ));
                            } else {
                                assert(out@[k] == d);
                                assert(self.occupied(i as int) && corresponds(
                                    out@[k],
                                    self.entry_at(i as int),
                                ));
                            }
                        }
                    }
                },
                None => {
                    proof {
                        assert(!self.occupied(i as int));
                        assert forall|k: int|
                            0 <= k < out@.len() implies exists|j: int|
                            self.occupied(j) && i <= j && corresponds(
                                #[trigger] out@[k],
                                self.entry_at(j),
                            ) by {
                            let j = choose|j: int|
                                self.occupied(j) && i + 1 <= j && corresponds(
                                    out@[k],
                                    self.entry_at(j),
                                );
                            assert(self.occupied(j) && i <= j && corresponds(
                                out@[k],
                                self.entry_at(j),
                            ));
                        }
                    }
                },
            }
        }
        proof {
            assert forall|k: int| 0 <= k < out@.len() implies stands_for_slot(
                #[trigger] out@[k],
                self,
            ) by {
                let j = choose|j: int|
                    self.occupied(j) && 0 <= j && corresponds(out@[k], self.entry_at(j));
                assert(self.occupied(j) && corresponds(out@[k], self.entry_at(j)));
            }
            assert forall|j: int| self.occupied(j) implies listed(
                #[trigger] self.entry_at(j),
                out@,
            ) by {
                let k = choose|k: int|
                    0 <= k < out@.len() && corresponds(out@[k], self.entry_at(j));
                assert(0 <= k < out@.len() && corresponds(out@[k], self.entry_at(j)));
            }
            assert(covers(out@, self));
        }
        out
    }
}

/// Total path bytes (with terminators) of a list of entries.
pub open spec fn spec_entries_path_total(s: Seq<Entry>) -> int
    decreases s.len(),
{
    if s.len() == 0 {
        0
    } else {
        spec_entries_path_total(s.drop_last()) + s.last().path@.len() + 1
    }
}

/// Total stored bytes of a list of entries.
pub open spec fn spec_entries_size_total(s: Seq<Entry>) -> int
    decreases s.len(),
{
    if s.len() == 0 {
        0
    } else {
        spec_entries_size_total(s.drop_last()) + s.last().data_size
    }
}


/// Removing one element takes its contribution out of the path-byte total.
pub proof fn lemma_path_total_remove(s: Seq<Entry>, m: int)
    requires
        0 <= m < s.len(),
    ensures
        spec_entries_path_total(s.remove(m)) == spec_entries_path_total(s) - s[m].path@.len() - 1,
    decreases s.len(),
{
    if m == s.len() - 1 {
        assert(s.remove(m) =~= s.drop_last());
    } else {
        lemma_path_total_remove(s.drop_last(), m);
        assert(s.remove(m).drop_last() =~= s.drop_last().remove(m));
        assert(s.remove(m).last() == s.last());
    }
}

/// Removing one element takes its contribution out of the stored-byte total.
pub proof fn lemma_size_total_remove(s: Seq<Entry>, m: int)
    requires
        0 <= m < s.len(),
    ensures
        spec_entries_size_total(s.remove(m)) == spec_entries_size_total(s) - s[m].data_size,
    decreases s.len(),
{
    if m == s.len() - 1 {
        assert(s.remove(m) =~= s.drop_last());
    } else {
        lemma_size_total_remove(s.drop_last(), m);
        assert(s.remove(m).drop_last() =~= s.drop_last().remove(m));
        assert(s.remove(m).last() == s.last());
    }
}

/// Pushing one element adds its contribution to both totals.
pub proof fn lemma_totals_push(s: Seq<Entry>, e: Entry)
    ensures
        spec_entries_path_total(s.push(e)) == spec_entries_path_total(s) + e.path@.len() + 1,
        spec_entries_size_total(s.push(e)) == spec_entries_size_total(s) + e.data_size,
{
    assert(s.push(e).drop_last() =~= s);
    assert(s.push(e).last() == e);
}

/// Finds the first index holding a minimal element under the offset order.
fn min_by_offset(v: &Vec<Entry>) -> (r: usize)
    requires
        v@.len() > 0,
    ensures
        r < v@.len(),
        forall|k: int| 0 <= k < v@.len() ==> off_le(v@[r as int], #[trigger] v@[k]),
{
    let mut best: usize = 0;
    let mut i: usize = 1;
    while i < v.len()
        invariant
            best < i <= v@.len(),
            forall|k: int| 0 <= k < i ==> off_le(v@[best as int], #[trigger] v@[k]),
        decreases v@.len() - i,
    {
        let better: bool = v[i].data_offset < v[best].data_offset || (v[i].data_offset
            == v[best].data_offset && v[i].data_size < v[best].data_size);
        if better {
            best = i;
        }
        i = i + 1;
    }
    best
}

/// Finds the first index holding a minimal element under the hash order.
fn min_by_hash(v: &Vec<Entry>) -> (r: usize)
    requires
        v@.len() > 0,
    ensures
        r < v@.len(),
        forall|k: int| 0 <= k < v@.len() ==> hash_le(v@[r as int], #[trigger] v@[k]),
{
    let mut best: usize = 0;
    let mut i: usize = 1;
    while i < v.len()
        invariant
            best < i <= v@.len(),
            forall|k: int| 0 <= k < i ==> hash_le(v@[best as int], #[trigger] v@[k]),
        decreases v@.len() - i,
    {
        if v[i].path_hash < v[best].path_hash {
            best = i;
        }
        i = i + 1;
    }
    best
}

/// Selection sort by data offset (then size).
fn sort_by_offset(v: Vec<Entry>) -> (r: Vec<Entry>)
    ensures
        r@.len() == v@.len(),
        r@.to_multiset() == v@.to_multiset(),
        forall|k1: int, k2: int| 0 <= k1 <= k2 < r@.len() ==> off_le(r@[k1], r@[k2]),
        spec_entries_path_total(r@) == spec_entries_path_total(v@),
        spec_entries_size_total(r@) == spec_entries_size_total(v@),
{
    broadcast use vstd::seq_lib::group_to_multiset_ensures;
    broadcast use vstd::multiset::group_multiset_axioms;

    let ghost orig = v@;
    let mut src = v;
    let mut out: Vec<Entry> = Vec::new();
    while src.len() > 0
        invariant
            out@.len() + src@.len() == orig.len(),
            out@.to_multiset().add(src@.to_multiset()) =~= orig.to_multiset(),
            forall|k1: int, k2: int| 0 <= k1 <= k2 < out@.len() ==> off_le(out@[k1], out@[k2]),
            forall|k1: int, k2: int|
                #![trigger out@[k1], src@[k2]]
                0 <= k1 < out@.len() && 0 <= k2 < src@.len() ==> off_le(out@[k1], src@[k2]),
            spec_entries_path_total(out@) + spec_entries_path_total(src@)
                == spec_entries_path_total(orig),
            spec_entries_size_total(out@) + spec_entries_size_total(src@)
                == spec_entries_size_total(orig),
        decreases src@.len(),
    {
        let m = min_by_offset(&src);
        let ghost src_pre = src@;
        let ghost out_pre = out@;
        let e = src.remove(m);
        proof {
            lemma_path_total_remove(src_pre, m as int);
            lemma_size_total_remove(src_pre, m as int);
            lemma_totals_push(out_pre, e);
        }
        out.push(e);
        proof {
            broadcast use vstd::seq_lib::group_to_multiset_ensures;
            broadcast use vstd::multiset::group_multiset_axioms;

            assert(src@.to_multiset() =~= src_pre.to_multiset().remove(src_pre[m as int]));
            assert(out@.to_multiset() =~= out_pre.to_multiset().insert(src_pre[m as int]));
            assert(src_pre.to_multiset().contains(src_pre[m as int]));
            assert(out@.to_multiset().add(src@.to_multiset()) =~= orig.to_multiset());
        }
    }
    proof {
        broadcast use vstd::multiset::group_multiset_axioms;

        vstd::multiset::lemma_multiset_empty_len(src@.to_multiset());
        assert(src@.to_multiset() =~= Multiset::<Entry>::empty());
        assert(out@.to_multiset() =~= orig.to_multiset());
    }
    out
}

/// Selection sort by path hash.
fn sort_by_hash(v: Vec<Entry>) -> (r: Vec<Entry>)
    ensures
        r@.len() == v@.len(),
        r@.to_multiset() == v@.to_multiset(),
        forall|k1: int, k2: int| 0 <= k1 <= k2 < r@.len() ==> hash_le(r@[k1], r@[k2]),
        spec_entries_path_total(r@) == spec_entries_path_total(v@),
        spec_entries_size_total(r@) == spec_entries_size_total(v@),
{
    broadcast use vstd::seq_lib::group_to_multiset_ensures;
    broadcast use vstd::multiset::group_multiset_axioms;

    let ghost orig = v@;
    let mut src = v;
    let mut out: Vec<Entry> = Vec::new();
    while src.len() > 0
        invariant
            out@.len() + src@.len() == orig.len(),
            out@.to_multiset().add(src@.to_multiset()) =~= orig.to_multiset(),
            forall|k1: int, k2: int| 0 <= k1 <= k2 < out@.len() ==> hash_le(out@[k1], out@[k2]),
            forall|k1: int, k2: int|
                #![trigger out@[k1], src@[k2]]
                0 <= k1 < out@.len() && 0 <= k2 < src@.len() ==> hash_le(out@[k1], src@[k2]),
            spec_entries_path_total(out@) + spec_entries_path_total(src@)
                == spec_entries_path_total(orig),
            spec_entries_size_total(out@) + spec_entries_size_total(src@)
                == spec_entries_size_total(orig),
        decreases src@.len(),
    {
        let m = min_by_hash(&src);
        let ghost src_pre = src@;
        let ghost out_pre = out@;
        let e = src.remove(m);
        proof {
            lemma_path_total_remove(src_pre, m as int);
            lemma_size_total_remove(src_pre, m as int);
            lemma_totals_push(out_pre, e);
        }
        out.push(e);
        proof {
            broadcast use vstd::seq_lib::group_to_multiset_ensures;
            broadcast use vstd::multiset::group_multiset_axioms;

            assert(src@.to_multiset() =~= src_pre.to_multiset().remove(src_pre[m as int]));
            assert(out@.to_multiset() =~= out_pre.to_multiset().insert(src_pre[m as int]));
            assert(src_pre.to_multiset().contains(src_pre[m as int]));
            assert(out@.to_multiset().add(src@.to_multiset()) =~= orig.to_multiset());
        }
    }
    proof {
        broadcast use vstd::multiset::group_multiset_axioms;

        vstd::multiset::lemma_multiset_empty_len(src@.to_multiset());
        assert(src@.to_multiset() =~= Multiset::<Entry>::empty());
        assert(out@.to_multiset() =~= orig.to_multiset());
    }
    out
}

/// Consecutive entries in an offset-sorted list leave no gap smaller than
/// the earlier entry's stored bytes.
pub open spec fn no_consecutive_overlap(s: Seq<Entry>) -> bool {
    forall|k: int|
        0 <= k && k + 1 < s.len() ==> (#[trigger] s[k]).data_offset + s[k].data_size <= s[k
            + 1].data_offset
}

/// Checks consecutive entries of an offset-sorted list for overlap.
fn check_no_overlap(v: &Vec<Entry>) -> (r: bool)
    ensures
        r == no_consecutive_overlap(v@),
{
    if v.len() == 0 {
        return true;
    }
    let mut i: usize = 0;
    while i + 1 < v.len()
        invariant
            i < v@.len(),
            v@.len() <= usize::MAX,
            forall|k: int|
                0 <= k < i ==> (#[trigger] v@[k]).data_offset + v@[k].data_size <= v@[k
                    + 1].data_offset,
        decreases v@.len() - i,
    {
        let end = v[i].data_offset as u64 + v[i].data_size as u64;
        if end > v[i + 1].data_offset as u64 {
            return false;
        }
        i = i + 1;
    }
    true
}


/// Lists that agree pointwise in paths and sizes have equal totals.
pub proof fn lemma_totals_pointwise(a: Seq<Entry>, b: Seq<Entry>)
    requires
        a.len() == b.len(),
        forall|k: int|
            0 <= k < a.len() ==> (#[trigger] a[k]).path@ == b[k].path@ && a[k].data_size == b[
                k].data_size,
    ensures
        spec_entries_path_total(a) == spec_entries_path_total(b),
        spec_entries_size_total(a) == spec_entries_size_total(b),
    decreases a.len(),
{
    if a.len() > 0 {
        lemma_totals_pointwise(a.drop_last(), b.drop_last());
    }
}

/// A take of one more element adds that element's contribution.
pub proof fn lemma_totals_take_step(s: Seq<Entry>, k: int)
    requires
        0 <= k < s.len(),
    ensures
        spec_entries_path_total(s.take(k + 1)) == spec_entries_path_total(s.take(k))
            + s[k].path@.len() + 1,
        spec_entries_size_total(s.take(k + 1)) == spec_entries_size_total(s.take(k)) + s[
            k].data_size,
{
    assert(s.take(k + 1).drop_last() =~= s.take(k));
    assert(s.take(k + 1).last() == s[k]);
}

/// Totals of prefixes never exceed the whole and are never negative.
pub proof fn lemma_totals_take_le(s: Seq<Entry>, k: int)
    requires
        0 <= k <= s.len(),
    ensures
        0 <= spec_entries_path_total(s.take(k)),
        0 <= spec_entries_size_total(s.take(k)),
        spec_entries_path_total(s.take(k)) <= spec_entries_path_total(s),
        spec_entries_size_total(s.take(k)) <= spec_entries_size_total(s),
    decreases s.len() - k,
{
    lemma_totals_nonneg(s.take(k));
    if k == s.len() {
        assert(s.take(k) =~= s);
    } else {
        lemma_totals_take_step(s, k);
        lemma_totals_take_le(s, k + 1);
        assert(s.take(k + 1)[k] == s[k]);
    }
}

/// Prefix size totals grow with the prefix.
pub proof fn lemma_size_total_take_mono(s: Seq<Entry>, k1: int, k2: int)
    requires
        0 <= k1 <= k2 <= s.len(),
    ensures
        spec_entries_size_total(s.take(k1)) <= spec_entries_size_total(s.take(k2)),
    decreases k2 - k1,
{
    if k1 < k2 {
        lemma_totals_take_step(s, k1);
        lemma_size_total_take_mono(s, k1 + 1, k2);
    }
}

/// Both totals are never negative.
pub proof fn lemma_totals_nonneg(s: Seq<Entry>)
    ensures
        0 <= spec_entries_path_total(s),
        0 <= spec_entries_size_total(s),
    decreases s.len(),
{
    if s.len() > 0 {
        lemma_totals_nonneg(s.drop_last());
    }
}

/// Every value of a multiset-equal list appears in the original list.
pub proof fn lemma_values_transfer(a: Seq<Entry>, b: Seq<Entry>)
    requires
        a.to_multiset() == b.to_multiset(),
    ensures
        forall|k: int| 0 <= k < b.len() ==> a.contains(#[trigger] b[k]),
{
    broadcast use vstd::seq_lib::group_to_multiset_ensures;

    assert forall|k: int| 0 <= k < b.len() implies a.contains(#[trigger] b[k]) by {
        assert(b.to_multiset().count(b[k]) > 0);
    }
}

/// Distinctness of paths carries over to any multiset-equal list.
pub proof fn lemma_distinct_paths_transfer(a: Seq<Entry>, b: Seq<Entry>)
    requires
        a.to_multiset() == b.to_multiset(),
        forall|k1: int, k2: int|
            #![trigger a[k1], a[k2]]
            0 <= k1 < k2 < a.len() ==> a[k1].path@ != a[k2].path@,
    ensures
        forall|k1: int, k2: int|
            #![trigger b[k1], b[k2]]
            0 <= k1 < k2 < b.len() ==> b[k1].path@ != b[k2].path@,
{
    broadcast use vstd::seq_lib::group_to_multiset_ensures;

    assert(a.no_duplicates()) by {
        assert forall|i: int, j: int|
            0 <= i < a.len() && 0 <= j < a.len() && i != j implies a[i] != a[j] by {
            if i < j {
                assert(a[i].path@ != a[j].path@);
            } else {
                assert(a[j].path@ != a[i].path@);
            }
        }
    }
    a.lemma_multiset_has_no_duplicates();
    b.lemma_multiset_has_no_duplicates_conv();
    lemma_values_transfer(a, b);
    assert forall|k1: int, k2: int|
        #![trigger b[k1], b[k2]]
        0 <= k1 < k2 < b.len() implies b[k1].path@ != b[k2].path@ by {
        if b[k1].path@ == b[k2].path@ {
            assert(b[k1] != b[k2]);
            assert(a.contains(b[k1]));
            assert(a.contains(b[k2]));
            let j1 = choose|j: int| 0 <= j < a.len() && a[j] == b[k1];
            let j2 = choose|j: int| 0 <= j < a.len() && a[j] == b[k2];
            assert(j1 != j2);
            if j1 < j2 {
                assert(a[j1].path@ != a[j2].path@);
            } else {
                assert(a[j2].path@ != a[j1].path@);
            }
            assert(false);
        }
    }
}

/// Computes the total path bytes (with terminators) of a list of entries.
fn entries_path_total(v: &Vec<Entry>) -> (r: u64)
    requires
        forall|k: int| 0 <= k < v@.len() ==> (#[trigger] v@[k]).path@.len() <= 0xFF_FFFF,
        v@.len() <= 0xCCC_CCCC,
    ensures
        r == spec_entries_path_total(v@),
{
    let mut acc: u64 = 0;
    let mut k: usize = 0;
    proof {
        assert(v@.take(0) =~= Seq::<Entry>::empty());
    }
    while k < v.len()
        invariant
            k <= v@.len(),
            v@.len() <= 0xCCC_CCCC,
            forall|k2: int| 0 <= k2 < v@.len() ==> (#[trigger] v@[k2]).path@.len() <= 0xFF_FFFF,
            acc == spec_entries_path_total(v@.take(k as int)),
            acc <= 0x100_0000 * (k as int),
        decreases v@.len() - k,
    {
        proof {
            lemma_totals_take_step(v@, k as int);
            assert(0x100_0000 * (k as int) + 0x100_0000 == 0x100_0000 * (k as int + 1))
                by (nonlinear_arith);
            assert(0x100_0000 * (k as int + 1) <= 0x100_0000 * 0xCCC_CCCD) by (nonlinear_arith)
                requires
                    k as int + 1 <= 0xCCC_CCCD,
            ;
        }
        acc = acc + (v[k].path.len() as u64) + 1;
        k = k + 1;
    }
    proof {
        assert(v@.take(v@.len() as int) =~= v@);
    }
    acc
}

/// Writes the packed path region at `new_pro`, assigning each entry its new
/// path offset in list order. Returns the entries with updated offsets and
/// the packed region's size.
#[verifier::rlimit(100)]
fn write_packed_paths(storage: &mut MemStorage, live: Vec<Entry>, new_pro: usize) -> (r: (
    Vec<Entry>,
    usize,
))
    requires
        forall|k: int|
            0 <= k < live@.len() ==> crate::state::path_bytes_ok((#[trigger] live@[k]).path@),
        new_pro + spec_entries_path_total(live@) <= old(storage)@.len(),
        old(storage)@.len() <= usize::MAX,
        spec_entries_path_total(live@) <= 0xFF_FFFF,
        0 <= new_pro,
    ensures
        r.1 == spec_entries_path_total(live@),
        final(storage)@.len() == old(storage)@.len(),
        forall|i: int|
            0 <= i < old(storage)@.len() && !(new_pro <= i < new_pro + r.1) ==> final(storage)@[i]
                == old(storage)@[i],
        r.0@.len() == live@.len(),
        forall|k: int|
            #![trigger r.0@[k]]
            0 <= k < live@.len() ==> {
                let e2 = r.0@[k];
                let e1 = live@[k];
                &&& e2.path@ == e1.path@
                &&& e2.path_hash == e1.path_hash
                &&& e2.data_offset == e1.data_offset
                &&& e2.data_size == e1.data_size
                &&& e2.unpacked_size == e1.unpacked_size
                &&& e2.deflated == e1.deflated
                &&& e2.relative_path_offset == spec_entries_path_total(live@.take(k))
                &&& e2.relative_path_offset + e2.path@.len() + 1 <= r.1
                &&& final(storage)@.subrange(
                    new_pro + e2.relative_path_offset,
                    new_pro + e2.relative_path_offset + e2.path@.len(),
                ) == e2.path@
                &&& final(storage)@[new_pro + e2.relative_path_offset + e2.path@.len()] == 0
            },
{
    let ghost orig = live@;
    let ghost b0 = old(storage)@;
    let n = live.len();
    let mut src = live;
    let mut out: Vec<Entry> = Vec::new();
    let mut ppos: usize = new_pro;
    let mut k: usize = 0;
    proof {
        assert(orig.take(0) =~= Seq::<Entry>::empty());
        assert(src@ =~= orig.subrange(0, n as int));
    }
    while k < n
        invariant
            k <= n,
            n == orig.len(),
            out@.len() == k,
            src@ =~= orig.subrange(k as int, n as int),
            forall|k2: int|
                0 <= k2 < orig.len() ==> crate::state::path_bytes_ok((#[trigger] orig[k2]).path@),
            new_pro + spec_entries_path_total(orig) <= b0.len(),
            b0.len() <= usize::MAX,
            spec_entries_path_total(orig) <= 0xFF_FFFF,
            ppos == new_pro + spec_entries_path_total(orig.take(k as int)),
            storage@.len() == b0.len(),
            forall|i: int| 0 <= i < b0.len() && !(new_pro <= i < ppos) ==> storage@[i] == b0[i],
            forall|k2: int|
                #![trigger out@[k2]]
                0 <= k2 < k ==> {
                    let e2 = out@[k2];
                    let e1 = orig[k2];
                    &&& e2.path@ == e1.path@
                    &&& e2.path_hash == e1.path_hash
                    &&& e2.data_offset == e1.data_offset
                    &&& e2.data_size == e1.data_size
                    &&& e2.unpacked_size == e1.unpacked_size
                    &&& e2.deflated == e1.deflated
                    &&& e2.relative_path_offset == spec_entries_path_total(orig.take(k2))
                    &&& new_pro + e2.relative_path_offset + e2.path@.len() + 1 <= ppos
                    &&& storage@.subrange(
                        new_pro + e2.relative_path_offset,
                        new_pro + e2.relative_path_offset + e2.path@.len(),
                    ) == e2.path@
                    &&& storage@[new_pro + e2.relative_path_offset + e2.path@.len()] == 0
                },
        decreases n - k,
    {
        proof {
            lemma_totals_take_step(orig, k as int);
            lemma_totals_take_le(orig, k as int + 1);
            lemma_totals_take_le(orig, k as int);
            assert(src@[0] == orig[k as int]);
        }
        let ghost b_pre = storage@;
        let e = src.remove(0);
        let plen = e.path.len();
        storage.write_at(ppos, e.path.as_slice());
        storage.write_u8(ppos + plen, 0);
        let rel: u32 = (ppos - new_pro) as u32;
        let e2 = Entry {
            path_hash: e.path_hash,
            relative_path_offset: rel,
            path: e.path,
            data_offset: e.data_offset,
            data_size: e.data_size,
            unpacked_size: e.unpacked_size,
            deflated: e.deflated,
        };
        out.push(e2);
        ppos = ppos + plen + 1;
        k = k + 1;
        proof {
            assert(src@ =~= orig.subrange(k as int, n as int));
            assert forall|k2: int|
                #![trigger out@[k2]]
                0 <= k2 < k implies {
                let e3 = out@[k2];
                let e1 = orig[k2];
                &&& e3.path@ == e1.path@
                &&& e3.path_hash == e1.path_hash
                &&& e3.data_offset == e1.data_offset
                &&& e3.data_size == e1.data_size
                &&& e3.unpacked_size == e1.unpacked_size
                &&& e3.deflated == e1.deflated
                &&& e3.relative_path_offset == spec_entries_path_total(orig.take(k2))
                &&& new_pro + e3.relative_path_offset + e3.path@.len() + 1 <= ppos
                &&& storage@.subrange(
                    new_pro + e3.relative_path_offset,
                    new_pro + e3.relative_path_offset + e3.path@.len(),
                ) == e3.path@
                &&& storage@[new_pro + e3.relative_path_offset + e3.path@.len()] == 0
            } by {
                if k2 < k - 1 {
                    let e3 = out@[k2];
                    crate::state::lemma_subrange_frame(
                        b_pre,
                        storage@,
                        new_pro + e3.relative_path_offset,
                        new_pro + e3.relative_path_offset + e3.path@.len(),
                    );
                } else {
                    let e3 = out@[k2];
                    assert(e3.path@ == orig[k2].path@);
                    assert(storage@.subrange(
                        new_pro + e3.relative_path_offset,
                        new_pro + e3.relative_path_offset + e3.path@.len(),
                    ) =~= e3.path@);
                }
            }
        }
    }
    proof {
        assert(orig.take(n as int) =~= orig);
        lemma_totals_nonneg(orig);
        lemma_totals_take_le(orig, n as int);
    }
    (out, ppos - new_pro)
}

/// Packs the data region: each blob moves down to the running cursor, in
/// offset order. Returns the entries with their new offsets and the end of
/// the packed data.
#[verifier::rlimit(100)]
fn defrag(storage: &mut MemStorage, live: Vec<Entry>, new_dro: usize) -> (r: (Vec<Entry>, usize))
    requires
        forall|k1: int, k2: int| 0 <= k1 <= k2 < live@.len() ==> off_le(live@[k1], live@[k2]),
        no_consecutive_overlap(live@),
        forall|k: int|
            0 <= k < live@.len() ==> new_dro <= (#[trigger] live@[k]).data_offset && live@[
                k].data_offset + live@[k].data_size <= old(storage)@.len(),
        new_dro <= old(storage)@.len(),
        old(storage)@.len() <= usize::MAX,
    ensures
        final(storage)@.len() == old(storage)@.len(),
        r.1 == new_dro + spec_entries_size_total(live@),
        r.1 <= old(storage)@.len(),
        forall|i: int|
            0 <= i < old(storage)@.len() && !(new_dro <= i < r.1) ==> final(storage)@[i] == old(
                storage,
            )@[i],
        r.0@.len() == live@.len(),
        forall|k: int|
            #![trigger r.0@[k]]
            0 <= k < live@.len() ==> {
                let e2 = r.0@[k];
                let e1 = live@[k];
                &&& e2.path@ == e1.path@
                &&& e2.path_hash == e1.path_hash
                &&& e2.relative_path_offset == e1.relative_path_offset
                &&& e2.data_size == e1.data_size
                &&& e2.unpacked_size == e1.unpacked_size
                &&& e2.deflated == e1.deflated
                &&& e2.data_offset == new_dro + spec_entries_size_total(live@.take(k))
                &&& e2.data_offset + e2.data_size <= r.1
                &&& final(storage)@.subrange(e2.data_offset as int, e2.data_offset + e2.data_size)
                    == old(storage)@.subrange(e1.data_offset as int, e1.data_offset + e1.data_size)
            },
{
    let ghost orig = live@;
    let ghost b0 = old(storage)@;
    let n = live.len();
    let mut src = live;
    let mut out: Vec<Entry> = Vec::new();
    let mut cursor: usize = new_dro;
    let mut k: usize = 0;
    proof {
        assert(orig.take(0) =~= Seq::<Entry>::empty());
        assert(src@ =~= orig.subrange(0, n as int));
    }
    while k < n
        invariant
            k <= n,
            n == orig.len(),
            out@.len() == k,
            src@ =~= orig.subrange(k as int, n as int),
            forall|k1: int, k2: int| 0 <= k1 <= k2 < orig.len() ==> off_le(orig[k1], orig[k2]),
            no_consecutive_overlap(orig),
            forall|k2: int|
                0 <= k2 < orig.len() ==> new_dro <= (#[trigger] orig[k2]).data_offset && orig[
                    k2].data_offset + orig[k2].data_size <= b0.len(),
            new_dro <= b0.len(),
            b0.len() <= usize::MAX,
            cursor == new_dro + spec_entries_size_total(orig.take(k as int)),
            cursor <= b0.len(),
            k < n ==> cursor <= orig[k as int].data_offset,
            storage@.len() == b0.len(),
            forall|i: int| 0 <= i < b0.len() && !(new_dro <= i < cursor) ==> storage@[i] == b0[i],
            forall|k2: int|
                #![trigger out@[k2]]
                0 <= k2 < k ==> {
                    let e2 = out@[k2];
                    let e1 = orig[k2];
                    &&& e2.path@ == e1.path@
                    &&& e2.path_hash == e1.path_hash
                    &&& e2.relative_path_offset == e1.relative_path_offset
                    &&& e2.data_size == e1.data_size
                    &&& e2.unpacked_size == e1.unpacked_size
                    &&& e2.deflated == e1.deflated
                    &&& e2.data_offset == new_dro + spec_entries_size_total(orig.take(k2))
                    &&& e2.data_offset + e2.data_size <= cursor
                    &&& storage@.subrange(e2.data_offset as int, e2.data_offset + e2.data_size)
                        == b0.subrange(e1.data_offset as int, e1.data_offset + e1.data_size)
                },
        decreases n - k,
    {
        proof {
            lemma_totals_take_step(orig, k as int);
            lemma_totals_take_le(orig, k as int + 1);
            lemma_totals_take_le(orig, k as int);
            assert(src@[0] == orig[k as int]);
        }
        let ghost b_pre = storage@;
        let e = src.remove(0);
        let size = e.data_size as usize;
        let old_off = e.data_offset as usize;
        proof {
            // the source bytes are still the original ones: they lie at or
            // above the current entry's offset, which the cursor has not
            // passed
            crate::state::lemma_subrange_frame(b0, b_pre, old_off as int, old_off + size);
        }
        proof {
            assert(cursor <= old_off);
            assert(cursor + size <= b0.len());
        }
        storage.copy_within(old_off, size, cursor);
        let e2 = Entry {
            path_hash: e.path_hash,
            relative_path_offset: e.relative_path_offset,
            path: e.path,
            data_offset: cursor as u32,
            data_size: e.data_size,
            unpacked_size: e.unpacked_size,
            deflated: e.deflated,
        };
        out.push(e2);
        let ghost cursor_pre = cursor as int;
        cursor = cursor + size;
        k = k + 1;
        proof {
            assert(src@ =~= orig.subrange(k as int, n as int));
            if k < n {
                assert(orig[k as int - 1].data_offset + orig[k as int - 1].data_size <= orig[
                    k as int].data_offset);
                assert(cursor <= orig[k as int].data_offset);
            }
            assert forall|k2: int|
                #![trigger out@[k2]]
                0 <= k2 < k implies {
                let e3 = out@[k2];
                let e1 = orig[k2];
                &&& e3.path@ == e1.path@
                &&& e3.path_hash == e1.path_hash
                &&& e3.relative_path_offset == e1.relative_path_offset
                &&& e3.data_size == e1.data_size
                &&& e3.unpacked_size == e1.unpacked_size
                &&& e3.deflated == e1.deflated
                &&& e3.data_offset == new_dro + spec_entries_size_total(orig.take(k2))
                &&& e3.data_offset + e3.data_size <= cursor
                &&& storage@.subrange(e3.data_offset as int, e3.data_offset + e3.data_size)
                    == b0.subrange(e1.data_offset as int, e1.data_offset + e1.data_size)
            } by {
                let e3 = out@[k2];
                if k2 < k - 1 {
                    crate::state::lemma_subrange_frame(
                        b_pre,
                        storage@,
                        e3.data_offset as int,
                        e3.data_offset + e3.data_size,
                    );
                } else {
                    assert(storage@.subrange(cursor_pre, cursor_pre + size as int)
                        == b_pre.subrange(old_off as int, old_off + size));
                    assert(b_pre.subrange(old_off as int, old_off + size) == b0.subrange(
                        old_off as int,
                        old_off + size,
                    ));
                }
            }
        }
    }
    proof {
        assert(orig.take(n as int) =~= orig);
    }
    (out, cursor)
}


/// Writes every entry's record into the table, in list order.
#[verifier::rlimit(100)]
fn write_records_all(storage: &mut MemStorage, live: &Vec<Entry>)
    requires
        forall|k: int|
            0 <= k < live@.len() ==> (#[trigger] live@[k]).relative_path_offset < 0x0100_0000,
        16 + 20 * (live@.len() as int) <= old(storage)@.len(),
        old(storage)@.len() <= usize::MAX,
    ensures
        final(storage)@.len() == old(storage)@.len(),
        forall|i: int|
            0 <= i < old(storage)@.len() && !(16 <= i < 16 + 20 * (live@.len() as int))
                ==> final(storage)@[i] == old(storage)@[i],
        forall|k: int|
            0 <= k < live@.len() ==> final(storage)@.subrange(16 + 20 * k, 16 + 20 * k + 20) == (
            #[trigger] live@[k]).record_bytes(),
{
    let ghost b0 = old(storage)@;
    let n = live.len();
    let mut k: usize = 0;
    while k < n
        invariant
            k <= n,
            n == live@.len(),
            forall|k2: int|
                0 <= k2 < n ==> (#[trigger] live@[k2]).relative_path_offset < 0x0100_0000,
            16 + 20 * (n as int) <= b0.len(),
            b0.len() <= usize::MAX,
            storage@.len() == b0.len(),
            forall|i: int|
                0 <= i < b0.len() && !(16 <= i < 16 + 20 * (k as int)) ==> storage@[i] == b0[i],
            forall|k2: int|
                0 <= k2 < k ==> storage@.subrange(16 + 20 * k2, 16 + 20 * k2 + 20) == (
                #[trigger] live@[k2]).record_bytes(),
        decreases n - k,
    {
        proof {
            crate::state::lemma_record_range(n as int, k as int);
        }
        let ghost b_pre = storage@;
        crate::write::write_record(storage, k, &live[k]);
        k = k + 1;
        proof {
            assert forall|k2: int|
                0 <= k2 < k implies storage@.subrange(16 + 20 * k2, 16 + 20 * k2 + 20) == (
            #[trigger] live@[k2]).record_bytes() by {
                if k2 < k - 1 {
                    crate::state::lemma_record_range(n as int, k2);
                    crate::state::lemma_subrange_frame(
                        b_pre,
                        storage@,
                        16 + 20 * k2,
                        16 + 20 * k2 + 20,
                    );
                }
            }
        }
    }
}

/// Wraps each entry into an occupied slot, keeping the order.
fn to_slots(live: Vec<Entry>) -> (r: Vec<Option<Entry>>)
    ensures
        r@.len() == live@.len(),
        forall|k: int| 0 <= k < live@.len() ==> r@[k] == Some(live@[k]),
{
    let ghost orig = live@;
    let n = live.len();
    let mut src = live;
    let mut out: Vec<Option<Entry>> = Vec::new();
    let mut k: usize = 0;
    proof {
        assert(src@ =~= orig.subrange(0, n as int));
    }
    while k < n
        invariant
            k <= n,
            n == orig.len(),
            out@.len() == k,
            src@ =~= orig.subrange(k as int, n as int),
            forall|k2: int| 0 <= k2 < k ==> out@[k2] == Some(orig[k2]),
        decreases n - k,
    {
        proof {
            assert(src@[0] == orig[k as int]);
        }
        let e = src.remove(0);
        out.push(Some(e));
        k = k + 1;
        proof {
            assert(src@ =~= orig.subrange(k as int, n as int));
        }
    }
    out
}

/// The occupied-slot count never exceeds the slot count.
proof fn lemma_occ_count_le(s: &PkgState, lo: int)
    ensures
        spec_occ_count_from(s, lo) <= s.entries@.len() - lo || spec_occ_count_from(s, lo) == 0,
        0 <= spec_occ_count_from(s, lo),
    decreases s.entries@.len() - lo,
{
    if 0 <= lo && lo < s.entries@.len() {
        lemma_occ_count_le(s, lo + 1);
    }
}



/// Concatenation splits both totals.
pub proof fn lemma_totals_concat(a: Seq<Entry>, b: Seq<Entry>)
    ensures
        spec_entries_path_total(a + b) == spec_entries_path_total(a) + spec_entries_path_total(b),
        spec_entries_size_total(a + b) == spec_entries_size_total(a) + spec_entries_size_total(b),
    decreases b.len(),
{
    if b.len() == 0 {
        assert(a + b =~= a);
    } else {
        lemma_totals_concat(a, b.drop_last());
        assert((a + b).drop_last() =~= a + b.drop_last());
        assert((a + b).last() == b.last());
    }
}

/// A state whose slots are exactly a list of entries has that list's totals.
pub proof fn lemma_sums_of_slots(live: Seq<Entry>, s: &PkgState, lo: int)
    requires
        s.entries@.len() == live.len(),
        forall|k: int| 0 <= k < live.len() ==> s.entries@[k] == Some(live[k]),
        0 <= lo <= live.len(),
    ensures
        s.spec_sum_sizes_from(lo) == spec_entries_size_total(live.skip(lo)),
        spec_path_total_from(s, lo) == spec_entries_path_total(live.skip(lo)),
    decreases live.len() - lo,
{
    if lo == live.len() {
        assert(live.skip(lo) =~= Seq::<Entry>::empty());
    } else {
        lemma_sums_of_slots(live, s, lo + 1);
        assert(live.skip(lo) =~= seq![live[lo]] + live.skip(lo + 1));
        lemma_totals_concat(seq![live[lo]], live.skip(lo + 1));
        assert(seq![live[lo]].len() == 1);
        assert(seq![live[lo]].last() == live[lo]);
        assert(seq![live[lo]].drop_last() =~= Seq::<Entry>::empty());
        assert(spec_entries_size_total(seq![live[lo]].drop_last()) == 0);
        assert(spec_entries_path_total(seq![live[lo]].drop_last()) == 0);
        assert(spec_entries_size_total(seq![live[lo]]) == live[lo].data_size);
        assert(spec_entries_path_total(seq![live[lo]]) == live[lo].path@.len() + 1);
        assert(s.occupied(lo));
        assert(s.entry_at(lo) == live[lo]);
    }
}

/// The geometric half of the repack commit: the rebuilt state encodes the
/// truncated bytes.
#[verifier::rlimit(100)]
proof fn lemma_repack_encodes(
    s0: &PkgState,
    post: &PkgState,
    b0: Seq<u8>,
    b_a: Seq<u8>,
    b_b: Seq<u8>,
    b_d1: Seq<u8>,
    b_d2: Seq<u8>,
    b_d3: Seq<u8>,
    b_f: Seq<u8>,
    l1: Seq<Entry>,
    l2: Seq<Entry>,
    l3: Seq<Entry>,
    l4: Seq<Entry>,
    new_pro: int,
    new_dro: int,
    prs_new: int,
    data_end: int,
)
    requires
        s0.encodes(b0),
        // the compacted, offset-sorted list and its relation to the state
        covers(l1, s0),
        // geometry
        l4.len() == l1.len(),
        new_pro == 16 + 20 * l1.len(),
        new_dro == new_pro + prs_new,
        prs_new == spec_entries_path_total(l1),
        0 <= prs_new <= 0xFF_FFFF,
        new_dro <= s0.spec_data_region_offset(),
        data_end == new_dro + spec_entries_size_total(l2),
        new_dro <= data_end <= b0.len(),
        // phase A: packed path region
        b_a.len() == b0.len(),
        forall|i: int| 0 <= i < b0.len() && !(new_pro <= i < new_dro) ==> b_a[i] == b0[i],
        l2.len() == l1.len(),
        forall|k: int|
            #![trigger l2[k]]
            0 <= k < l1.len() ==> {
                let e2 = l2[k];
                let e1 = l1[k];
                &&& e2.path@ == e1.path@
                &&& e2.path_hash == e1.path_hash
                &&& e2.data_offset == e1.data_offset
                &&& e2.data_size == e1.data_size
                &&& e2.unpacked_size == e1.unpacked_size
                &&& e2.deflated == e1.deflated
                &&& e2.relative_path_offset + e2.path@.len() + 1 <= prs_new
                &&& b_a.subrange(
                    new_pro + e2.relative_path_offset,
                    new_pro + e2.relative_path_offset + e2.path@.len(),
                ) == e2.path@
                &&& b_a[new_pro + e2.relative_path_offset + e2.path@.len()] == 0
            },
        // phase B: packed data region
        b_b.len() == b_a.len(),
        forall|i: int| 0 <= i < b_a.len() && !(new_dro <= i < data_end) ==> b_b[i] == b_a[i],
        l3.len() == l2.len(),
        forall|k: int|
            #![trigger l3[k]]
            0 <= k < l2.len() ==> {
                let e3 = l3[k];
                let e2 = l2[k];
                &&& e3.path@ == e2.path@
                &&& e3.path_hash == e2.path_hash
                &&& e3.relative_path_offset == e2.relative_path_offset
                &&& e3.data_size == e2.data_size
                &&& e3.unpacked_size == e2.unpacked_size
                &&& e3.deflated == e2.deflated
                &&& e3.data_offset == new_dro + spec_entries_size_total(l2.take(k))
                &&& new_dro <= e3.data_offset
                &&& e3.data_offset + e3.data_size <= data_end
                &&& b_b.subrange(e3.data_offset as int, e3.data_offset + e3.data_size)
                    == b_a.subrange(e2.data_offset as int, e2.data_offset + e2.data_size)
            },
        // phase C: hash sort
        forall|k: int| 0 <= k < l4.len() ==> l3.contains(#[trigger] l4[k]),
        forall|k: int| 0 <= k < l3.len() ==> l4.contains(#[trigger] l3[k]),
        forall|k1: int, k2: int|
            #![trigger l4[k1], l4[k2]]
            0 <= k1 < k2 < l4.len() ==> l4[k1].path@ != l4[k2].path@,
        forall|k1: int, k2: int| 0 <= k1 <= k2 < l4.len() ==> hash_le(l4[k1], l4[k2]),
        spec_entries_size_total(l4) == spec_entries_size_total(l2),
        spec_entries_path_total(l4) == spec_entries_path_total(l1),
        // phase D: header counts and records
        b_d1.len() == b_b.len(),
        forall|i: int| 0 <= i < b_b.len() && !(8 <= i < 12) ==> b_d1[i] == b_b[i],
        crate::codec::be32_at(b_d1, 8) == l4.len(),
        b_d2.len() == b_d1.len(),
        forall|i: int| 0 <= i < b_d1.len() && !(12 <= i < 16) ==> b_d2[i] == b_d1[i],
        crate::codec::be32_at(b_d2, 12) == prs_new,
        b_d3.len() == b_d2.len(),
        forall|i: int| 0 <= i < b_d2.len() && !(16 <= i < new_pro) ==> b_d3[i] == b_d2[i],
        forall|k: int|
            0 <= k < l4.len() ==> b_d3.subrange(16 + 20 * k, 16 + 20 * k + 20) == (
            #[trigger] l4[k]).record_bytes(),
        // phase E: truncation
        b_f == b_d3.take(data_end),
        // the rebuilt state
        post.entries@.len() == l4.len(),
        forall|k: int| 0 <= k < l4.len() ==> post.entries@[k] == Some(l4[k]),
        post.path_region_size == prs_new,
        post.path_region_empty_offset == prs_new,
    ensures
        post.encodes(b_f),
        forall|j: int| 0 <= j < post.entries@.len() ==> post.occupied(j),
        b_f.len() == post.spec_data_region_offset() + post.spec_data_total(),
        post.path_region_size == spec_path_total_from(post, 0),
        forall|i: int, j: int|
            #![trigger post.entry_at(i), post.entry_at(j)]
            post.occupied(i) && post.occupied(j) && i != j
                ==> (post.entry_at(i).data_offset + post.entry_at(i).data_size <= post.entry_at(
                    j,
                ).data_offset || post.entry_at(j).data_offset + post.entry_at(j).data_size
                    <= post.entry_at(i).data_offset),
{
    let n = l4.len() as int;
    assert(post.spec_path_region_offset() == new_pro);
    assert(post.spec_data_region_offset() == new_dro);
    assert(b_f.len() == data_end);

    assert forall|j: int| 0 <= j < n implies #[trigger] post.occupied(j) && post.entry_at(j)
        == l4[j] by {}

    assert forall|i: int| 0 <= i < 8 implies b_f[i] == b0[i] by {}
    assert forall|i: int| new_pro <= i < new_dro implies b_f[i] == b_a[i] by {}
    assert forall|i: int| new_dro <= i < data_end implies b_f[i] == b_b[i] by {}

    assert forall|j: int| post.occupied(j) implies #[trigger] post.entry_wf(j) by {
        assert(l3.contains(l4[j]));
        let k3 = choose|k3: int| 0 <= k3 < l3.len() && l3[k3] == l4[j];
        assert(l2[k3].relative_path_offset + l2[k3].path@.len() + 1 <= prs_new);
        assert(l3[k3].data_offset >= new_dro);
        assert(new_dro >= 16);
        assert(crate::state::path_bytes_ok(l2[k3].path@)) by {
            assert(stands_for_slot(l1[k3], s0));
            let j0 = choose|j0: int|
                s0.occupied(j0) && corresponds(l1[k3], #[trigger] s0.entry_at(j0));
            assert(s0.entry_wf(j0));
        }
    }
    assert(post.wf());

    assert(b_f.subrange(0, 4) =~= b0.subrange(0, 4));
    crate::codec::lemma_be16_at_frame(b0, b_f, 4);
    crate::codec::lemma_be16_at_frame(b0, b_f, 6);
    crate::codec::lemma_be32_at_frame(b_d1, b_f, 8);
    crate::codec::lemma_be32_at_frame(b_d2, b_f, 12);

    assert forall|j: int| 0 <= j < n implies #[trigger] post.record_encoded(b_f, j) by {
        crate::state::lemma_record_range(n, j);
        crate::state::lemma_subrange_frame(b_d3, b_f, 16 + 20 * j, 16 + 20 * j + 20);
    }

    assert forall|j: int| post.occupied(j) implies #[trigger] post.path_region_encoded(
        b_f,
        j,
    ) by {
        assert(l3.contains(l4[j]));
        let k3 = choose|k3: int| 0 <= k3 < l3.len() && l3[k3] == l4[j];
        let e2 = l2[k3];
        let start = new_pro + e2.relative_path_offset;
        assert(l4[j].relative_path_offset == e2.relative_path_offset);
        assert(l4[j].path@ == e2.path@);
        crate::state::lemma_subrange_frame(b_a, b_f, start, start + e2.path@.len());
        assert(b_f[start + e2.path@.len()] == b_a[start + e2.path@.len()]);
    }

    assert forall|j: int| post.occupied(j) implies #[trigger] post.data_range_ok(
        b_f.len() as int,
        j,
    ) by {
        assert(l3.contains(l4[j]));
        let k3 = choose|k3: int| 0 <= k3 < l3.len() && l3[k3] == l4[j];
        assert(l3[k3].data_offset >= new_dro);
        assert(l3[k3].data_offset + l3[k3].data_size <= data_end);
    }
    assert(post.encodes(b_f));

    lemma_sums_of_slots(l4, post, 0);
    assert(l4.skip(0) =~= l4);

    // the packed blobs tile the data region, so no two ranges overlap
    assert forall|i: int, j: int|
        #![trigger post.entry_at(i), post.entry_at(j)]
        post.occupied(i) && post.occupied(j) && i != j implies (post.entry_at(i).data_offset
        + post.entry_at(i).data_size <= post.entry_at(j).data_offset || post.entry_at(
        j,
    ).data_offset + post.entry_at(j).data_size <= post.entry_at(i).data_offset) by {
        assert(l3.contains(l4[i]));
        let ki = choose|k: int| 0 <= k < l3.len() && l3[k] == l4[i];
        assert(l3.contains(l4[j]));
        let kj = choose|k: int| 0 <= k < l3.len() && l3[k] == l4[j];
        assert(l4[i].path@ != l4[j].path@);
        assert(ki != kj);
        if ki < kj {
            lemma_totals_take_step(l2, ki);
            lemma_size_total_take_mono(l2, ki + 1, kj);
            assert(l3[ki].data_size == l2[ki].data_size);
            assert(l3[ki].data_offset + l3[ki].data_size <= l3[kj].data_offset);
        } else {
            lemma_totals_take_step(l2, kj);
            lemma_size_total_take_mono(l2, kj + 1, ki);
            assert(l3[kj].data_size == l2[kj].data_size);
            assert(l3[kj].data_offset + l3[kj].data_size <= l3[ki].data_offset);
        }
    }
}

/// The content half of the repack commit: the rebuilt state holds the same
/// logical content, and keeps correct hashes.
#[verifier::rlimit(100)]
proof fn lemma_repack_content(
    s0: &PkgState,
    post: &PkgState,
    b0: Seq<u8>,
    b_a: Seq<u8>,
    b_b: Seq<u8>,
    b_d1: Seq<u8>,
    b_d2: Seq<u8>,
    b_d3: Seq<u8>,
    b_f: Seq<u8>,
    l1: Seq<Entry>,
    l2: Seq<Entry>,
    l3: Seq<Entry>,
    l4: Seq<Entry>,
    new_pro: int,
    new_dro: int,
    prs_new: int,
    data_end: int,
)
    requires
        s0.encodes(b0),
        // the compacted, offset-sorted list and its relation to the state
        covers(l1, s0),
        // geometry
        l4.len() == l1.len(),
        new_pro == 16 + 20 * l1.len(),
        new_dro == new_pro + prs_new,
        prs_new == spec_entries_path_total(l1),
        0 <= prs_new <= 0xFF_FFFF,
        new_dro <= s0.spec_data_region_offset(),
        data_end == new_dro + spec_entries_size_total(l2),
        new_dro <= data_end <= b0.len(),
        // phase A: packed path region
        b_a.len() == b0.len(),
        forall|i: int| 0 <= i < b0.len() && !(new_pro <= i < new_dro) ==> b_a[i] == b0[i],
        l2.len() == l1.len(),
        forall|k: int|
            #![trigger l2[k]]
            0 <= k < l1.len() ==> {
                let e2 = l2[k];
                let e1 = l1[k];
                &&& e2.path@ == e1.path@
                &&& e2.path_hash == e1.path_hash
                &&& e2.data_offset == e1.data_offset
                &&& e2.data_size == e1.data_size
                &&& e2.unpacked_size == e1.unpacked_size
                &&& e2.deflated == e1.deflated
                &&& e2.relative_path_offset + e2.path@.len() + 1 <= prs_new
                &&& b_a.subrange(
                    new_pro + e2.relative_path_offset,
                    new_pro + e2.relative_path_offset + e2.path@.len(),
                ) == e2.path@
                &&& b_a[new_pro + e2.relative_path_offset + e2.path@.len()] == 0
            },
        // phase B: packed data region
        b_b.len() == b_a.len(),
        forall|i: int| 0 <= i < b_a.len() && !(new_dro <= i < data_end) ==> b_b[i] == b_a[i],
        l3.len() == l2.len(),
        forall|k: int|
            #![trigger l3[k]]
            0 <= k < l2.len() ==> {
                let e3 = l3[k];
                let e2 = l2[k];
                &&& e3.path@ == e2.path@
                &&& e3.path_hash == e2.path_hash
                &&& e3.relative_path_offset == e2.relative_path_offset
                &&& e3.data_size == e2.data_size
                &&& e3.unpacked_size == e2.unpacked_size
                &&& e3.deflated == e2.deflated
                &&& e3.data_offset == new_dro + spec_entries_size_total(l2.take(k))
                &&& new_dro <= e3.data_offset
                &&& e3.data_offset + e3.data_size <= data_end
                &&& b_b.subrange(e3.data_offset as int, e3.data_offset + e3.data_size)
                    == b_a.subrange(e2.data_offset as int, e2.data_offset + e2.data_size)
            },
        // phase C: hash sort
        forall|k: int| 0 <= k < l4.len() ==> l3.contains(#[trigger] l4[k]),
        forall|k: int| 0 <= k < l3.len() ==> l4.contains(#[trigger] l3[k]),
        forall|k1: int, k2: int|
            #![trigger l4[k1], l4[k2]]
            0 <= k1 < k2 < l4.len() ==> l4[k1].path@ != l4[k2].path@,
        forall|k1: int, k2: int| 0 <= k1 <= k2 < l4.len() ==> hash_le(l4[k1], l4[k2]),
        spec_entries_size_total(l4) == spec_entries_size_total(l2),
        spec_entries_path_total(l4) == spec_entries_path_total(l1),
        // phase D: header counts and records
        b_d1.len() == b_b.len(),
        forall|i: int| 0 <= i < b_b.len() && !(8 <= i < 12) ==> b_d1[i] == b_b[i],
        crate::codec::be32_at(b_d1, 8) == l4.len(),
        b_d2.len() == b_d1.len(),
        forall|i: int| 0 <= i < b_d1.len() && !(12 <= i < 16) ==> b_d2[i] == b_d1[i],
        crate::codec::be32_at(b_d2, 12) == prs_new,
        b_d3.len() == b_d2.len(),
        forall|i: int| 0 <= i < b_d2.len() && !(16 <= i < new_pro) ==> b_d3[i] == b_d2[i],
        forall|k: int|
            0 <= k < l4.len() ==> b_d3.subrange(16 + 20 * k, 16 + 20 * k + 20) == (
            #[trigger] l4[k]).record_bytes(),
        // phase E: truncation
        b_f == b_d3.take(data_end),
        // the rebuilt state
        post.entries@.len() == l4.len(),
        forall|k: int| 0 <= k < l4.len() ==> post.entries@[k] == Some(l4[k]),
        post.path_region_size == prs_new,
        post.path_region_empty_offset == prs_new,
        post.wf(),
    ensures
        post.view_of(b_f) == s0.view_of(b0),
        s0.hashes_ok() ==> post.hashes_ok(),
{
    let n = l4.len() as int;
    assert(post.spec_path_region_offset() == new_pro);
    assert(post.spec_data_region_offset() == new_dro);
    assert(b_f.len() == data_end);
    assert forall|j: int| 0 <= j < n implies #[trigger] post.occupied(j) && post.entry_at(j)
        == l4[j] by {}
    assert forall|i: int| new_pro <= i < new_dro implies b_f[i] == b_a[i] by {}
    assert forall|i: int| new_dro <= i < data_end implies b_f[i] == b_b[i] by {}

    assert forall|j: int| post.occupied(j) implies exists|j0: int|
        #![all_triggers]
        s0.occupied(j0) && s0.entry_at(j0).path@ == post.entry_at(j).path@ && s0.entry_at(
            j0,
        ).deflated == post.entry_at(j).deflated && s0.entry_at(j0).unpacked_size == post.entry_at(
            j,
        ).unpacked_size && s0.entry_at(j0).path_hash == post.entry_at(j).path_hash
            && s0.stored_of(b0, j0) == post.stored_of(b_f, j) by {
        assert(l3.contains(l4[j]));
        let k3 = choose|k3: int| 0 <= k3 < l3.len() && l3[k3] == l4[j];
        assert(stands_for_slot(l1[k3], s0));
        let j0 = choose|j0: int|
            s0.occupied(j0) && corresponds(l1[k3], #[trigger] s0.entry_at(j0));
        let e3 = l3[k3];
        let e2 = l2[k3];
        let e1 = l1[k3];
        assert(s0.data_range_ok(b0.len() as int, j0));
        crate::state::lemma_subrange_frame(
            b_b,
            b_f,
            e3.data_offset as int,
            e3.data_offset + e3.data_size,
        );
        assert(b_b.subrange(e3.data_offset as int, e3.data_offset + e3.data_size)
            == b_a.subrange(e2.data_offset as int, e2.data_offset + e2.data_size));
        assert(e2.data_offset == e1.data_offset && e1.data_offset
            >= s0.spec_data_region_offset());
        crate::state::lemma_subrange_frame(
            b0,
            b_a,
            e2.data_offset as int,
            e2.data_offset + e2.data_size,
        );
        assert(post.stored_of(b_f, j) == s0.stored_of(b0, j0));
        assert(s0.occupied(j0) && s0.entry_at(j0).path@ == post.entry_at(j).path@
            && s0.entry_at(j0).deflated == post.entry_at(j).deflated && s0.entry_at(
            j0,
        ).unpacked_size == post.entry_at(j).unpacked_size && s0.entry_at(j0).path_hash
            == post.entry_at(j).path_hash && s0.stored_of(b0, j0) == post.stored_of(b_f, j));
    }

    assert forall|p: Seq<u8>| s0.has_path(p) == post.has_path(p) by {
        if s0.has_path(p) {
            let j0 = choose|j0: int| s0.occupied(j0) && s0.entry_at(j0).path@ == p;
            assert(listed(s0.entry_at(j0), l1));
            let k1 = choose|k1: int|
                0 <= k1 < l1.len() && corresponds(#[trigger] l1[k1], s0.entry_at(j0));
            assert(l3[k1].path@ == p);
            assert(l4.contains(l3[k1]));
            let m = choose|m: int| 0 <= m < l4.len() && l4[m] == l3[k1];
            assert(post.occupied(m) && post.entry_at(m).path@ == p);
        }
        if post.has_path(p) {
            let j = choose|j: int| post.occupied(j) && post.entry_at(j).path@ == p;
            let j0 = choose|j0: int|
                #![all_triggers]
                s0.occupied(j0) && s0.entry_at(j0).path@ == post.entry_at(j).path@ && s0.entry_at(
                    j0,
                ).deflated == post.entry_at(j).deflated && s0.entry_at(j0).unpacked_size
                    == post.entry_at(j).unpacked_size && s0.entry_at(j0).path_hash == post.entry_at(
                    j,
                ).path_hash && s0.stored_of(b0, j0) == post.stored_of(b_f, j);
            assert(s0.occupied(j0) && s0.entry_at(j0).path@ == p);
        }
    }
    assert forall|j: int| post.occupied(j) implies exists|k: int|
        #![all_triggers]
        s0.occupied(k) && s0.entry_at(k).path@ == post.entry_at(j).path@ && s0.entry_at(
            k,
        ).deflated == post.entry_at(j).deflated && s0.entry_at(k).unpacked_size == post.entry_at(
            j,
        ).unpacked_size && s0.stored_of(b0, k) == post.stored_of(b_f, j) by {
        let j0 = choose|j0: int|
            #![all_triggers]
            s0.occupied(j0) && s0.entry_at(j0).path@ == post.entry_at(j).path@ && s0.entry_at(
                j0,
            ).deflated == post.entry_at(j).deflated && s0.entry_at(j0).unpacked_size
                == post.entry_at(j).unpacked_size && s0.entry_at(j0).path_hash == post.entry_at(
                j,
            ).path_hash && s0.stored_of(b0, j0) == post.stored_of(b_f, j);
        assert(s0.occupied(j0) && s0.entry_at(j0).path@ == post.entry_at(j).path@ && s0.entry_at(
            j0,
        ).deflated == post.entry_at(j).deflated && s0.entry_at(j0).unpacked_size == post.entry_at(
            j,
        ).unpacked_size && s0.stored_of(b0, j0) == post.stored_of(b_f, j));
    }
    crate::layout::lemma_view_eq_same_content(s0, post, b0, b_f);

    if s0.hashes_ok() {
        assert forall|j: int| post.occupied(j) implies #[trigger] post.entry_at(j).path_hash
            == crate::hash::hash_of(post.entry_at(j).path@) by {
            let j0 = choose|j0: int|
                #![all_triggers]
                s0.occupied(j0) && s0.entry_at(j0).path@ == post.entry_at(j).path@ && s0.entry_at(
                    j0,
                ).deflated == post.entry_at(j).deflated && s0.entry_at(j0).unpacked_size
                    == post.entry_at(j).unpacked_size && s0.entry_at(j0).path_hash == post.entry_at(
                    j,
                ).path_hash && s0.stored_of(b0, j0) == post.stored_of(b_f, j);
            assert(s0.entry_at(j0).path_hash == crate::hash::hash_of(s0.entry_at(j0).path@));
        }
    }
}

/// The commit argument of [`PkgState::repack`], combining the geometric and
/// content halves.
proof fn lemma_repack_commit(
    s0: &PkgState,
    post: &PkgState,
    b0: Seq<u8>,
    b_a: Seq<u8>,
    b_b: Seq<u8>,
    b_d1: Seq<u8>,
    b_d2: Seq<u8>,
    b_d3: Seq<u8>,
    b_f: Seq<u8>,
    l1: Seq<Entry>,
    l2: Seq<Entry>,
    l3: Seq<Entry>,
    l4: Seq<Entry>,
    new_pro: int,
    new_dro: int,
    prs_new: int,
    data_end: int,
)
    requires
        s0.encodes(b0),
        // the compacted, offset-sorted list and its relation to the state
        covers(l1, s0),
        // geometry
        l4.len() == l1.len(),
        new_pro == 16 + 20 * l1.len(),
        new_dro == new_pro + prs_new,
        prs_new == spec_entries_path_total(l1),
        0 <= prs_new <= 0xFF_FFFF,
        new_dro <= s0.spec_data_region_offset(),
        data_end == new_dro + spec_entries_size_total(l2),
        new_dro <= data_end <= b0.len(),
        // phase A: packed path region
        b_a.len() == b0.len(),
        forall|i: int| 0 <= i < b0.len() && !(new_pro <= i < new_dro) ==> b_a[i] == b0[i],
        l2.len() == l1.len(),
        forall|k: int|
            #![trigger l2[k]]
            0 <= k < l1.len() ==> {
                let e2 = l2[k];
                let e1 = l1[k];
                &&& e2.path@ == e1.path@
                &&& e2.path_hash == e1.path_hash
                &&& e2.data_offset == e1.data_offset
                &&& e2.data_size == e1.data_size
                &&& e2.unpacked_size == e1.unpacked_size
                &&& e2.deflated == e1.deflated
                &&& e2.relative_path_offset + e2.path@.len() + 1 <= prs_new
                &&& b_a.subrange(
                    new_pro + e2.relative_path_offset,
                    new_pro + e2.relative_path_offset + e2.path@.len(),
                ) == e2.path@
                &&& b_a[new_pro + e2.relative_path_offset + e2.path@.len()] == 0
            },
        // phase B: packed data region
        b_b.len() == b_a.len(),
        forall|i: int| 0 <= i < b_a.len() && !(new_dro <= i < data_end) ==> b_b[i] == b_a[i],
        l3.len() == l2.len(),
        forall|k: int|
            #![trigger l3[k]]
            0 <= k < l2.len() ==> {
                let e3 = l3[k];
                let e2 = l2[k];
                &&& e3.path@ == e2.path@
                &&& e3.path_hash == e2.path_hash
                &&& e3.relative_path_offset == e2.relative_path_offset
                &&& e3.data_size == e2.data_size
                &&& e3.unpacked_size == e2.unpacked_size
                &&& e3.deflated == e2.deflated
                &&& e3.data_offset == new_dro + spec_entries_size_total(l2.take(k))
                &&& new_dro <= e3.data_offset
                &&& e3.data_offset + e3.data_size <= data_end
                &&& b_b.subrange(e3.data_offset as int, e3.data_offset + e3.data_size)
                    == b_a.subrange(e2.data_offset as int, e2.data_offset + e2.data_size)
            },
        // phase C: hash sort
        forall|k: int| 0 <= k < l4.len() ==> l3.contains(#[trigger] l4[k]),
        forall|k: int| 0 <= k < l3.len() ==> l4.contains(#[trigger] l3[k]),
        forall|k1: int, k2: int|
            #![trigger l4[k1], l4[k2]]
            0 <= k1 < k2 < l4.len() ==> l4[k1].path@ != l4[k2].path@,
        forall|k1: int, k2: int| 0 <= k1 <= k2 < l4.len() ==> hash_le(l4[k1], l4[k2]),
        spec_entries_size_total(l4) == spec_entries_size_total(l2),
        spec_entries_path_total(l4) == spec_entries_path_total(l1),
        // phase D: header counts and records
        b_d1.len() == b_b.len(),
        forall|i: int| 0 <= i < b_b.len() && !(8 <= i < 12) ==> b_d1[i] == b_b[i],
        crate::codec::be32_at(b_d1, 8) == l4.len(),
        b_d2.len() == b_d1.len(),
        forall|i: int| 0 <= i < b_d1.len() && !(12 <= i < 16) ==> b_d2[i] == b_d1[i],
        crate::codec::be32_at(b_d2, 12) == prs_new,
        b_d3.len() == b_d2.len(),
        forall|i: int| 0 <= i < b_d2.len() && !(16 <= i < new_pro) ==> b_d3[i] == b_d2[i],
        forall|k: int|
            0 <= k < l4.len() ==> b_d3.subrange(16 + 20 * k, 16 + 20 * k + 20) == (
            #[trigger] l4[k]).record_bytes(),
        // phase E: truncation
        b_f == b_d3.take(data_end),
        // the rebuilt state
        post.entries@.len() == l4.len(),
        forall|k: int| 0 <= k < l4.len() ==> post.entries@[k] == Some(l4[k]),
        post.path_region_size == prs_new,
        post.path_region_empty_offset == prs_new,
    ensures
        post.encodes(b_f),
        post.view_of(b_f) == s0.view_of(b0),
        s0.hashes_ok() ==> post.hashes_ok(),
        forall|j: int| 0 <= j < post.entries@.len() ==> post.occupied(j),
        forall|i: int, j: int|
            0 <= i <= j < post.entries@.len() ==> post.entry_at(i).path_hash <= post.entry_at(
                j,
            ).path_hash,
        b_f.len() == post.spec_data_region_offset() + post.spec_data_total(),
        post.path_region_size == spec_path_total_from(post, 0),
        forall|i: int, j: int|
            #![trigger post.entry_at(i), post.entry_at(j)]
            post.occupied(i) && post.occupied(j) && i != j
                ==> (post.entry_at(i).data_offset + post.entry_at(i).data_size <= post.entry_at(
                    j,
                ).data_offset || post.entry_at(j).data_offset + post.entry_at(j).data_size
                    <= post.entry_at(i).data_offset),
{
    lemma_repack_encodes(
        s0, post, b0, b_a, b_b, b_d1, b_d2, b_d3, b_f, l1, l2, l3, l4, new_pro, new_dro,
        prs_new, data_end,
    );
    lemma_repack_content(
        s0, post, b0, b_a, b_b, b_d1, b_d2, b_d3, b_f, l1, l2, l3, l4, new_pro, new_dro,
        prs_new, data_end,
    );
    assert forall|i: int, j: int|
        0 <= i <= j < post.entries@.len() implies post.entry_at(i).path_hash <= post.entry_at(
        j,
    ).path_hash by {
        assert(hash_le(l4[i], l4[j]));
    }
}


/// Facts about the compacted, offset-sorted entry list: every element stands
/// for an occupied slot of the state and satisfies that slot's bounds.
#[verifier::rlimit(100)]
proof fn lemma_live_facts(s0: &PkgState, b0: Seq<u8>, l0: Seq<Entry>, l1: Seq<Entry>)
    requires
        s0.encodes(b0),
        covers(l0, s0),
        l0.to_multiset() == l1.to_multiset(),
        l0.len() == l1.len(),
    ensures
        covers(l1, s0),
        forall|k: int|
            0 <= k < l1.len() ==> crate::state::path_bytes_ok((#[trigger] l1[k]).path@) && l1[
                k].path@.len() <= 0xFF_FFFF && s0.spec_data_region_offset() <= l1[k].data_offset
                && l1[k].data_offset + l1[k].data_size <= b0.len(),
{
    lemma_values_transfer(l0, l1);
    lemma_values_transfer(l1, l0);
    lemma_distinct_paths_transfer(l0, l1);
    assert forall|k: int| 0 <= k < l1.len() implies stands_for_slot(#[trigger] l1[k], s0) by {
        assert(l0.contains(l1[k]));
        let k0 = choose|k0: int| 0 <= k0 < l0.len() && l0[k0] == l1[k];
        assert(stands_for_slot(l0[k0], s0));
    }
    assert forall|j: int| s0.occupied(j) implies listed(#[trigger] s0.entry_at(j), l1) by {
        assert(listed(s0.entry_at(j), l0));
        let k0 = choose|k0: int|
            0 <= k0 < l0.len() && corresponds(#[trigger] l0[k0], s0.entry_at(j));
        assert(l1.contains(l0[k0]));
        let k = choose|k: int| 0 <= k < l1.len() && l1[k] == l0[k0];
        assert(0 <= k < l1.len() && corresponds(l1[k], s0.entry_at(j)));
    }
    assert forall|k: int| 0 <= k < l1.len() implies crate::state::path_bytes_ok(
        (#[trigger] l1[k]).path@,
    ) && l1[k].path@.len() <= 0xFF_FFFF && s0.spec_data_region_offset() <= l1[k].data_offset && l1[
        k].data_offset + l1[k].data_size <= b0.len() by {
        assert(stands_for_slot(l1[k], s0));
        let j = choose|j: int| s0.occupied(j) && corresponds(l1[k], #[trigger] s0.entry_at(j));
        assert(s0.entry_wf(j));
        assert(s0.data_range_ok(b0.len() as int, j));
    }
    assert(covers(l1, s0));
}

/// The offset order, non-overlap and bounds of the sorted list carry over
/// to the list with reassigned path offsets.
#[verifier::rlimit(100)]
proof fn lemma_l2_props(
    l1: Seq<Entry>,
    l2: Seq<Entry>,
    new_dro: int,
    blen: int,
    old_dro: int,
)
    requires
        l2.len() == l1.len(),
        forall|k1: int, k2: int| 0 <= k1 <= k2 < l1.len() ==> off_le(l1[k1], l1[k2]),
        no_consecutive_overlap(l1),
        forall|k: int|
            0 <= k < l1.len() ==> old_dro <= (#[trigger] l1[k]).data_offset && l1[k].data_offset
                + l1[k].data_size <= blen,
        new_dro <= old_dro,
        forall|k: int|
            #![trigger l2[k]]
            0 <= k < l1.len() ==> l2[k].data_offset == l1[k].data_offset && l2[k].data_size == l1[
                k].data_size,
    ensures
        forall|k1: int, k2: int| 0 <= k1 <= k2 < l2.len() ==> off_le(l2[k1], l2[k2]),
        no_consecutive_overlap(l2),
        forall|k: int|
            0 <= k < l2.len() ==> new_dro <= (#[trigger] l2[k]).data_offset && l2[k].data_offset
                + l2[k].data_size <= blen,
{
    assert forall|k1: int, k2: int|
        0 <= k1 <= k2 < l2.len() implies off_le(l2[k1], l2[k2]) by {
        assert(off_le(l1[k1], l1[k2]));
    }
    assert forall|k: int|
        0 <= k && k + 1 < l2.len() implies (#[trigger] l2[k]).data_offset + l2[k].data_size
        <= l2[k + 1].data_offset by {
        assert(l1[k].data_offset + l1[k].data_size <= l1[k + 1].data_offset);
    }
    assert forall|k: int|
        0 <= k < l2.len() implies new_dro <= (#[trigger] l2[k]).data_offset && l2[k].data_offset
        + l2[k].data_size <= blen by {
        assert(old_dro <= l1[k].data_offset);
    }
}

/// Every entry of the hash-sorted list keeps a path offset below the
/// twenty-four-bit limit.
#[verifier::rlimit(100)]
proof fn lemma_l4_rel_bound(l2: Seq<Entry>, l3: Seq<Entry>, l4: Seq<Entry>, prs_new: int)
    requires
        prs_new <= 0xFF_FFFF,
        l3.len() == l2.len(),
        forall|k: int|
            #![trigger l3[k]]
            0 <= k < l2.len() ==> l3[k].relative_path_offset == l2[k].relative_path_offset && l3[
                k].path@ == l2[k].path@,
        forall|k: int|
            #![trigger l2[k]]
            0 <= k < l2.len() ==> l2[k].relative_path_offset + l2[k].path@.len() + 1 <= prs_new,
        forall|k: int| 0 <= k < l4.len() ==> l3.contains(#[trigger] l4[k]),
    ensures
        forall|k: int|
            0 <= k < l4.len() ==> (#[trigger] l4[k]).relative_path_offset < 0x0100_0000,
{
    assert forall|k: int|
        0 <= k < l4.len() implies (#[trigger] l4[k]).relative_path_offset < 0x0100_0000 by {
        assert(l3.contains(l4[k]));
        let k3 = choose|k3: int| 0 <= k3 < l3.len() && l3[k3] == l4[k];
        assert(l2[k3].relative_path_offset + l2[k3].path@.len() + 1 <= prs_new);
    }
}

impl PkgState {
    /// Compacts the archive: empty slots are dropped, the path region is
    /// rewritten packed, every blob is moved down so the data region has no
    /// dead bytes, entries are sorted by path hash, and the stream is
    /// truncated to the end of the packed data.
    ///
    /// Fails with `OverlappingEntries`, changing nothing, when two entries'
    /// data ranges overlap or when the entries' recorded paths overlap in
    /// the path region so much that the packed metadata would not fit below
    /// the old data region; neither can arise from operations of this crate.
    #[verifier::rlimit(100)]
    pub fn repack(&mut self, storage: &mut MemStorage) -> (r: Result<(), RepackError>)
        requires
            old(self).encodes(old(storage)@),
        ensures
            final(self).encodes(final(storage)@),
            old(self).hashes_ok() ==> final(self).hashes_ok(),
            match r {
                Ok(()) => {
                    &&& !has_overlap(old(self))
                    &&& spec_path_total_from(old(self), 0) <= 0xFF_FFFF
                    &&& 16 + 20 * spec_occ_count_from(old(self), 0) + spec_path_total_from(
                        old(self),
                        0,
                    ) <= old(self).spec_data_region_offset()
                    &&& final(self).view_of(final(storage)@) == old(self).view_of(old(storage)@)
                    &&& forall|j: int|
                        0 <= j < final(self).entries@.len() ==> final(self).occupied(j)
                    &&& forall|i: int, j: int|
                        0 <= i <= j < final(self).entries@.len() ==> final(self).entry_at(i).path_hash
                            <= final(self).entry_at(j).path_hash
                    &&& final(storage)@.len() == final(self).spec_data_region_offset()
                        + final(self).spec_data_total()
                    &&& final(self).path_region_size == spec_path_total_from(final(self), 0)
                    &&& final(self).path_region_empty_offset == final(self).path_region_size
                    &&& forall|i: int, j: int|
                        #![trigger final(self).entry_at(i), final(self).entry_at(j)]
                        final(self).occupied(i) && final(self).occupied(j) && i != j
                            ==> (final(self).entry_at(i).data_offset
                                + final(self).entry_at(i).data_size
                                <= final(self).entry_at(j).data_offset
                            || final(self).entry_at(j).data_offset
                                + final(self).entry_at(j).data_size
                                <= final(self).entry_at(i).data_offset)
                },
                Err(RepackError::OverlappingEntries) => {
                    &&& *final(self) == *old(self)
                    &&& final(storage)@ == old(storage)@
                    &&& (has_overlap(old(self)) || spec_path_total_from(old(self), 0) > 0xFF_FFFF
                        || 16 + 20 * spec_occ_count_from(old(self), 0) + spec_path_total_from(
                        old(self),
                        0,
                    ) > old(self).spec_data_region_offset())
                },
            },
    {
        let ghost s0 = *old(self);
        let ghost b0 = old(storage)@;
        let live0 = self.collect_live();
        let ghost l0 = live0@;
        let live1 = sort_by_offset(live0);
        let ghost l1 = live1@;
        proof {
            lemma_live_facts(&s0, b0, l0, l1);
        }
        if !check_no_overlap(&live1) {
            proof {
                let k = choose|k: int|
                    0 <= k && k + 1 < l1.len() && !((#[trigger] l1[k]).data_offset + l1[
                        k].data_size <= l1[k + 1].data_offset);
                assert(stands_for_slot(l1[k], &s0));
                let j1 = choose|j: int|
                    s0.occupied(j) && corresponds(l1[k], #[trigger] s0.entry_at(j));
                assert(stands_for_slot(l1[k + 1], &s0));
                let j2 = choose|j: int|
                    s0.occupied(j) && corresponds(l1[k + 1], #[trigger] s0.entry_at(j));
                assert(l1[k].path@ != l1[k + 1].path@);
                assert(j1 != j2);
                assert(off_le(l1[k], l1[k + 1]));
                assert(ranges_clash(s0.entry_at(j1), s0.entry_at(j2)));
            }
            return Err(RepackError::OverlappingEntries);
        }
        let n_live = live1.len();
        proof {
            lemma_occ_count_le(&s0, 0);
            assert(16 + 20 * (n_live as int) <= s0.spec_path_region_offset());
            lemma_no_overlap_from_sorted(&s0, l1);
        }
        let ptotal = entries_path_total(&live1);
        if ptotal > 0xFF_FFFF {
            return Err(RepackError::OverlappingEntries);
        }
        let new_pro: usize = 16 + 20 * n_live;
        let old_dro = self.data_region_offset();
        if new_pro as u64 + ptotal > old_dro as u64 {
            return Err(RepackError::OverlappingEntries);
        }
        let new_dro: usize = new_pro + ptotal as usize;
        self.repack_apply(storage, live1, Ghost(s0), Ghost(b0), new_pro, new_dro);
        Ok(())
    }

    /// The write phases of [`PkgState::repack`], once the checks have
    /// passed: pack the path region, pack the data region, sort by hash,
    /// rewrite the metadata and truncate.
    #[verifier::rlimit(100)]
    #[verifier::spinoff_prover]
    fn repack_apply(
        &mut self,
        storage: &mut MemStorage,
        live1: Vec<Entry>,
        Ghost(s0): Ghost<PkgState>,
        Ghost(b0): Ghost<Seq<u8>>,
        new_pro: usize,
        new_dro: usize,
    )
        requires
            *old(self) == s0,
            old(storage)@ == b0,
            s0.encodes(b0),
            covers(live1@, &s0),
            forall|k: int|
                0 <= k < live1@.len() ==> crate::state::path_bytes_ok(
                    (#[trigger] live1@[k]).path@,
                ) && live1@[k].path@.len() <= 0xFF_FFFF && s0.spec_data_region_offset() <= live1@[
                    k].data_offset && live1@[k].data_offset + live1@[k].data_size <= b0.len(),
            forall|k1: int, k2: int|
                0 <= k1 <= k2 < live1@.len() ==> off_le(live1@[k1], live1@[k2]),
            no_consecutive_overlap(live1@),
            new_pro == 16 + 20 * (live1@.len() as int),
            new_dro == new_pro + spec_entries_path_total(live1@),
            spec_entries_path_total(live1@) <= 0xFF_FFFF,
            new_dro <= s0.spec_data_region_offset(),
        ensures
            final(self).encodes(final(storage)@),
            s0.hashes_ok() ==> final(self).hashes_ok(),
            final(self).view_of(final(storage)@) == s0.view_of(b0),
            forall|j: int| 0 <= j < final(self).entries@.len() ==> final(self).occupied(j),
            forall|i: int, j: int|
                0 <= i <= j < final(self).entries@.len() ==> final(self).entry_at(i).path_hash
                    <= final(self).entry_at(j).path_hash,
            final(storage)@.len() == final(self).spec_data_region_offset()
                + final(self).spec_data_total(),
            final(self).path_region_size == spec_path_total_from(final(self), 0),
            final(self).path_region_empty_offset == final(self).path_region_size,
            forall|i: int, j: int|
                #![trigger final(self).entry_at(i), final(self).entry_at(j)]
                final(self).occupied(i) && final(self).occupied(j) && i != j
                    ==> (final(self).entry_at(i).data_offset + final(self).entry_at(i).data_size
                        <= final(self).entry_at(j).data_offset
                    || final(self).entry_at(j).data_offset + final(self).entry_at(j).data_size
                        <= final(self).entry_at(i).data_offset),
    {
        let ghost l1 = live1@;
        let n_live = live1.len();
        proof {
            lemma_totals_nonneg(l1);
        }
        let (live2, prs_new) = write_packed_paths(storage, live1, new_pro);
        let ghost l2 = live2@;
        let ghost b_a = storage@;
        proof {
            lemma_l2_props(
                l1,
                l2,
                new_dro as int,
                b_a.len() as int,
                s0.spec_data_region_offset(),
            );
        }
        self.repack_mid(
            storage,
            live2,
            Ghost(s0),
            Ghost(b0),
            Ghost(b_a),
            Ghost(l1),
            new_pro,
            new_dro,
            prs_new,
        );
    }

    /// The data-packing phase of [`PkgState::repack`].
    #[verifier::rlimit(100)]
    #[verifier::spinoff_prover]
    fn repack_mid(
        &mut self,
        storage: &mut MemStorage,
        live2: Vec<Entry>,
        Ghost(s0): Ghost<PkgState>,
        Ghost(b0): Ghost<Seq<u8>>,
        Ghost(b_a): Ghost<Seq<u8>>,
        Ghost(l1): Ghost<Seq<Entry>>,
        new_pro: usize,
        new_dro: usize,
        prs_new: usize,
    )
        requires
            *old(self) == s0,
            s0.encodes(b0),
            covers(l1, &s0),
            forall|k: int|
                0 <= k < l1.len() ==> crate::state::path_bytes_ok((#[trigger] l1[k]).path@) && l1[
                    k].path@.len() <= 0xFF_FFFF && s0.spec_data_region_offset() <= l1[
                    k].data_offset && l1[k].data_offset + l1[k].data_size <= b0.len(),
            live2@.len() == l1.len(),
            new_pro == 16 + 20 * (l1.len() as int),
            new_dro == new_pro + prs_new,
            prs_new == spec_entries_path_total(l1),
            prs_new <= 0xFF_FFFF,
            new_dro <= s0.spec_data_region_offset(),
            b_a.len() == b0.len(),
            old(storage)@ == b_a,
            forall|i: int| 0 <= i < b0.len() && !(new_pro <= i < new_dro) ==> b_a[i] == b0[i],
            forall|k: int|
                #![trigger live2@[k]]
                0 <= k < l1.len() ==> {
                    let e2 = live2@[k];
                    let e1 = l1[k];
                    &&& e2.path@ == e1.path@
                    &&& e2.path_hash == e1.path_hash
                    &&& e2.data_offset == e1.data_offset
                    &&& e2.data_size == e1.data_size
                    &&& e2.unpacked_size == e1.unpacked_size
                    &&& e2.deflated == e1.deflated
                    &&& e2.relative_path_offset + e2.path@.len() + 1 <= prs_new
                    &&& b_a.subrange(
                        new_pro + e2.relative_path_offset,
                        new_pro + e2.relative_path_offset + e2.path@.len(),
                    ) == e2.path@
                    &&& b_a[new_pro + e2.relative_path_offset + e2.path@.len()] == 0
                },
            forall|k1: int, k2: int|
                0 <= k1 <= k2 < l1.len() ==> off_le(l1[k1], l1[k2]),
            no_consecutive_overlap(l1),
        ensures
            final(self).encodes(final(storage)@),
            s0.hashes_ok() ==> final(self).hashes_ok(),
            final(self).view_of(final(storage)@) == s0.view_of(b0),
            forall|j: int| 0 <= j < final(self).entries@.len() ==> final(self).occupied(j),
            forall|i: int, j: int|
                0 <= i <= j < final(self).entries@.len() ==> final(self).entry_at(i).path_hash
                    <= final(self).entry_at(j).path_hash,
            final(storage)@.len() == final(self).spec_data_region_offset()
                + final(self).spec_data_total(),
            final(self).path_region_size == spec_path_total_from(final(self), 0),
            final(self).path_region_empty_offset == final(self).path_region_size,
            forall|i: int, j: int|
                #![trigger final(self).entry_at(i), final(self).entry_at(j)]
                final(self).occupied(i) && final(self).occupied(j) && i != j
                    ==> (final(self).entry_at(i).data_offset + final(self).entry_at(i).data_size
                        <= final(self).entry_at(j).data_offset
                    || final(self).entry_at(j).data_offset + final(self).entry_at(j).data_size
                        <= final(self).entry_at(i).data_offset),
    {
        let ghost l2 = live2@;
        proof {
            lemma_l2_props(l1, l2, new_dro as int, b_a.len() as int, s0.spec_data_region_offset());
        }
        let (live3, data_end) = defrag(storage, live2, new_dro);
        proof {
            lemma_totals_take_le(l2, l2.len() as int);
            assert(l2.take(l2.len() as int) =~= l2);
            lemma_totals_pointwise(l2, l1);
            assert forall|k: int| 0 <= k < l2.len() implies new_dro <= (
            #[trigger] live3@[k]).data_offset by {
                lemma_totals_take_le(l2, k);
            }
        }
        self.repack_finish(            storage,
            live3,
            Ghost(s0),
            Ghost(b0),
            Ghost(b_a),
            Ghost(l1),
            Ghost(l2),
            new_pro,
            new_dro,
            prs_new,
            data_end,
        );
    }

    /// The metadata rewrite of [`PkgState::repack`]: sort by hash, write the
    /// header counts and records, truncate, and rebuild the index.
    #[verifier::rlimit(100)]
    #[verifier::spinoff_prover]
    fn repack_finish(
        &mut self,
        storage: &mut MemStorage,
        live3: Vec<Entry>,
        Ghost(s0): Ghost<PkgState>,
        Ghost(b0): Ghost<Seq<u8>>,
        Ghost(b_a): Ghost<Seq<u8>>,
        Ghost(l1): Ghost<Seq<Entry>>,
        Ghost(l2): Ghost<Seq<Entry>>,
        new_pro: usize,
        new_dro: usize,
        prs_new: usize,
        data_end: usize,
    )
        requires
            *old(self) == s0,
            s0.encodes(b0),
            covers(l1, &s0),
            forall|k: int|
                0 <= k < l1.len() ==> crate::state::path_bytes_ok((#[trigger] l1[k]).path@) && l1[
                    k].path@.len() <= 0xFF_FFFF && s0.spec_data_region_offset() <= l1[
                    k].data_offset && l1[k].data_offset + l1[k].data_size <= b0.len(),
            live3@.len() == l1.len(),
            l2.len() == l1.len(),
            new_pro == 16 + 20 * (l1.len() as int),
            new_dro == new_pro + prs_new,
            prs_new == spec_entries_path_total(l1),
            prs_new <= 0xFF_FFFF,
            new_dro <= s0.spec_data_region_offset(),
            data_end == new_dro + spec_entries_size_total(l2),
            new_dro <= data_end <= b0.len(),
            b_a.len() == b0.len(),
            forall|i: int| 0 <= i < b0.len() && !(new_pro <= i < new_dro) ==> b_a[i] == b0[i],
            forall|k: int|
                #![trigger l2[k]]
                0 <= k < l1.len() ==> {
                    let e2 = l2[k];
                    let e1 = l1[k];
                    &&& e2.path@ == e1.path@
                    &&& e2.path_hash == e1.path_hash
                    &&& e2.data_offset == e1.data_offset
                    &&& e2.data_size == e1.data_size
                    &&& e2.unpacked_size == e1.unpacked_size
                    &&& e2.deflated == e1.deflated
                    &&& e2.relative_path_offset + e2.path@.len() + 1 <= prs_new
                    &&& b_a.subrange(
                        new_pro + e2.relative_path_offset,
                        new_pro + e2.relative_path_offset + e2.path@.len(),
                    ) == e2.path@
                    &&& b_a[new_pro + e2.relative_path_offset + e2.path@.len()] == 0
                },
            old(storage)@.len() == b_a.len(),
            forall|i: int|
                0 <= i < b_a.len() && !(new_dro <= i < data_end) ==> old(storage)@[i] == b_a[i],
            forall|k: int|
                #![trigger live3@[k]]
                0 <= k < l2.len() ==> {
                    let e3 = live3@[k];
                    let e2 = l2[k];
                    &&& e3.path@ == e2.path@
                    &&& e3.path_hash == e2.path_hash
                    &&& e3.relative_path_offset == e2.relative_path_offset
                    &&& e3.data_size == e2.data_size
                    &&& e3.unpacked_size == e2.unpacked_size
                    &&& e3.deflated == e2.deflated
                    &&& e3.data_offset == new_dro + spec_entries_size_total(l2.take(k))
                    &&& new_dro <= e3.data_offset
                    &&& e3.data_offset + e3.data_size <= data_end
                    &&& old(storage)@.subrange(e3.data_offset as int, e3.data_offset + e3.data_size)
                        == b_a.subrange(e2.data_offset as int, e2.data_offset + e2.data_size)
                },
        ensures
            final(self).encodes(final(storage)@),
            s0.hashes_ok() ==> final(self).hashes_ok(),
            final(self).view_of(final(storage)@) == s0.view_of(b0),
            forall|j: int| 0 <= j < final(self).entries@.len() ==> final(self).occupied(j),
            forall|i: int, j: int|
                0 <= i <= j < final(self).entries@.len() ==> final(self).entry_at(i).path_hash
                    <= final(self).entry_at(j).path_hash,
            final(storage)@.len() == final(self).spec_data_region_offset()
                + final(self).spec_data_total(),
            final(self).path_region_size == spec_path_total_from(final(self), 0),
            final(self).path_region_empty_offset == final(self).path_region_size,
            forall|i: int, j: int|
                #![trigger final(self).entry_at(i), final(self).entry_at(j)]
                final(self).occupied(i) && final(self).occupied(j) && i != j
                    ==> (final(self).entry_at(i).data_offset + final(self).entry_at(i).data_size
                        <= final(self).entry_at(j).data_offset
                    || final(self).entry_at(j).data_offset + final(self).entry_at(j).data_size
                        <= final(self).entry_at(i).data_offset),
    {
        let ghost b_b = old(storage)@;
        let ghost l3 = live3@;
        let n_live = live3.len();
        let live4 = sort_by_hash(live3);
        let ghost l4 = live4@;
        proof {
            lemma_values_transfer(l3, l4);
            lemma_values_transfer(l4, l3);
            assert forall|k1: int, k2: int|
                #![trigger l3[k1], l3[k2]]
                0 <= k1 < k2 < l3.len() implies l3[k1].path@ != l3[k2].path@ by {
                assert(l2[k1].path@ == l3[k1].path@ && l2[k2].path@ == l3[k2].path@);
                assert(l1[k1].path@ == l2[k1].path@ && l1[k2].path@ == l2[k2].path@);
            }
            lemma_distinct_paths_transfer(l3, l4);
            lemma_l4_rel_bound(l2, l3, l4, prs_new as int);
            assert(16 + 20 * (n_live as int) <= b_b.len());
            lemma_totals_pointwise(l3, l2);
            lemma_totals_pointwise(l2, l1);
        }
        storage.write_u32_be(8, n_live as u32);
        let ghost b_d1 = storage@;
        storage.write_u32_be(12, prs_new as u32);
        proof {
            crate::codec::lemma_be32_at_bytes(b_d1, 8, n_live as u32);
            crate::codec::lemma_be32_at_frame(b_d1, storage@, 8);
            crate::codec::lemma_be32_at_bytes(storage@, 12, prs_new as u32);
        }
        self.repack_commit_exec(
            storage,
            live4,
            Ghost(s0),
            Ghost(b0),
            Ghost(b_a),
            Ghost(b_b),
            Ghost(b_d1),
            Ghost(l1),
            Ghost(l2),
            Ghost(l3),
            new_pro,
            new_dro,
            prs_new,
            data_end,
        );
    }

    /// The last step of [`PkgState::repack`]: write the records, truncate,
    /// and rebuild the in-memory index.
    #[verifier::rlimit(100)]
    #[verifier::spinoff_prover]
    fn repack_commit_exec(
        &mut self,
        storage: &mut MemStorage,
        live4: Vec<Entry>,
        Ghost(s0): Ghost<PkgState>,
        Ghost(b0): Ghost<Seq<u8>>,
        Ghost(b_a): Ghost<Seq<u8>>,
        Ghost(b_b): Ghost<Seq<u8>>,
        Ghost(b_d1): Ghost<Seq<u8>>,
        Ghost(l1): Ghost<Seq<Entry>>,
        Ghost(l2): Ghost<Seq<Entry>>,
        Ghost(l3): Ghost<Seq<Entry>>,
        new_pro: usize,
        new_dro: usize,
        prs_new: usize,
        data_end: usize,
    )
        requires
            *old(self) == s0,
            s0.encodes(b0),
            covers(l1, &s0),
            forall|k: int|
                0 <= k < l1.len() ==> crate::state::path_bytes_ok((#[trigger] l1[k]).path@) && l1[
                    k].path@.len() <= 0xFF_FFFF && s0.spec_data_region_offset() <= l1[
                    k].data_offset && l1[k].data_offset + l1[k].data_size <= b0.len(),
            l2.len() == l1.len(),
            l3.len() == l1.len(),
            live4@.len() == l1.len(),
            new_pro == 16 + 20 * (l1.len() as int),
            new_dro == new_pro + prs_new,
            prs_new == spec_entries_path_total(l1),
            prs_new <= 0xFF_FFFF,
            new_dro <= s0.spec_data_region_offset(),
            data_end == new_dro + spec_entries_size_total(l2),
            new_dro <= data_end <= b0.len(),
            b_a.len() == b0.len(),
            forall|i: int| 0 <= i < b0.len() && !(new_pro <= i < new_dro) ==> b_a[i] == b0[i],
            forall|k: int|
                #![trigger l2[k]]
                0 <= k < l1.len() ==> {
                    let e2 = l2[k];
                    let e1 = l1[k];
                    &&& e2.path@ == e1.path@
                    &&& e2.path_hash == e1.path_hash
                    &&& e2.data_offset == e1.data_offset
                    &&& e2.data_size == e1.data_size
                    &&& e2.unpacked_size == e1.unpacked_size
                    &&& e2.deflated == e1.deflated
                    &&& e2.relative_path_offset + e2.path@.len() + 1 <= prs_new
                    &&& b_a.subrange(
                        new_pro + e2.relative_path_offset,
                        new_pro + e2.relative_path_offset + e2.path@.len(),
                    ) == e2.path@
                    &&& b_a[new_pro + e2.relative_path_offset + e2.path@.len()] == 0
                },
            b_b.len() == b_a.len(),
            forall|i: int| 0 <= i < b_a.len() && !(new_dro <= i < data_end) ==> b_b[i] == b_a[i],
            forall|k: int|
                #![trigger l3[k]]
                0 <= k < l2.len() ==> {
                    let e3 = l3[k];
                    let e2 = l2[k];
                    &&& e3.path@ == e2.path@
                    &&& e3.path_hash == e2.path_hash
                    &&& e3.relative_path_offset == e2.relative_path_offset
                    &&& e3.data_size == e2.data_size
                    &&& e3.unpacked_size == e2.unpacked_size
                    &&& e3.deflated == e2.deflated
                    &&& e3.data_offset == new_dro + spec_entries_size_total(l2.take(k))
                    &&& new_dro <= e3.data_offset
                    &&& e3.data_offset + e3.data_size <= data_end
                    &&& b_b.subrange(e3.data_offset as int, e3.data_offset + e3.data_size)
                        == b_a.subrange(e2.data_offset as int, e2.data_offset + e2.data_size)
                },
            forall|k: int| 0 <= k < live4@.len() ==> l3.contains(#[trigger] live4@[k]),
            forall|k: int| 0 <= k < l3.len() ==> live4@.contains(#[trigger] l3[k]),
            forall|k1: int, k2: int|
                #![trigger live4@[k1], live4@[k2]]
                0 <= k1 < k2 < live4@.len() ==> live4@[k1].path@ != live4@[k2].path@,
            forall|k1: int, k2: int|
                0 <= k1 <= k2 < live4@.len() ==> hash_le(live4@[k1], live4@[k2]),
            spec_entries_size_total(live4@) == spec_entries_size_total(l2),
            spec_entries_path_total(live4@) == spec_entries_path_total(l1),
            forall|k: int|
                0 <= k < live4@.len() ==> (#[trigger] live4@[k]).relative_path_offset
                    < 0x0100_0000,
            b_d1.len() == b_b.len(),
            forall|i: int| 0 <= i < b_b.len() && !(8 <= i < 12) ==> b_d1[i] == b_b[i],
            crate::codec::be32_at(b_d1, 8) == live4@.len(),
            old(storage)@.len() == b_d1.len(),
            forall|i: int| 0 <= i < b_d1.len() && !(12 <= i < 16) ==> old(storage)@[i] == b_d1[i],
            crate::codec::be32_at(old(storage)@, 12) == prs_new,
        ensures
            final(self).encodes(final(storage)@),
            s0.hashes_ok() ==> final(self).hashes_ok(),
            final(self).view_of(final(storage)@) == s0.view_of(b0),
            forall|j: int| 0 <= j < final(self).entries@.len() ==> final(self).occupied(j),
            forall|i: int, j: int|
                0 <= i <= j < final(self).entries@.len() ==> final(self).entry_at(i).path_hash
                    <= final(self).entry_at(j).path_hash,
            final(storage)@.len() == final(self).spec_data_region_offset()
                + final(self).spec_data_total(),
            final(self).path_region_size == spec_path_total_from(final(self), 0),
            final(self).path_region_empty_offset == final(self).path_region_size,
            forall|i: int, j: int|
                #![trigger final(self).entry_at(i), final(self).entry_at(j)]
                final(self).occupied(i) && final(self).occupied(j) && i != j
                    ==> (final(self).entry_at(i).data_offset + final(self).entry_at(i).data_size
                        <= final(self).entry_at(j).data_offset
                    || final(self).entry_at(j).data_offset + final(self).entry_at(j).data_size
                        <= final(self).entry_at(i).data_offset),
    {
        let ghost l4 = live4@;
        let ghost b_d2 = old(storage)@;
        proof {
            assert(16 + 20 * (live4@.len() as int) <= b_d2.len());
        }
        write_records_all(storage, &live4);
        let ghost b_d3 = storage@;
        storage.shrink_to(data_end);
        let ghost b_f = storage@;
        self.path_region_size = prs_new as u32;
        self.path_region_empty_offset = prs_new as u32;
        self.entries = to_slots(live4);
        proof {
            lemma_repack_commit(
                &s0,
                &*self,
                b0,
                b_a,
                b_b,
                b_d1,
                b_d2,
                b_d3,
                b_f,
                l1,
                l2,
                l3,
                l4,
                new_pro as int,
                new_dro as int,
                prs_new as int,
                data_end as int,
            );
        }
    }
}

} // verus!
