//! The format's 32-bit rolling path hash.
//!
//! The hash is case-insensitive over ASCII and is stored in each entry record
//! as an on-disk hint only; path lookup always compares exact bytes.

use vstd::prelude::*;
use vstd::string::StringSliceAdditionalSpecFns;

verus! {

/// ASCII-lowercases a single byte.
pub open spec fn lower_byte(c: u8) -> u8 {
    if 0x41 <= c <= 0x5A {
        (c + 0x20) as u8
    } else {
        c
    }
}

/// One step of the rolling hash: rotate the accumulator right by five bits,
/// then mix in the lowercased byte.
pub open spec fn hash_step(h: u32, c: u8) -> u32 {
    ((h << 27) | (h >> 5)) ^ (lower_byte(c) as u32)
}

/// The hash of a whole path, folded left to right from zero.
pub open spec fn hash_of(s: Seq<u8>) -> u32
    decreases s.len(),
{
    if s.len() == 0 {
        0u32
    } else {
        hash_step(hash_of(s.drop_last()), s.last())
    }
}

/// Lowercasing twice is the same as lowercasing once.
proof fn lemma_lower_idempotent(c: u8)
    ensures
        lower_byte(lower_byte(c)) == lower_byte(c),
{
}

/// Two byte strings that agree up to ASCII case hash identically.
pub proof fn lemma_hash_ignores_case(a: Seq<u8>, b: Seq<u8>)
    requires
        a.len() == b.len(),
        forall|i: int| 0 <= i < a.len() ==> lower_byte(a[i]) == lower_byte(b[i]),
    ensures
        hash_of(a) == hash_of(b),
    decreases a.len(),
{
    if a.len() > 0 {
        lemma_hash_ignores_case(a.drop_last(), b.drop_last());
        assert(lower_byte(a.last()) == lower_byte(b.last()));
    }
}

/// Computes the on-disk path hash of `path`.
///
/// The path must be ASCII; the reference behaviour on other inputs is a
/// panic, so they are excluded here.
pub fn pkg_path_hash(path: &str) -> (r: u32)
    requires
        path.is_ascii(),
    ensures
        r == hash_of(path.spec_bytes()),
{
    let bytes = path.as_bytes();
    hash_of_bytes(bytes)
}

/// Computes the path hash over raw path bytes.
pub fn hash_of_bytes(bytes: &[u8]) -> (r: u32)
    ensures
        r == hash_of(bytes@),
{
    let mut hash: u32 = 0;
    let mut i: usize = 0;
    while i < bytes.len()
        invariant
            i <= bytes@.len(),
            hash == hash_of(bytes@.take(i as int)),
        decreases bytes@.len() - i,
    {
        let mut c = bytes[i];
        if 0x41 <= c && c <= 0x5A {
            c = c + 0x20;
        }
        hash = ((hash << 27) | (hash >> 5)) ^ (c as u32);
        i = i + 1;
        proof {
            assert(bytes@.take(i as int).drop_last() =~= bytes@.take(i - 1));
            assert(bytes@.take(i as int).last() == bytes@[i - 1]);
        }
    }
    proof {
        assert(bytes@.take(bytes@.len() as int) =~= bytes@);
    }
    hash
}

} // verus!
