//! Big-endian integer encoding and decoding, and the archive magic number.

use vstd::prelude::*;

verus! {

/// The archive magic number: the bytes `P`, `K`, `G`, `\n`.
pub open spec fn magic_seq() -> Seq<u8> {
    seq![0x50u8, 0x4Bu8, 0x47u8, 0x0Au8]
}

/// The archive magic number as a buffer.
pub fn magic_vec() -> (r: Vec<u8>)
    ensures
        r@ == magic_seq(),
{
    let mut v: Vec<u8> = Vec::new();
    v.push(0x50);
    v.push(0x4B);
    v.push(0x47);
    v.push(0x0A);
    proof {
        assert(v@ =~= magic_seq());
    }
    v
}

/// The value of the big-endian 16-bit integer at `off` in `b`.
pub open spec fn be16_at(b: Seq<u8>, off: int) -> int {
    b[off] * 0x100 + b[off + 1]
}

/// The value of the big-endian 32-bit integer at `off` in `b`.
pub open spec fn be32_at(b: Seq<u8>, off: int) -> int {
    b[off] * 0x100_0000 + b[off + 1] * 0x1_0000 + b[off + 2] * 0x100 + b[off + 3]
}

/// The two big-endian bytes of a 16-bit integer.
pub open spec fn be16_bytes(v: u16) -> Seq<u8> {
    seq![(v / 0x100) as u8, (v % 0x100) as u8]
}

/// The four big-endian bytes of a 32-bit integer.
pub open spec fn be32_bytes(v: u32) -> Seq<u8> {
    seq![
        (v / 0x100_0000) as u8,
        ((v / 0x1_0000) % 0x100) as u8,
        ((v / 0x100) % 0x100) as u8,
        (v % 0x100) as u8,
    ]
}

/// Reading back the two big-endian bytes of `v` yields `v`.
pub proof fn lemma_be16_roundtrip(v: u16)
    ensures
        be16_at(be16_bytes(v), 0) == v,
{
    assert(((v / 0x100) as u8) * 0x100 + ((v % 0x100) as u8) == v) by (bit_vector);
}

/// Reading back the four big-endian bytes of `v` yields `v`.
pub proof fn lemma_be32_roundtrip(v: u32)
    ensures
        be32_at(be32_bytes(v), 0) == v,
{
    assert(((v / 0x100_0000) as u8) * 0x100_0000 + (((v / 0x1_0000) % 0x100) as u8) * 0x1_0000
        + (((v / 0x100) % 0x100) as u8) * 0x100 + ((v % 0x100) as u8) == v) by (bit_vector);
}

/// A big-endian 32-bit value is determined by its four bytes.
pub proof fn lemma_be32_at_bytes(b: Seq<u8>, off: int, v: u32)
    requires
        0 <= off,
        off + 4 <= b.len(),
        b.subrange(off, off + 4) == be32_bytes(v),
    ensures
        be32_at(b, off) == v,
{
    assert(b[off] == be32_bytes(v)[0]);
    assert(b[off + 1] == be32_bytes(v)[1]);
    assert(b[off + 2] == be32_bytes(v)[2]);
    assert(b[off + 3] == be32_bytes(v)[3]);
    lemma_be32_roundtrip(v);
}

/// A big-endian 16-bit value is determined by its two bytes.
pub proof fn lemma_be16_at_bytes(b: Seq<u8>, off: int, v: u16)
    requires
        0 <= off,
        off + 2 <= b.len(),
        b.subrange(off, off + 2) == be16_bytes(v),
    ensures
        be16_at(b, off) == v,
{
    assert(b[off] == be16_bytes(v)[0]);
    assert(b[off + 1] == be16_bytes(v)[1]);
    lemma_be16_roundtrip(v);
}

/// A big-endian 16-bit read sees only its two bytes.
pub proof fn lemma_be16_at_frame(b0: Seq<u8>, b1: Seq<u8>, off: int)
    requires
        0 <= off,
        off + 2 <= b0.len(),
        off + 2 <= b1.len(),
        forall|i: int| off <= i < off + 2 ==> b1[i] == b0[i],
    ensures
        be16_at(b1, off) == be16_at(b0, off),
{
}

/// A big-endian 32-bit read sees only its four bytes.
pub proof fn lemma_be32_at_frame(b0: Seq<u8>, b1: Seq<u8>, off: int)
    requires
        0 <= off,
        off + 4 <= b0.len(),
        off + 4 <= b1.len(),
        forall|i: int| off <= i < off + 4 ==> b1[i] == b0[i],
    ensures
        be32_at(b1, off) == be32_at(b0, off),
{
}

/// The two big-endian bytes of a 16-bit integer, as a buffer.
pub fn u16_to_be(v: u16) -> (r: Vec<u8>)
    ensures
        r@ == be16_bytes(v),
{
    let mut out: Vec<u8> = Vec::new();
    out.push((v / 0x100) as u8);
    out.push((v % 0x100) as u8);
    proof {
        assert(out@ =~= be16_bytes(v));
    }
    out
}

/// The four big-endian bytes of a 32-bit integer, as a buffer.
pub fn u32_to_be(v: u32) -> (r: Vec<u8>)
    ensures
        r@ == be32_bytes(v),
{
    let mut out: Vec<u8> = Vec::new();
    out.push((v / 0x100_0000) as u8);
    out.push(((v / 0x1_0000) % 0x100) as u8);
    out.push(((v / 0x100) % 0x100) as u8);
    out.push((v % 0x100) as u8);
    proof {
        assert(out@ =~= be32_bytes(v));
    }
    out
}

} // verus!
