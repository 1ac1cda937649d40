//! The trusted boundary to the DEFLATE codec of the `flate2` crate.
//!
//! The two wrappers below compress and decompress whole buffers. What the
//! codec returns is named rather than written out: `deflate_of` stands for
//! the bytes the compressor produces at a given level, `inflate_of` for the
//! decompression of a byte string (`None` when it is not a well-formed
//! stream). The one fact linking them — decompressing a compressor output
//! yields the input back — is the documented purpose of the codec.

use vstd::prelude::*;

use std::io::Write;

verus! {

/// The bytes that DEFLATE compression at `level` produces for `data`.
pub uninterp spec fn deflate_of(data: Seq<u8>, level: int) -> Seq<u8>;

/// The decompression of a raw DEFLATE stream, or `None` when the decoder
/// rejects the bytes.
pub uninterp spec fn inflate_of(data: Seq<u8>) -> Option<Seq<u8>>;

/// The bytes the decoder produces for an input before rejecting it: for
/// accepted input, the whole decompression; otherwise the clean prefix.
pub uninterp spec fn inflate_prefix_of(data: Seq<u8>) -> Seq<u8>;

/// Relies on `flate2::write::DeflateEncoder` over a byte buffer: compressing
/// into memory cannot fail for levels zero through nine, and decompressing
/// the result yields the input back.
#[verifier::external_body]
pub fn deflate_compress(data: &Vec<u8>, level: u32) -> (r: Vec<u8>)
    requires
        level <= 9,
    ensures
        r@ == deflate_of(data@, level as int),
        inflate_of(r@) == Some(data@),
{
    let mut enc = flate2::write::DeflateEncoder::new(
        Vec::new(),
        flate2::Compression::new(level),
    );
    enc.write_all(data.as_slice()).and_then(|_| enc.finish()).expect(
        "compressing into a byte buffer does not fail",
    )
}

/// Relies on `flate2::write::DeflateDecoder` over a byte buffer: the output
/// is deterministic in the input bytes, the flag reports whether the decoder
/// accepted all of them, and on acceptance the output is the input's
/// decompression. A rejected input still yields the bytes decoded before the
/// rejection.
#[verifier::external_body]
pub fn deflate_decompress(data: &Vec<u8>) -> (r: (Vec<u8>, bool))
    ensures
        r.0@ == inflate_prefix_of(data@),
        r.1 ==> inflate_of(data@) == Some(r.0@),
        inflate_of(data@) matches Some(v) ==> (r.1 && r.0@ == v),
{
    let mut dec = flate2::write::DeflateDecoder::new(Vec::new());
    let accepted = dec.write_all(data.as_slice()).is_ok() && dec.try_finish().is_ok();
    let out = core::mem::take(dec.get_mut());
    (out, accepted)
}

} // verus!
