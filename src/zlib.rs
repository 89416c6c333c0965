//! zlib streams, through flate2.

use vstd::prelude::*;

verus! {

/// The zlib stream that flate2's encoder produces for `data` at the default level.
pub uninterp spec fn zlib_compress(data: Seq<u8>) -> Seq<u8>;

/// The bytes that flate2's decoder yields for the zlib stream `data`.
pub uninterp spec fn zlib_decompress(data: Seq<u8>) -> Seq<u8>;

/// Whether `data` is a zlib stream that flate2's decoder reads to its end.
pub uninterp spec fn zlib_valid(data: Seq<u8>) -> bool;

/// Relies on `flate2::read::ZlibEncoder` with `Compression::default()`, read to
/// the end: the stream depends on the bytes alone, and reading it from bytes in
/// memory does not fail (the compressor reports only buffer states, which the
/// reader turns into progress).
#[verifier::external_body]
pub(crate) fn deflate(data: &[u8]) -> (r: Option<Vec<u8>>)
    ensures
        r is Some,
        r matches Some(c) ==> c@ == zlib_compress(data@),
{
    let mut out = Vec::new();
    let mut z = flate2::read::ZlibEncoder::new(data, flate2::Compression::default());
    match std::io::Read::read_to_end(&mut z, &mut out) {
        Ok(_) => Some(out),
        Err(_) => None,
    }
}

/// Relies on `flate2::read::ZlibDecoder`, read to the end: whether it succeeds
/// and what it yields depend on the stream alone, and zlib is lossless, so a
/// stream that the encoder above produced yields its input back.
#[verifier::external_body]
pub(crate) fn inflate(data: &[u8]) -> (r: Option<Vec<u8>>)
    ensures
        r is Some <==> zlib_valid(data@),
        r matches Some(u) ==> u@ == zlib_decompress(data@),
        forall|u: Seq<u8>| #[trigger] zlib_compress(u) == data@ ==> (r is Some && r->0@ == u),
{
    let mut out = Vec::new();
    let mut z = flate2::read::ZlibDecoder::new(data);
    match std::io::Read::read_to_end(&mut z, &mut out) {
        Ok(_) => Some(out),
        Err(_) => None,
    }
}

} // verus!
