//! The two outside computations the store rests on: SHA-1 and zlib.

use std::io::Read;
use std::io::Write;
use sha1::Digest;
use vstd::prelude::*;

verus! {

/// The SHA-1 digest of a byte string, as the `sha1` crate computes it.
pub uninterp spec fn sha1(data: Seq<u8>) -> Seq<u8>;

/// The zlib stream that `flate2` writes for a byte string at the default
/// compression level.
pub uninterp spec fn zlib_deflated(data: Seq<u8>) -> Seq<u8>;

/// What `flate2`'s zlib decoder reads out of a byte string, if it reads it
/// without error.
pub uninterp spec fn zlib_inflated(data: Seq<u8>) -> Option<Seq<u8>>;

/// Calls `sha1::Sha1::digest`: the 20-byte SHA-1 digest of `data`.
#[verifier::external_body]
pub(crate) fn sha1_digest(data: &[u8]) -> (res: [u8; 20])
    ensures
        res@ == sha1(data@),
{
    sha1::Sha1::digest(data).into()
}

/// Calls `flate2::write::ZlibEncoder` over a vector at
/// `Compression::default()`, writes `data` and finishes the stream. Writing
/// into a vector does not fail; were it to, the result would be empty.
/// zlib is lossless: `flate2`'s zlib decoder reads the finished stream back
/// as exactly `data`.
#[verifier::external_body]
pub(crate) fn zlib_compress(data: &[u8]) -> (res: Vec<u8>)
    ensures
        res@ == zlib_deflated(data@),
        zlib_inflated(res@) == Some(data@),
{
    let mut encoder = flate2::write::ZlibEncoder::new(Vec::new(), flate2::Compression::default());
    let _ = encoder.write_all(data);
    encoder.finish().unwrap_or_default()
}

/// Calls `flate2::read::ZlibDecoder` on `data` and reads it to the end:
/// `None` where the decoder reports an error. zlib is lossless, so the
/// stream that the encoder above wrote for some bytes reads back as exactly
/// those bytes.
#[verifier::external_body]
pub(crate) fn zlib_decompress(data: &[u8]) -> (res: Option<Vec<u8>>)
    ensures
        res is Some <==> zlib_inflated(data@) is Some,
        res matches Some(v) ==> zlib_inflated(data@) == Some(v@),
        res is None ==> forall|d: Seq<u8>| #[trigger] zlib_deflated(d) != data@,
        res matches Some(v) ==> forall|d: Seq<u8>| #[trigger] zlib_deflated(d) == data@ ==> v@ == d,
{
    let mut out = Vec::new();
    match flate2::read::ZlibDecoder::new(data).read_to_end(&mut out) {
        Ok(_) => Some(out),
        Err(_) => None,
    }
}

} // verus!
