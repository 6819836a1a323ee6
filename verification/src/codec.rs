//! The digest and the compression that the object store relies on.
//!
//! Nothing in this module is proved: each function hands its argument to
//! another crate, and its contract records what that crate is trusted to do.

use vstd::prelude::*;
use sha1::Digest;
use std::io::Read;
use std::io::Write;

verus! {

/// The SHA-1 digest of `data`.
pub uninterp spec fn sha1_of(data: Seq<u8>) -> Seq<u8>;

/// The zlib stream that the encoder produces for `data` at its default level,
/// or `None` where the encoder fails on `data`.
pub uninterp spec fn zlib_deflated(data: Seq<u8>) -> Option<Seq<u8>>;

/// What the zlib decoder reads out of `stored`, if `stored` is a zlib stream.
pub uninterp spec fn zlib_inflated(stored: Seq<u8>) -> Option<Seq<u8>>;

/// The error type of `std::io`, carried through unread.
#[verifier::external_type_specification]
#[verifier::external_body]
pub struct ExIoError(std::io::Error);

/// Calls `sha1::Sha1::digest`. Trusted: the result is the SHA-1 digest of
/// `data`, which depends on `data` alone and is 20 bytes long.
#[verifier::external_body]
pub(crate) fn sha1_digest(data: &[u8]) -> (d: Vec<u8>)
    ensures
        d@ == sha1_of(data@),
        d@.len() == 20,
{
    sha1::Sha1::digest(data).to_vec()
}

/// Runs `flate2::write::ZlibEncoder` at the default level over `data`, into
/// memory. Trusted: whether the encoder reports an error, and what it
/// produces, depend on `data` alone; and the decoder reads `data` back out of
/// what it produces.
#[verifier::external_body]
pub(crate) fn zlib_compress(data: &[u8]) -> (r: Result<Vec<u8>, std::io::Error>)
    ensures
        r matches Ok(out) ==> zlib_deflated(data@) == Some(out@) && zlib_inflated(out@) == Some(
            data@,
        ),
        r is Err ==> zlib_deflated(data@) is None,
{
    let mut encoder = flate2::write::ZlibEncoder::new(Vec::new(), flate2::Compression::default());
    encoder.write_all(data)?;
    encoder.finish()
}

/// Runs `flate2::read::ZlibDecoder` over `stored` to its end. Trusted: the
/// outcome depends on `stored` alone, and the decoder fails exactly on what
/// is not a zlib stream.
#[verifier::external_body]
pub(crate) fn zlib_decompress(stored: &[u8]) -> (r: Result<Vec<u8>, std::io::Error>)
    ensures
        r matches Ok(out) ==> zlib_inflated(stored@) == Some(out@),
        r is Err ==> zlib_inflated(stored@) is None,
{
    let mut out = Vec::new();
    flate2::read::ZlibDecoder::new(stored).read_to_end(&mut out)?;
    Ok(out)
}

} // verus!
