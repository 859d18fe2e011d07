//! Compressed byte streams.

use flate2::read::ZlibDecoder;
use flate2::write::GzEncoder;
use flate2::Compression;
use std::io::{Read, Write};
use vstd::prelude::*;

verus! {

/// An input or output error of the standard library.
#[verifier::external_type_specification]
#[verifier::external_body]
pub struct ExIoError(std::io::Error);

/// What `flate2` inflates a zlib stream to; nothing where the stream is damaged or cut short.
pub uninterp spec fn zlib_inflated(stream: Seq<u8>) -> Option<Seq<u8>>;

/// `flate2`'s `ZlibDecoder` over a byte slice, read to its end. The outcome depends on the bytes
/// alone. What the inflated bytes are is left unsaid.
#[verifier::external_body]
pub(crate) fn inflate(stream: &[u8]) -> (r: Result<Vec<u8>, std::io::Error>)
    ensures
        match r {
            Ok(bytes) => zlib_inflated(stream@) == Some(bytes@),
            Err(_) => zlib_inflated(stream@) is None,
        },
{
    let mut bytes = Vec::new();
    ZlibDecoder::new(stream).read_to_end(&mut bytes)?;
    Ok(bytes)
}

/// The gzip stream that `flate2` makes of some bytes at a compression level; nothing where the
/// compressor fails.
pub uninterp spec fn gzip_stream(bytes: Seq<u8>, level: u32) -> Option<Seq<u8>>;

/// `flate2`'s `GzEncoder` into memory, at one of the levels from 0 to 9. Its header holds no time
/// and no system name, so the outcome depends on the bytes and the level alone. What the stream
/// holds is left unsaid.
#[verifier::external_body]
pub(crate) fn gzip_at(bytes: &[u8], level: u32) -> (r: Result<Vec<u8>, std::io::Error>)
    requires
        level <= 9,
    ensures
        match r {
            Ok(stream) => gzip_stream(bytes@, level) == Some(stream@),
            Err(_) => gzip_stream(bytes@, level) is None,
        },
{
    let mut encoder = GzEncoder::new(Vec::new(), Compression::new(level));
    encoder.write_all(bytes)?;
    encoder.finish()
}

} // verus!
