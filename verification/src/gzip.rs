//! The gzip compressor and decompressor of the `flate2` crate.
//!
//! Nothing in this file is proved. What the two functions promise is taken
//! from the crate: a stream that the encoder finished is read back by the
//! decoder as the bytes that went in, and both are functions of their input
//! (the gzip header that the encoder writes holds neither a time nor the name
//! of the machine).

use vstd::prelude::*;

verus! {

/// `std::io::Error`, which the encoder and the decoder report; it is carried
/// through and never looked into.
#[verifier::external_type_specification]
#[verifier::external_body]
pub struct ExIoError(std::io::Error);

/// What `flate2::write::GzEncoder`, at its default level, makes of `data`:
/// the gzip stream that it finishes, or `None` where it reports an error.
pub uninterp spec fn gzip_compressed(data: Seq<u8>) -> Option<Seq<u8>>;

/// What `flate2::read::GzDecoder` reads out of `stream`: the bytes of its
/// first gzip member, or `None` where the stream is cut short, is no gzip
/// stream, or fails its checksum.
pub uninterp spec fn gzip_decompressed(stream: Seq<u8>) -> Option<Seq<u8>>;

/// Runs `data` through `flate2::write::GzEncoder` (`new`, `write_all`,
/// `finish`) into a fresh vector. Assumed of it: the outcome is the one named
/// by [`gzip_compressed`], an error standing for `None`, which is to say that
/// it depends on the bytes of `data` and on nothing else; and the decoder
/// reads `data` back out of a stream that the encoder finished.
#[verifier::external_body]
pub(crate) fn gzip(data: &[u8]) -> (r: Result<Vec<u8>, std::io::Error>)
    ensures
        match r {
            Ok(stream) => gzip_compressed(data@) == Some(stream@) && gzip_decompressed(stream@)
                == Some(data@),
            Err(_) => gzip_compressed(data@) is None,
        },
{
    let mut encoder = flate2::write::GzEncoder::new(Vec::new(), flate2::Compression::default());
    std::io::Write::write_all(&mut encoder, data)?;
    encoder.finish()
}

/// Reads `stream` to its end through `flate2::read::GzDecoder`. Assumed of
/// it: the outcome is the one named by [`gzip_decompressed`], an error
/// standing for `None`.
#[verifier::external_body]
pub(crate) fn gunzip(stream: &[u8]) -> (r: Result<Vec<u8>, std::io::Error>)
    ensures
        match r {
            Ok(data) => gzip_decompressed(stream@) == Some(data@),
            Err(_) => gzip_decompressed(stream@) is None,
        },
{
    let mut data = Vec::new();
    let mut decoder = flate2::read::GzDecoder::new(stream);
    std::io::Read::read_to_end(&mut decoder, &mut data)?;
    Ok(data)
}

} // verus!
