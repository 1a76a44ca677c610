//! Compression of stored objects, by the `flate2` crate.

use flate2::read::ZlibDecoder;
use flate2::write::ZlibEncoder;
use flate2::Compression;
use std::io::{Read, Write};
use vstd::prelude::*;

verus! {

/// Why a stream could not be compressed or decompressed.
#[verifier::external_type_specification]
#[verifier::external_body]
pub struct ExIoError(std::io::Error);

/// What decompressing `stored` yields when at most `limit` bytes are asked
/// for: the first bytes of the decompressed stream, or nothing where the
/// stream is damaged or ends before that many bytes and before its own end.
pub uninterp spec fn inflated(stored: Seq<u8>, limit: nat) -> Option<Seq<u8>>;

/// What compressing `data` yields: the compressed stream, or nothing where
/// the compressor fails. The stream depends on `data` alone.
pub uninterp spec fn deflated(data: Seq<u8>) -> Option<Seq<u8>>;

/// The first `limit` bytes of `data`, or all of it where it is shorter.
pub open spec fn prefix(data: Seq<u8>, limit: nat) -> Seq<u8> {
    if limit < data.len() {
        data.take(limit as int)
    } else {
        data
    }
}

/// `flate2::write::ZlibEncoder` at the default level, writing into a buffer
/// in memory, fed `data` and finished. What it returns is the compressed
/// stream of `data`, or the encoder's error. Decompressing the stream gives
/// `data` back, and so any bounded read of it gives the matching prefix of
/// `data`.
#[verifier::external_body]
pub(crate) fn deflate(data: &[u8]) -> (out: Result<Vec<u8>, std::io::Error>)
    ensures
        match out {
            Ok(stored) => deflated(data@) == Some(stored@),
            Err(_) => deflated(data@) is None,
        },
        out matches Ok(stored) ==> forall|limit: nat|
            #[trigger] inflated(stored@, limit) == Some(prefix(data@, limit)),
{
    let mut encoder = ZlibEncoder::new(Vec::new(), Compression::default());
    encoder.write_all(data)?;
    encoder.finish()
}

/// `flate2::read::ZlibDecoder` over `stored`, read to its end through
/// `Read::take(limit)`: at most `limit` decompressed bytes, or the decoder's
/// error.
#[verifier::external_body]
pub(crate) fn inflate(stored: &[u8], limit: u64) -> (out: Result<Vec<u8>, std::io::Error>)
    ensures
        match out {
            Ok(data) => inflated(stored@, limit as nat) == Some(data@) && data@.len() <= limit,
            Err(_) => inflated(stored@, limit as nat) is None,
        },
{
    let mut data = Vec::new();
    ZlibDecoder::new(stored).take(limit).read_to_end(&mut data)?;
    Ok(data)
}

} // verus!
