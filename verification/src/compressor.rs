//! Compression of the bytes that are stored, as a zlib stream.

use crate::error::Error;
use flate2::Compression;
use flate2::read::ZlibDecoder;
use flate2::write::ZlibEncoder;
use std::io::Read;
use std::io::Write;
use vstd::prelude::*;

verus! {

/// The error of `std::io`, as the encoder and the decoder report it. It is
/// carried through unread.
#[verifier::external_type_specification]
#[verifier::external_body]
pub struct ExIoError(std::io::Error);

/// The zlib stream that the encoder makes of a byte sequence at the default
/// compression level; `None` where it reports an error. The encoder writes
/// into memory, so what it does depends on the bytes alone.
pub uninterp spec fn zlib_deflate(bytes: Seq<u8>) -> Option<Seq<u8>>;

/// What the decoder reads out of a zlib stream; `None` where it reports the
/// stream as corrupt or incomplete.
pub uninterp spec fn zlib_inflate(stream: Seq<u8>) -> Option<Seq<u8>>;

/// Calls `ZlibEncoder::new` with `Compression::default()`, `write_all` and
/// `finish` of the crate `flate2`. Believed without proof: whether the
/// encoder reports an error depends on `bytes` alone; where it reports none,
/// its output is the zlib stream of `bytes`, and the decoder reads `bytes`
/// out of it again.
#[verifier::external_body]
fn deflate(bytes: &[u8]) -> (res: Result<Vec<u8>, std::io::Error>)
    ensures
        match res {
            Ok(stream) => zlib_deflate(bytes@) == Some(stream@) && zlib_inflate(stream@) == Some(
                bytes@,
            ),
            Err(_) => zlib_deflate(bytes@).is_none(),
        },
{
    let mut encoder = ZlibEncoder::new(Vec::new(), Compression::default());
    encoder.write_all(bytes)?;
    encoder.finish()
}

/// Calls `ZlibDecoder::new` of the crate `flate2` and reads it to the end.
/// Believed without proof: the bytes returned are what the decoder reads out
/// of `stream`, and an error comes exactly where it reads nothing out.
#[verifier::external_body]
fn inflate(stream: &[u8]) -> (res: Result<Vec<u8>, std::io::Error>)
    ensures
        match res {
            Ok(bytes) => zlib_inflate(stream@) == Some(bytes@),
            Err(_) => zlib_inflate(stream@).is_none(),
        },
{
    let mut bytes = Vec::new();
    let mut decoder = ZlibDecoder::new(stream);
    decoder.read_to_end(&mut bytes)?;
    Ok(bytes)
}

/// The compressor of stored objects.
pub struct Compressor {}

impl Compressor {
    /// What `compress` returns for an outcome of the encoder: the stream, or
    /// `Error::Io` for any error.
    pub fn compressed(outcome: Result<Vec<u8>, std::io::Error>) -> (res: Result<Vec<u8>, Error>)
        ensures
            match outcome {
                Ok(stream) => res == Ok::<Vec<u8>, Error>(stream),
                Err(_) => res == Err::<Vec<u8>, Error>(Error::Io),
            },
    {
        match outcome {
            Ok(stream) => Ok(stream),
            Err(_) => Err(Error::Io),
        }
    }

    /// What `decompress` returns for an outcome of the decoder: the bytes, or
    /// `Error::CorruptStream` for any error.
    pub fn decompressed(outcome: Result<Vec<u8>, std::io::Error>) -> (res: Result<Vec<u8>, Error>)
        ensures
            match outcome {
                Ok(bytes) => res == Ok::<Vec<u8>, Error>(bytes),
                Err(_) => res == Err::<Vec<u8>, Error>(Error::CorruptStream),
            },
    {
        match outcome {
            Ok(bytes) => Ok(bytes),
            Err(_) => Err(Error::CorruptStream),
        }
    }

    /// Compresses `bytes` into a zlib stream at the default level. The stream
    /// decompresses to `bytes` again. Fails with `Error::Io` exactly where
    /// the encoder reports an error.
    pub fn compress(bytes: &[u8]) -> (res: Result<Vec<u8>, Error>)
        ensures
            (res is Ok) == zlib_deflate(bytes@).is_some(),
            match res {
                Ok(stream) => zlib_deflate(bytes@) == Some(stream@) && zlib_inflate(stream@)
                    == Some(bytes@),
                Err(e) => e == Error::Io,
            },
    {
        Self::compressed(deflate(bytes))
    }

    /// Decompresses a zlib stream. Fails with `Error::CorruptStream` exactly
    /// where the stream is not valid.
    pub fn decompress(stream: &[u8]) -> (res: Result<Vec<u8>, Error>)
        ensures
            match res {
                Ok(bytes) => zlib_inflate(stream@) == Some(bytes@),
                Err(e) => e == Error::CorruptStream && zlib_inflate(stream@).is_none(),
            },
    {
        Self::decompressed(inflate(stream))
    }
}

} // verus!
