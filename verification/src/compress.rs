//! DEFLATE compression of the payload.

use vstd::prelude::*;
use std::io::{Read, Write};

verus! {

/// The DEFLATE stream that `flate2` produces for `data` at its best
/// compression level.
pub uninterp spec fn deflate_best(data: Seq<u8>) -> Seq<u8>;

/// The bytes that `flate2` inflates from the DEFLATE stream `data`, or `None`
/// where it reports an error.
pub uninterp spec fn inflate(data: Seq<u8>) -> Option<Seq<u8>>;

/// The I/O error that `flate2` reports, carried through opaque.
#[verifier::external_type_specification]
#[verifier::external_body]
pub struct ExIoError(std::io::Error);

/// `flate2::write::DeflateEncoder` at `Compression::best()`, writing into a
/// vector.  It always succeeds: the encoder fails only where its sink refuses
/// bytes or the codec is handed a bad parameter, and a `Vec` sink takes every
/// write while the level and flush modes here are fixed and valid.  The
/// output is the named DEFLATE stream of the input, and inflating it gives the
/// input back (DEFLATE is lossless).
#[verifier::external_body]
fn deflate_encode(data: &[u8]) -> (r: Result<Vec<u8>, std::io::Error>)
    ensures
        r is Ok,
        r matches Ok(c) ==> c@ == deflate_best(data@) && inflate(c@) == Some(data@),
{
    let mut encoder = flate2::write::DeflateEncoder::new(Vec::new(), flate2::Compression::best());
    encoder.write_all(data)?;
    encoder.finish()
}

/// `flate2::read::DeflateDecoder` read to the end: it gives the named inflated
/// bytes, and fails exactly where they are not defined.
#[verifier::external_body]
fn deflate_decode(data: &[u8]) -> (r: Result<Vec<u8>, std::io::Error>)
    ensures
        match inflate(data@) {
            Some(d) => r matches Ok(v) && v@ == d,
            None => r is Err,
        },
{
    let mut decoder = flate2::read::DeflateDecoder::new(data);
    let mut out = Vec::new();
    decoder.read_to_end(&mut out)?;
    Ok(out)
}

/// Why decompressing failed.
#[derive(Debug, Clone, Copy, PartialEq, Eq, Structural)]
pub enum CompressError {
    /// The data is not a DEFLATE stream (it may be corrupted).
    Decompress,
}

/// DEFLATE-compresses `data` at the best level.  It never fails, and what
/// comes out inflates back to `data`.
pub fn compress_data(data: &[u8]) -> (r: Result<Vec<u8>, CompressError>)
    ensures
        r matches Ok(c) && c@ == deflate_best(data@) && inflate(c@) == Some(data@),
{
    let c = deflate_encode(data).unwrap();
    Ok(c)
}

/// Inflates the DEFLATE stream `data`.
pub fn decompress_data(data: &[u8]) -> (r: Result<Vec<u8>, CompressError>)
    ensures
        match inflate(data@) {
            Some(d) => r matches Ok(v) && v@ == d,
            None => r == Err::<Vec<u8>, CompressError>(CompressError::Decompress),
        },
{
    match deflate_decode(data) {
        Ok(v) => Ok(v),
        Err(_) => Err(CompressError::Decompress),
    }
}

} // verus!
