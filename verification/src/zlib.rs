//! The zlib streams that objects are stored and sent in.

use vstd::prelude::*;
use std::io::Read;
use std::io::Write;

verus! {

/// What a zlib stream at the start of `data` inflates to, and how many
/// bytes of `data` the stream takes; `None` where `data` starts with no
/// complete stream. This is what the `flate2` crate's decoder computes.
pub uninterp spec fn zlib_inflated(data: Seq<u8>) -> Option<(Seq<u8>, int)>;

/// The zlib stream that the `flate2` crate's encoder makes of `data` at its
/// default level when it writes into memory; `None` where the encoder
/// reports an error. Either way the outcome depends on `data` alone.
pub uninterp spec fn zlib_deflated(data: Seq<u8>) -> Option<Seq<u8>>;

/// Runs `flate2::read::ZlibDecoder` over `data` with `read_to_end`, and asks
/// `total_in` for the bytes taken. The result is named, not stated.
#[verifier::external_body]
fn inflate(data: &[u8]) -> (r: Option<(Vec<u8>, u64)>)
    ensures
        match r {
            Some((out, used)) => zlib_inflated(data@) == Some((out@, used as int)),
            None => zlib_inflated(data@).is_none(),
        },
{
    let mut decoder = flate2::read::ZlibDecoder::new(data);
    let mut out = Vec::new();
    match decoder.read_to_end(&mut out) {
        Ok(_) => Some((out, decoder.total_in())),
        Err(_) => None,
    }
}

/// Runs `flate2::write::ZlibEncoder` at the default level over `data`,
/// with `write_all` and `finish`, into a vector. The result is named, not
/// stated: the stream, or `None` where either call reports an error.
#[verifier::external_body]
fn deflate(data: &[u8]) -> (r: Option<Vec<u8>>)
    ensures
        match r {
            Some(out) => zlib_deflated(data@) == Some(out@),
            None => zlib_deflated(data@).is_none(),
        },
{
    let mut encoder = flate2::write::ZlibEncoder::new(Vec::new(), flate2::Compression::default());
    match encoder.write_all(data) {
        Ok(()) => encoder.finish().ok(),
        Err(_) => None,
    }
}

/// Why stored bytes give no object.
#[derive(Debug, Clone, Copy, PartialEq, Eq, Structural)]
pub enum StoreError {
    /// Nothing is stored under the fingerprint.
    ObjectNotFound,
    /// The stored bytes are no zlib stream.
    CorruptObject,
}

/// What inflating gave, as the result of reading a stored object: the
/// inflated bytes, or `CorruptObject` where there was no stream.
pub fn inflated_or_corrupt(inflated: Option<(Vec<u8>, u64)>) -> (r: Result<Vec<u8>, StoreError>)
    ensures
        r == match inflated {
            Some((out, _)) => Ok::<Vec<u8>, StoreError>(out),
            None => Err::<Vec<u8>, StoreError>(StoreError::CorruptObject),
        },
{
    match inflated {
        Some((out, _used)) => Ok(out),
        None => Err(StoreError::CorruptObject),
    }
}

/// Inflates the zlib stream at the start of `data`, and says how many
/// bytes of `data` it took. The count never exceeds the length of `data`.
pub fn inflate_prefix(data: &[u8]) -> (r: Option<(Vec<u8>, usize)>)
    ensures
        match zlib_inflated(data@) {
            Some((out, used)) => if 0 <= used <= data@.len() {
                r matches Some((o, u)) && o@ == out && u == used
            } else {
                r.is_none()
            },
            None => r.is_none(),
        },
{
    match inflate(data) {
        Some((out, used)) => {
            if used <= data.len() as u64 {
                Some((out, used as usize))
            } else {
                None
            }
        },
        None => None,
    }
}

/// Inflates stored bytes.
pub fn zlib_decompress(bytes: &[u8]) -> (r: Result<Vec<u8>, StoreError>)
    ensures
        match zlib_inflated(bytes@) {
            Some((out, _)) => r matches Ok(o) && o@ == out,
            None => r == Err::<Vec<u8>, StoreError>(StoreError::CorruptObject),
        },
{
    inflated_or_corrupt(inflate(bytes))
}

/// Deflates bytes for storing: the zlib stream that the encoder makes of
/// them, or `None` where the encoder reports an error.
pub fn zlib_compress(content: &[u8]) -> (r: Option<Vec<u8>>)
    ensures
        match zlib_deflated(content@) {
            Some(stream) => r matches Some(out) && out@ == stream,
            None => r.is_none(),
        },
{
    deflate(content)
}

} // verus!
