//! Object fingerprints: the 20-byte digest and its 40-character hex form.

use vstd::prelude::*;
use vstd::string::*;
use vstd::utf8::*;
use sha1::Digest;

verus! {

/// Why a string is not a fingerprint.
#[derive(Debug, Clone, Copy, PartialEq, Eq, Structural)]
pub enum HashError {
    /// The text is not exactly 40 hex digits.
    MalformedHash,
}

/// The SHA-1 digest of a byte string, as computed by the `sha1` crate.
pub uninterp spec fn sha1_digest(data: Seq<u8>) -> Seq<u8>;

/// The lowercase hex digit for a value below 16.
pub open spec fn hex_digit(n: int) -> u8 {
    if n < 10 {
        (48 + n) as u8
    } else {
        (87 + n) as u8
    }
}

/// Two lowercase hex digits per byte, high nibble first.
pub open spec fn hex_lower(data: Seq<u8>) -> Seq<u8> {
    Seq::new(
        2 * data.len(),
        |i: int|
            if i % 2 == 0 {
                hex_digit(data[i / 2] as int / 16)
            } else {
                hex_digit(data[i / 2] as int % 16)
            },
    )
}

/// The value of a hex digit of either case, or `-1` for any other byte.
pub open spec fn hex_value(c: u8) -> int {
    if 48 <= c <= 57 {
        c as int - 48
    } else if 97 <= c <= 102 {
        c as int - 87
    } else if 65 <= c <= 70 {
        c as int - 55
    } else {
        -1
    }
}

/// Every byte of `text` is a hex digit.
pub open spec fn all_hex(text: Seq<u8>) -> bool {
    forall|i: int| 0 <= i < text.len() ==> hex_value(#[trigger] text[i]) >= 0
}

/// The bytes that an even-length run of hex digits spells.
pub open spec fn hex_bytes(text: Seq<u8>) -> Seq<u8> {
    Seq::new(
        text.len() / 2,
        |i: int| (hex_value(text[2 * i]) * 16 + hex_value(text[2 * i + 1])) as u8,
    )
}

/// A string is a fingerprint when it is 40 hex digits.
pub open spec fn is_hash_text(text: Seq<u8>) -> bool {
    text.len() == 40 && all_hex(text)
}

/// The `hex` crate's reason why text is no run of hex digits of the right
/// length. Nothing is read from it.
#[verifier::external_type_specification]
#[verifier::external_body]
pub struct ExFromHexError(hex::FromHexError);

/// Calls `Sha1::digest` of the `sha1` crate; the result is named, not stated.
#[verifier::external_body]
fn sha1_of(data: &[u8]) -> (h: [u8; 20])
    ensures
        h@ == sha1_digest(data@),
{
    let out = sha1::Sha1::digest(data);
    let mut h = [0u8; 20];
    h.copy_from_slice(out.as_slice());
    h
}

/// Calls `hex::encode`: two lowercase digits for each byte, in order.
#[verifier::external_body]
pub(crate) fn hex_encode(data: &[u8]) -> (s: String)
    ensures
        encode_utf8(s@) == hex_lower(data@),
{
    hex::encode(data)
}

/// Calls `hex::decode_to_slice` on a 20-byte buffer: it succeeds exactly on
/// 40 hex digits of either case and then yields the bytes they spell.
#[verifier::external_body]
fn hex_decode_20(text: &[u8]) -> (r: Result<[u8; 20], hex::FromHexError>)
    ensures
        r.is_ok() <==> is_hash_text(text@),
        r.is_ok() ==> r.unwrap()@ == hex_bytes(text@),
{
    let mut out = [0u8; 20];
    match hex::decode_to_slice(text, &mut out[..]) {
        Ok(()) => Ok(out),
        Err(e) => Err(e),
    }
}

/// The fingerprint held in `bytes[start..start + 20]`.
pub(crate) fn read_hash(bytes: &[u8], start: usize) -> (h: [u8; 20])
    requires
        start + 20 <= bytes@.len(),
    ensures
        h@ == bytes@.subrange(start as int, start + 20),
{
    let mut h = [0u8; 20];
    let n = bytes.len();
    let mut i: usize = 0;
    while i < 20
        invariant
            i <= 20,
            start + 20 <= n == bytes@.len(),
            forall|j: int| 0 <= j < i ==> h@[j] == bytes@[start + j],
        decreases 20 - i,
    {
        h[i] = bytes[start + i];
        i = i + 1;
    }
    assert(h@ =~= bytes@.subrange(start as int, start + 20));
    h
}

/// The fingerprint of a byte string.
pub fn digest(bytes: &[u8]) -> (h: [u8; 20])
    ensures
        h@ == sha1_digest(bytes@),
{
    sha1_of(bytes)
}

/// The 40 lowercase hex digits of a fingerprint.
pub fn to_hex(hash: &[u8; 20]) -> (s: String)
    ensures
        encode_utf8(s@) == hex_lower(hash@),
        encode_utf8(s@).len() == 40,
{
    hex_encode(hash.as_slice())
}

/// The 40 lowercase hex digits of a fingerprint, as bytes.
pub fn hex_of(hash: &[u8; 20]) -> (r: Vec<u8>)
    ensures
        r@ == hex_lower(hash@),
        r@.len() == 40,
{
    let s = to_hex(hash);
    let b = s.as_str().as_bytes();
    let mut r: Vec<u8> = Vec::new();
    let mut i: usize = 0;
    while i < b.len()
        invariant
            i <= b@.len(),
            r@ == b@.subrange(0, i as int),
        decreases b@.len() - i,
    {
        r.push(b[i]);
        i = i + 1;
        assert(r@ =~= b@.subrange(0, i as int));
    }
    assert(b@.subrange(0, i as int) =~= b@);
    r
}

/// Reads a fingerprint from 40 hex digits given as bytes.
pub fn parse_hex(text: &[u8]) -> (r: Result<[u8; 20], HashError>)
    ensures
        r.is_ok() <==> is_hash_text(text@),
        r matches Ok(h) ==> h@ == hex_bytes(text@),
        r matches Err(e) ==> e == HashError::MalformedHash,
{
    match hex_decode_20(text) {
        Ok(h) => Ok(h),
        Err(_e) => Err(HashError::MalformedHash),
    }
}

/// Reads a fingerprint from its hex form.
pub fn from_hex(text: &str) -> (r: Result<[u8; 20], HashError>)
    ensures
        r.is_ok() <==> is_hash_text(encode_utf8(text@)),
        r matches Ok(h) ==> h@ == hex_bytes(encode_utf8(text@)),
        r matches Err(e) ==> e == HashError::MalformedHash,
{
    parse_hex(text.as_bytes())
}

/// Reads a fingerprint from its hex form: `MalformedHash` where the text
/// is not exactly 40 hex digits.
pub fn decode_hash(sha1_hash: &str) -> (r: Result<[u8; 20], HashError>)
    ensures
        r.is_ok() <==> is_hash_text(encode_utf8(sha1_hash@)),
        r matches Ok(h) ==> h@ == hex_bytes(encode_utf8(sha1_hash@)),
        r matches Err(e) ==> e == HashError::MalformedHash,
{
    from_hex(sha1_hash)
}

/// Reading back the hex form of bytes gives the bytes.
pub proof fn lemma_hex_roundtrip(data: Seq<u8>)
    ensures
        hex_lower(data).len() == 2 * data.len(),
        all_hex(hex_lower(data)),
        hex_bytes(hex_lower(data)) == data,
{
    let text = hex_lower(data);
    assert forall|i: int| 0 <= i < text.len() implies hex_value(#[trigger] text[i]) >= 0 by {
        let d = data[i / 2] as int;
        assert(0 <= d / 16 < 16 && 0 <= d % 16 < 16);
    }
    assert forall|i: int| 0 <= i < data.len() implies #[trigger] hex_bytes(text)[i] == data[i] by {
        let d = data[i] as int;
        assert(0 <= d / 16 < 16 && 0 <= d % 16 < 16);
        assert((2 * i) / 2 == i && (2 * i) % 2 == 0);
        assert((2 * i + 1) / 2 == i && (2 * i + 1) % 2 == 1);
        assert(hex_value(text[2 * i]) == d / 16);
        assert(hex_value(text[2 * i + 1]) == d % 16);
    }
    assert(hex_bytes(text) =~= data);
}

} // verus!
