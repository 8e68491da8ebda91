//! The variable-length integers of the pack format.

use vstd::prelude::*;

verus! {

/// Why a pack cannot be decoded.
#[derive(Debug, Clone, Copy, PartialEq, Eq, Structural)]
pub enum PackError {
    /// The stream does not start with `PACK`.
    BadPackSignature,
    /// The version is neither 2 nor 3.
    UnsupportedPackVersion,
    /// The stream ends inside the header, a base fingerprint or a record.
    TruncatedPack,
    /// The stream ends before a variable-length integer does.
    TruncatedVarint,
    /// A variable-length integer spells more than 64 bits hold.
    OversizedVarint,
    /// A record's type tag is 0 or 5.
    UnknownRecordType,
    /// A record's data does not inflate, or not to its declared size.
    CorruptObject,
    /// A delta's base is neither an earlier record nor a known object.
    MissingBase,
    /// A delta names itself as its base.
    DeltaCycle,
    /// A delta's instructions are malformed or do not fit its base.
    BadDelta,
}

/// The number spelled from index `pos` on, seven bits a byte with the low
/// bits first and the top bit set on every byte but the last; with it the
/// index after the last byte. `None` where the input ends first.
pub open spec fn varint_at(bytes: Seq<u8>, pos: int) -> Option<(int, int)>
    decreases bytes.len() - pos,
{
    if pos < 0 || pos >= bytes.len() {
        None
    } else if bytes[pos] < 128 {
        Some((bytes[pos] as int, pos + 1))
    } else {
        match varint_at(bytes, pos + 1) {
            None => None,
            Some((rest, next)) => Some((bytes[pos] - 128 + 128 * rest, next)),
        }
    }
}

/// The bytes that spell `n`: as few as will do.
pub open spec fn varint_bytes(n: nat) -> Seq<u8>
    decreases n,
{
    if n < 128 {
        seq![n as u8]
    } else {
        seq![(128 + n % 128) as u8] + varint_bytes(n / 128)
    }
}

/// The distance spelled from `pos` on in the offset encoding: seven bits a
/// byte with the high bits first, and one added for each byte that is
/// followed by another. `acc` is what the bytes before `pos` spelled.
pub open spec fn offset_at(bytes: Seq<u8>, pos: int, acc: int) -> Option<(int, int)>
    decreases bytes.len() - pos,
{
    if pos < 0 || pos >= bytes.len() {
        None
    } else if bytes[pos] < 128 {
        Some((acc * 128 + bytes[pos], pos + 1))
    } else {
        offset_at(bytes, pos + 1, acc * 128 + (bytes[pos] - 128) + 1)
    }
}

/// The index of the first byte below 128 at or after `pos`, or the length.
pub open spec fn varint_end(bytes: Seq<u8>, pos: int) -> int
    decreases bytes.len() - pos,
{
    if pos < 0 || pos >= bytes.len() {
        bytes.len() as int
    } else if bytes[pos] < 128 {
        pos
    } else {
        varint_end(bytes, pos + 1)
    }
}

/// A number is spelled exactly when a last byte is found, and it ends
/// right after that byte.
pub proof fn lemma_varint_end(bytes: Seq<u8>, pos: int)
    requires
        0 <= pos <= bytes.len(),
    ensures
        pos <= varint_end(bytes, pos) <= bytes.len(),
        varint_end(bytes, pos) < bytes.len() ==> bytes[varint_end(bytes, pos)] < 128,
        forall|i: int| pos <= i < varint_end(bytes, pos) ==> bytes[i] >= 128,
        varint_at(bytes, pos).is_some() <==> varint_end(bytes, pos) < bytes.len(),
        varint_at(bytes, pos) matches Some((v, next)) ==> next == varint_end(bytes, pos) + 1 && v
            >= 0,
        forall|acc: int| (#[trigger] offset_at(bytes, pos, acc)).is_some() <==> varint_end(bytes, pos)
            < bytes.len(),
    decreases bytes.len() - pos,
{
    if pos < bytes.len() && bytes[pos] >= 128 {
        lemma_varint_end(bytes, pos + 1);
        assert forall|acc: int| (#[trigger] offset_at(bytes, pos, acc)).is_some() <==> varint_end(
            bytes,
            pos,
        ) < bytes.len() by {
            assert(offset_at(bytes, pos, acc) == offset_at(
                bytes,
                pos + 1,
                acc * 128 + (bytes[pos] - 128) + 1,
            ));
        }
    }
}

/// Finds the last byte of the integer that starts at `pos`.
fn find_end(bytes: &[u8], pos: usize) -> (end: usize)
    requires
        pos <= bytes@.len(),
    ensures
        end == varint_end(bytes@, pos as int),
        pos <= end <= bytes@.len(),
{
    let n = bytes.len();
    let mut i: usize = pos;
    while i < n && bytes[i] >= 128
        invariant
            pos <= i <= n == bytes@.len(),
            varint_end(bytes@, pos as int) == varint_end(bytes@, i as int),
        decreases n - i,
    {
        i = i + 1;
    }
    i
}

/// Reads the integer that starts at `pos`, and the index after it.
pub fn read_varint(bytes: &[u8], pos: usize) -> (r: Result<(u64, usize), PackError>)
    ensures
        match varint_at(bytes@, pos as int) {
            None => r matches Err(e) && e == PackError::TruncatedVarint,
            Some((v, next)) => if v <= u64::MAX {
                r matches Ok((x, n)) && x == v && n == next && pos < n <= bytes@.len()
            } else {
                r matches Err(e) && e == PackError::OversizedVarint
            },
        },
{
    let n = bytes.len();
    if pos > n {
        return Err(PackError::TruncatedVarint);
    }
    let end = find_end(bytes, pos);
    proof {
        lemma_varint_end(bytes@, pos as int);
    }
    if end >= n {
        return Err(PackError::TruncatedVarint);
    }
    let mut value: u64 = bytes[end] as u64;
    let mut i: usize = end;
    while i > pos
        invariant
            pos <= i <= end < n == bytes@.len(),
            forall|j: int| pos <= j < end ==> bytes@[j] >= 128,
            varint_at(bytes@, i as int) == Some((value as int, end + 1)),
            varint_at(bytes@, pos as int).is_some(),
        decreases i,
    {
        let low: u64 = (bytes[i - 1] - 128) as u64;
        if value > (u64::MAX - low) / 128 {
            proof {
                lemma_varint_grows(bytes@, pos as int, i - 1);
            }
            return Err(PackError::OversizedVarint);
        }
        value = low + 128 * value;
        i = i - 1;
    }
    Ok((value, end + 1))
}

/// The number spelled from an earlier index is no smaller than the number
/// spelled from a later one, within one integer.
pub proof fn lemma_varint_grows(bytes: Seq<u8>, pos: int, mid: int)
    requires
        0 <= pos <= mid < bytes.len(),
        forall|j: int| pos <= j < mid ==> bytes[j] >= 128,
        varint_at(bytes, mid).is_some(),
    ensures
        varint_at(bytes, pos).is_some(),
        varint_at(bytes, pos).unwrap().0 >= varint_at(bytes, mid).unwrap().0,
        varint_at(bytes, mid).unwrap().0 >= 0,
    decreases mid - pos,
{
    lemma_varint_end(bytes, mid);
    if pos < mid {
        lemma_varint_grows(bytes, pos + 1, mid);
    }
}

/// The distance spelled from `pos` on grows with what came before.
pub proof fn lemma_offset_grows(bytes: Seq<u8>, pos: int, acc: int)
    requires
        0 <= pos <= bytes.len(),
        0 <= acc,
        offset_at(bytes, pos, acc).is_some(),
    ensures
        offset_at(bytes, pos, acc).unwrap().0 >= acc,
        offset_at(bytes, pos, acc).unwrap().1 == varint_end(bytes, pos) + 1,
    decreases bytes.len() - pos,
{
    if bytes[pos] >= 128 {
        lemma_offset_grows(bytes, pos + 1, acc * 128 + (bytes[pos] - 128) + 1);
    }
}

/// Reads the distance that starts at `pos` in the offset encoding, and the
/// index after it.
pub fn read_offset(bytes: &[u8], pos: usize) -> (r: Result<(u64, usize), PackError>)
    ensures
        match offset_at(bytes@, pos as int, 0) {
            None => r matches Err(e) && e == PackError::TruncatedVarint,
            Some((v, next)) => if v <= u64::MAX {
                r matches Ok((x, n)) && x == v && n == next && pos < n <= bytes@.len()
            } else {
                r matches Err(e) && e == PackError::OversizedVarint
            },
        },
{
    let n = bytes.len();
    if pos > n {
        return Err(PackError::TruncatedVarint);
    }
    let end = find_end(bytes, pos);
    proof {
        lemma_varint_end(bytes@, pos as int);
    }
    if end >= n {
        return Err(PackError::TruncatedVarint);
    }
    let mut acc: u64 = 0;
    let mut i: usize = pos;
    while i < end
        invariant
            pos <= i <= end < n == bytes@.len(),
            forall|j: int| pos <= j < end ==> bytes@[j] >= 128,
            bytes@[end as int] < 128,
            offset_at(bytes@, pos as int, 0) == offset_at(bytes@, i as int, acc as int),
            offset_at(bytes@, pos as int, 0).is_some(),
        decreases end - i,
    {
        let low: u64 = (bytes[i] - 128) as u64;
        if acc > (u64::MAX - low - 1) / 128 {
            proof {
                lemma_offset_grows(bytes@, i + 1, acc * 128 + low + 1);
            }
            return Err(PackError::OversizedVarint);
        }
        acc = acc * 128 + low + 1;
        i = i + 1;
    }
    let last: u64 = bytes[end] as u64;
    if acc > (u64::MAX - last) / 128 {
        return Err(PackError::OversizedVarint);
    }
    Ok((acc * 128 + last, end + 1))
}

/// Spells `n` in as few bytes as will do.
pub fn write_varint(n: u64) -> (out: Vec<u8>)
    ensures
        out@ == varint_bytes(n as nat),
{
    let mut out: Vec<u8> = Vec::new();
    let mut rest: u64 = n;
    while rest >= 128
        invariant
            out@ + varint_bytes(rest as nat) == varint_bytes(n as nat),
        decreases rest,
    {
        let ghost before = out@;
        out.push((128 + rest % 128) as u8);
        proof {
            assert(out@ + varint_bytes((rest / 128) as nat) =~= before + varint_bytes(rest as nat));
        }
        rest = rest / 128;
    }
    out.push(rest as u8);
    assert(out@ =~= varint_bytes(n as nat));
    out
}

/// Reading back a spelled number, whatever surrounds it, gives the number
/// and the index after it.
pub proof fn lemma_varint_roundtrip(prefix: Seq<u8>, n: nat, rest: Seq<u8>)
    ensures
        varint_at(prefix + varint_bytes(n) + rest, prefix.len() as int) == Some(
            (n as int, (prefix.len() + varint_bytes(n).len()) as int),
        ),
    decreases n,
{
    let s = prefix + varint_bytes(n) + rest;
    let pos = prefix.len() as int;
    if n < 128 {
        assert(s[pos] == n as u8);
    } else {
        let first = (128 + n % 128) as u8;
        assert(s[pos] == first);
        let prefix2 = prefix.push(first);
        assert(s =~= prefix2 + varint_bytes(n / 128) + rest);
        lemma_varint_roundtrip(prefix2, n / 128, rest);
    }
}

} // verus!
