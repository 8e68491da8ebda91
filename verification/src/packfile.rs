//! The pack format: a header and a run of records, each a type and size,
//! an optional base reference, and a zlib stream.

use vstd::prelude::*;
use vstd::slice::slice_subrange;
use crate::frame::{append, ObjectKind};
use crate::hash::read_hash;
use crate::resolve::{resolve_all, resolve_pack, resolved_views, ResolvedObject, ResolvedView};
use crate::varint::{
    lemma_varint_roundtrip, offset_at, read_offset, read_varint, varint_at, varint_bytes,
    write_varint, PackError,
};
use crate::zlib::{inflate_prefix, zlib_inflated};

verus! {

/// What a record holds: a whole object of some kind, or a delta against a
/// base that is named by its distance back in the stream or by its
/// fingerprint.
#[derive(Debug, Clone, Copy)]
pub enum RecordType {
    Whole(ObjectKind),
    OfsDelta(u64),
    RefDelta([u8; 20]),
}

/// What a record type says.
pub enum RecordTypeView {
    Whole(ObjectKind),
    OfsDelta(int),
    RefDelta(Seq<u8>),
}

impl View for RecordType {
    type V = RecordTypeView;

    open spec fn view(&self) -> RecordTypeView {
        match self {
            RecordType::Whole(k) => RecordTypeView::Whole(*k),
            RecordType::OfsDelta(d) => RecordTypeView::OfsDelta(*d as int),
            RecordType::RefDelta(h) => RecordTypeView::RefDelta(h@),
        }
    }
}

/// What a record says: where it starts in the stream, its type, and its
/// inflated data.
pub struct RecordView {
    pub offset: int,
    pub kind: RecordTypeView,
    pub data: Seq<u8>,
}

/// One record of a pack, inflated.
#[derive(Debug, Clone)]
pub struct PackRecord {
    pub offset: usize,
    pub kind: RecordType,
    pub data: Vec<u8>,
}

impl View for PackRecord {
    type V = RecordView;

    open spec fn view(&self) -> RecordView {
        RecordView { offset: self.offset as int, kind: self.kind@, data: self.data@ }
    }
}

/// The views of a run of records.
pub open spec fn record_views(s: Seq<PackRecord>) -> Seq<RecordView> {
    s.map_values(|r: PackRecord| r@)
}

/// The type tag of a kind of object.
pub open spec fn tag_of_kind(kind: ObjectKind) -> int {
    match kind {
        ObjectKind::Commit => 1,
        ObjectKind::Tree => 2,
        ObjectKind::Blob => 3,
        ObjectKind::Tag => 4,
    }
}

/// The signature `PACK`.
pub open spec fn pack_magic() -> Seq<u8> {
    seq![80u8, 65, 67, 75]
}

/// The number in the four bytes at `pos`, high byte first.
pub open spec fn be32(bytes: Seq<u8>, pos: int) -> int {
    bytes[pos] * 16777216 + bytes[pos + 1] * 65536 + bytes[pos + 2] * 256 + bytes[pos + 3]
}

/// The number of records that a pack's header announces.
pub open spec fn pack_count(bytes: Seq<u8>) -> Result<int, PackError> {
    if bytes.len() < 4 || bytes.subrange(0, 4) != pack_magic() {
        Err(PackError::BadPackSignature)
    } else if bytes.len() < 8 {
        Err(PackError::TruncatedPack)
    } else if be32(bytes, 4) != 2 && be32(bytes, 4) != 3 {
        Err(PackError::UnsupportedPackVersion)
    } else if bytes.len() < 12 {
        Err(PackError::TruncatedPack)
    } else {
        Ok(be32(bytes, 8))
    }
}

/// The type tag and size that start at `pos`, and the index after them.
/// The first byte holds the tag in bits 4 to 6 and the low four bits of
/// the size; while the top bit is set, more bytes follow with seven more
/// bits each, low bits first.
pub open spec fn record_head_at(bytes: Seq<u8>, pos: int) -> Option<(int, int, int)> {
    if pos < 0 || pos >= bytes.len() {
        None
    } else {
        let b = bytes[pos] as int;
        if b < 128 {
            Some((b / 16 % 8, b % 16, pos + 1))
        } else {
            match varint_at(bytes, pos + 1) {
                None => None,
                Some((rest, next)) => Some((b / 16 % 8, b % 16 + 16 * rest, next)),
            }
        }
    }
}

/// The bytes that spell a type tag and a size.
pub open spec fn record_head_bytes(tag: int, size: nat) -> Seq<u8> {
    if size < 16 {
        seq![(tag * 16 + size) as u8]
    } else {
        seq![(128 + tag * 16 + size % 16) as u8] + varint_bytes(size / 16)
    }
}

/// Reads the four bytes at `pos`, high byte first.
fn read_be32(bytes: &[u8], pos: usize) -> (v: u32)
    requires
        pos + 4 <= bytes@.len(),
    ensures
        v == be32(bytes@, pos as int),
{
    let n = bytes.len();
    (bytes[pos] as u32) * 16777216 + (bytes[pos + 1] as u32) * 65536 + (bytes[pos + 2] as u32)
        * 256 + (bytes[pos + 3] as u32)
}

/// Reads a pack's header and gives the number of records it announces.
pub fn read_pack_header(bytes: &[u8]) -> (r: Result<u32, PackError>)
    ensures
        match pack_count(bytes@) {
            Ok(count) => r matches Ok(c) && c == count && bytes@.len() >= 12,
            Err(e) => r matches Err(f) && f == e,
        },
{
    let n = bytes.len();
    if n < 4 {
        return Err(PackError::BadPackSignature);
    }
    let ghost sig = bytes@.subrange(0, 4);
    proof {
        assert(sig[0] == bytes@[0] && sig[1] == bytes@[1] && sig[2] == bytes@[2] && sig[3]
            == bytes@[3]);
    }
    if bytes[0] != 80 || bytes[1] != 65 || bytes[2] != 67 || bytes[3] != 75 {
        return Err(PackError::BadPackSignature);
    }
    proof {
        assert(sig =~= pack_magic());
    }
    if n < 8 {
        return Err(PackError::TruncatedPack);
    }
    let version = read_be32(bytes, 4);
    if version != 2 && version != 3 {
        return Err(PackError::UnsupportedPackVersion);
    }
    if n < 12 {
        return Err(PackError::TruncatedPack);
    }
    Ok(read_be32(bytes, 8))
}

/// Reads the type tag and size that start at `pos`.
pub fn read_record_head(bytes: &[u8], pos: usize) -> (r: Result<(u8, u64, usize), PackError>)
    ensures
        match record_head_at(bytes@, pos as int) {
            None => r matches Err(e) && e == PackError::TruncatedVarint,
            Some((tag, size, next)) => if size <= u64::MAX {
                r matches Ok((t, s, n)) && t == tag && s == size && n == next && pos < n
                    <= bytes@.len() && t < 8
            } else {
                r matches Err(e) && e == PackError::OversizedVarint
            },
        },
{
    if pos >= bytes.len() {
        return Err(PackError::TruncatedVarint);
    }
    let b = bytes[pos];
    let tag: u8 = b / 16 % 8;
    let low: u64 = (b % 16) as u64;
    if b < 128 {
        return Ok((tag, low, pos + 1));
    }
    match read_varint(bytes, pos + 1) {
        Err(e) => {
            proof {
                crate::varint::lemma_varint_end(bytes@, pos + 1);
            }
            Err(e)
        },
        Ok((rest, next)) => {
            if rest > (u64::MAX - low) / 16 {
                Err(PackError::OversizedVarint)
            } else {
                Ok((tag, low + 16 * rest, next))
            }
        },
    }
}

/// Spells a type tag and a size.
pub fn write_record_head(tag: u8, size: u64) -> (out: Vec<u8>)
    requires
        tag < 8,
    ensures
        out@ == record_head_bytes(tag as int, size as nat),
{
    let mut out: Vec<u8> = Vec::new();
    if size < 16 {
        out.push(tag * 16 + size as u8);
    } else {
        out.push(128 + tag * 16 + (size % 16) as u8);
        let rest = write_varint(size / 16);
        append(&mut out, rest.as_slice());
    }
    assert(out@ =~= record_head_bytes(tag as int, size as nat));
    out
}

/// Reading back a spelled tag and size, whatever surrounds them, gives
/// both and the index after them.
pub proof fn lemma_record_head_roundtrip(prefix: Seq<u8>, tag: int, size: nat, rest: Seq<u8>)
    requires
        0 <= tag < 8,
    ensures
        record_head_at(prefix + record_head_bytes(tag, size) + rest, prefix.len() as int) == Some(
            (tag, size as int, (prefix.len() + record_head_bytes(tag, size).len()) as int),
        ),
{
    let s = prefix + record_head_bytes(tag, size) + rest;
    let pos = prefix.len() as int;
    if size < 16 {
        assert(s[pos] == (tag * 16 + size) as u8);
    } else {
        let first = (128 + tag * 16 + size % 16) as u8;
        assert(s[pos] == first);
        let prefix2 = prefix.push(first);
        assert(s =~= prefix2 + varint_bytes(size / 16) + rest);
        lemma_varint_roundtrip(prefix2, size / 16, rest);
    }
}

/// The kind of whole object that a type tag stands for.
pub open spec fn kind_of_tag(tag: int) -> Option<ObjectKind> {
    if tag == 1 {
        Some(ObjectKind::Commit)
    } else if tag == 2 {
        Some(ObjectKind::Tree)
    } else if tag == 3 {
        Some(ObjectKind::Blob)
    } else if tag == 4 {
        Some(ObjectKind::Tag)
    } else {
        None
    }
}

/// The type of the record whose tag is `tag` and whose base reference, if
/// it has one, starts at `pos`; with it the index where the record's zlib
/// stream starts.
pub open spec fn record_type_at(bytes: Seq<u8>, pos: int, tag: int) -> Result<
    (RecordTypeView, int),
    PackError,
> {
    if tag == 6 {
        match offset_at(bytes, pos, 0) {
            None => Err(PackError::TruncatedVarint),
            Some((distance, next)) => if distance <= u64::MAX {
                Ok((RecordTypeView::OfsDelta(distance), next))
            } else {
                Err(PackError::OversizedVarint)
            },
        }
    } else if tag == 7 {
        if pos + 20 <= bytes.len() {
            Ok((RecordTypeView::RefDelta(bytes.subrange(pos, pos + 20)), pos + 20))
        } else {
            Err(PackError::TruncatedPack)
        }
    } else {
        match kind_of_tag(tag) {
            Some(kind) => Ok((RecordTypeView::Whole(kind), pos)),
            None => Err(PackError::UnknownRecordType),
        }
    }
}

/// The record that starts at `offset` with the given type and declared
/// size, once its zlib stream, which starts at `start`, has been inflated:
/// the stream must lie within the `len` bytes of the pack and inflate to
/// exactly the declared size. With the record comes the index after it.
pub open spec fn finished_record(
    offset: int,
    kind: RecordTypeView,
    size: int,
    start: int,
    len: int,
    inflated: Option<(Seq<u8>, int)>,
) -> Result<(RecordView, int), PackError> {
    match inflated {
        None => Err(PackError::CorruptObject),
        Some((data, used)) => if 0 <= used && start + used <= len && data.len() == size {
            Ok((RecordView { offset, kind, data }, start + used))
        } else {
            Err(PackError::CorruptObject)
        },
    }
}

/// The record that starts at `pos`, and the index after it.
pub open spec fn record_at(bytes: Seq<u8>, pos: int) -> Result<(RecordView, int), PackError> {
    match record_head_at(bytes, pos) {
        None => Err(PackError::TruncatedVarint),
        Some((tag, size, at1)) => if size > u64::MAX {
            Err(PackError::OversizedVarint)
        } else {
            match record_type_at(bytes, at1, tag) {
                Err(e) => Err(e),
                Ok((kind, start)) => finished_record(
                    pos,
                    kind,
                    size,
                    start,
                    bytes.len() as int,
                    zlib_inflated(bytes.subrange(start, bytes.len() as int)),
                ),
            }
        },
    }
}

/// The next `count` records from `pos` on.
pub open spec fn records_at(bytes: Seq<u8>, pos: int, count: nat) -> Result<
    Seq<RecordView>,
    PackError,
>
    decreases count,
{
    if count == 0 {
        Ok(Seq::empty())
    } else {
        match record_at(bytes, pos) {
            Err(e) => Err(e),
            Ok((record, next)) => match records_at(bytes, next, (count - 1) as nat) {
                Err(e) => Err(e),
                Ok(rest) => Ok(seq![record] + rest),
            },
        }
    }
}

/// The records of a pack: as many as its header announces, from the end
/// of the header on.
pub open spec fn pack_records(bytes: Seq<u8>) -> Result<Seq<RecordView>, PackError> {
    match pack_count(bytes) {
        Err(e) => Err(e),
        Ok(count) => records_at(bytes, 12, count as nat),
    }
}

/// Reads the base reference of a record with the given tag.
pub fn read_record_type(bytes: &[u8], pos: usize, tag: u8) -> (r: Result<
    (RecordType, usize),
    PackError,
>)
    ensures
        match record_type_at(bytes@, pos as int, tag as int) {
            Ok((kind, next)) => r matches Ok((k, n)) && k@ == kind && n == next && pos <= n && (
            pos <= bytes@.len() ==> n <= bytes@.len()),
            Err(e) => r matches Err(f) && f == e,
        },
{
    if tag == 6 {
        match read_offset(bytes, pos) {
            Ok((distance, next)) => Ok((RecordType::OfsDelta(distance), next)),
            Err(e) => Err(e),
        }
    } else if tag == 7 {
        if pos > bytes.len() || bytes.len() - pos < 20 {
            Err(PackError::TruncatedPack)
        } else {
            Ok((RecordType::RefDelta(read_hash(bytes, pos)), pos + 20))
        }
    } else if tag == 1 {
        Ok((RecordType::Whole(ObjectKind::Commit), pos))
    } else if tag == 2 {
        Ok((RecordType::Whole(ObjectKind::Tree), pos))
    } else if tag == 3 {
        Ok((RecordType::Whole(ObjectKind::Blob), pos))
    } else if tag == 4 {
        Ok((RecordType::Whole(ObjectKind::Tag), pos))
    } else {
        Err(PackError::UnknownRecordType)
    }
}

/// Makes a record of what inflating its zlib stream gave.
pub fn finish_record(
    offset: usize,
    kind: RecordType,
    size: u64,
    start: usize,
    len: usize,
    inflated: Option<(Vec<u8>, usize)>,
) -> (r: Result<(PackRecord, usize), PackError>)
    ensures
        match finished_record(
            offset as int,
            kind@,
            size as int,
            start as int,
            len as int,
            match inflated {
                Some((data, used)) => Some((data@, used as int)),
                None => None,
            },
        ) {
            Ok((record, next)) => r matches Ok((x, n)) && x@ == record && n == next && start <= n
                <= len,
            Err(e) => r matches Err(f) && f == e,
        },
{
    match inflated {
        None => Err(PackError::CorruptObject),
        Some((data, used)) => {
            if start > len || used > len - start || data.len() as u64 != size {
                Err(PackError::CorruptObject)
            } else {
                Ok((PackRecord { offset, kind, data }, start + used))
            }
        },
    }
}

/// Reads the record that starts at `pos`.
pub fn read_record(bytes: &[u8], pos: usize) -> (r: Result<(PackRecord, usize), PackError>)
    ensures
        match record_at(bytes@, pos as int) {
            Ok((record, next)) => r matches Ok((x, n)) && x@ == record && n == next && pos < n
                <= bytes@.len(),
            Err(e) => r matches Err(f) && f == e,
        },
{
    let n = bytes.len();
    let (tag, size, at1) = match read_record_head(bytes, pos) {
        Ok(head) => head,
        Err(e) => {
            return Err(e);
        },
    };
    let (kind, start) = match read_record_type(bytes, at1, tag) {
        Ok(found) => found,
        Err(e) => {
            return Err(e);
        },
    };
    let inflated = inflate_prefix(slice_subrange(bytes, start, n));
    finish_record(pos, kind, size, start, n, inflated)
}

/// Reads a whole pack: its header and all the records it announces.
pub fn parse_pack(bytes: &[u8]) -> (r: Result<Vec<PackRecord>, PackError>)
    ensures
        match pack_records(bytes@) {
            Ok(records) => r matches Ok(found) && record_views(found@) == records,
            Err(e) => r matches Err(f) && f == e,
        },
{
    let count = match read_pack_header(bytes) {
        Ok(count) => count,
        Err(e) => {
            return Err(e);
        },
    };
    let mut records: Vec<PackRecord> = Vec::new();
    let mut pos: usize = 12;
    let mut left: u32 = count;
    proof {
        assert(record_views(records@) =~= Seq::<RecordView>::empty());
        match records_at(bytes@, 12, count as nat) {
            Ok(rest) => {
                assert(record_views(records@) + rest =~= rest);
            },
            Err(_) => {},
        }
    }
    while left > 0
        invariant
            pos <= bytes@.len(),
            pack_count(bytes@) == Ok::<int, PackError>(count as int),
            records_at(bytes@, 12, count as nat) == match records_at(
                bytes@,
                pos as int,
                left as nat,
            ) {
                Ok(rest) => Ok::<Seq<RecordView>, PackError>(record_views(records@) + rest),
                Err(e) => Err(e),
            },
        decreases left,
    {
        let (record, next) = match read_record(bytes, pos) {
            Ok(found) => found,
            Err(e) => {
                proof {
                    assert(records_at(bytes@, pos as int, left as nat) == Err::<
                        Seq<RecordView>,
                        PackError,
                    >(e));
                }
                return Err(e);
            },
        };
        let ghost before = record_views(records@);
        let ghost view = record@;
        records.push(record);
        proof {
            assert(record_views(records@) =~= before.push(view));
            match records_at(bytes@, next as int, (left - 1) as nat) {
                Ok(rest) => {
                    assert(before + (seq![view] + rest) =~= before.push(view) + rest);
                },
                Err(_) => {},
            }
        }
        pos = next;
        left = left - 1;
    }
    proof {
        assert(record_views(records@) + Seq::<RecordView>::empty() =~= record_views(records@));
    }
    Ok(records)
}

/// A decoded pack: its records as they stand in the stream, and the
/// object that each record resolves to.
#[derive(Debug, Clone)]
pub struct Packfile {
    pub records: Vec<PackRecord>,
    pub objects: Vec<ResolvedObject>,
}

/// What a pack decodes to, given the objects `known` from the store: its
/// records and their objects, or the error of the first stage that fails.
pub open spec fn decoded(data: Seq<u8>, known: Seq<ResolvedView>) -> Result<
    (Seq<RecordView>, Seq<ResolvedView>),
    PackError,
> {
    match pack_records(data) {
        Err(e) => Err(e),
        Ok(records) => match resolve_all(records, known) {
            Err(e) => Err(e),
            Ok(objects) => Ok((records, objects)),
        },
    }
}

impl Packfile {
    /// Decodes a pack from the bytes of a transfer: reads the header and
    /// the records, then resolves every record to its object. `known` holds
    /// the objects of the store that deltas may name as bases. A pack that
    /// fails at any point gives no objects at all.
    pub fn parse_data(data: &[u8], known: &Vec<ResolvedObject>) -> (r: Result<Packfile, PackError>)
        ensures
            match decoded(data@, resolved_views(known@)) {
                Ok((records, objects)) => r matches Ok(pack) && record_views(pack.records@)
                    == records && resolved_views(pack.objects@) == objects,
                Err(e) => r matches Err(f) && f == e,
            },
    {
        let records = match parse_pack(data) {
            Ok(records) => records,
            Err(e) => {
                return Err(e);
            },
        };
        match resolve_pack(&records, known) {
            Ok(objects) => Ok(Packfile { records, objects }),
            Err(e) => Err(e),
        }
    }
}

} // verus!
