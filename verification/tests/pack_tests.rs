use tgit::delta::{apply, apply_delta, parse_delta, resolve_delta, Delta, DeltaOp};
use tgit::frame::ObjectKind;
use tgit::hash::{digest, from_hex, to_hex};
use tgit::packfile::{
    finish_record, parse_pack, read_pack_header, read_record, read_record_head, read_record_type,
    write_record_head, PackRecord, Packfile, RecordType,
};
use tgit::resolve::{resolve_pack, wanted_bases, ResolvedObject};
use tgit::varint::{read_offset, read_varint, write_varint, PackError};
use tgit::zlib::zlib_compress;

const HELLO: &str = "ce013625030ba8dba906f756967f9e9ca394464a";

fn delta_bytes() -> Vec<u8> {
    vec![10, 11, 0x90, 5, 1, b'X', 0x91, 5, 5]
}

fn header(count: u32) -> Vec<u8> {
    let mut bytes = b"PACK".to_vec();
    bytes.extend_from_slice(&[0, 0, 0, 2]);
    bytes.extend_from_slice(&count.to_be_bytes());
    bytes
}

fn whole(offset: usize, kind: ObjectKind, data: &[u8]) -> PackRecord {
    PackRecord { offset, kind: RecordType::Whole(kind), data: data.to_vec() }
}

#[test]
fn varint_round_trip_of_sizes() {
    for n in [0u64, 1, 127, 128, 16384, (1u64 << 35) - 1, u64::MAX] {
        let bytes = write_varint(n);
        assert_eq!(read_varint(&bytes, 0), Ok((n, bytes.len())));
        let mut padded = vec![0xffu8];
        padded.extend_from_slice(&bytes);
        padded.push(0x80);
        assert_eq!(read_varint(&padded, 1), Ok((n, bytes.len() + 1)));
    }
}

#[test]
fn varint_known_encodings() {
    assert_eq!(write_varint(0), vec![0]);
    assert_eq!(write_varint(127), vec![0x7f]);
    assert_eq!(write_varint(128), vec![0x80, 0x01]);
    assert_eq!(write_varint(16384), vec![0x80, 0x80, 0x01]);
    assert_eq!(write_varint((1 << 35) - 1), vec![0xff, 0xff, 0xff, 0xff, 0x7f]);
    assert_eq!(read_varint(&[0xe5, 0x8e, 0x26], 0), Ok((624485, 3)));
}

#[test]
fn varint_truncated_or_oversized() {
    assert_eq!(read_varint(&[], 0), Err(PackError::TruncatedVarint));
    assert_eq!(read_varint(&[0x80], 0), Err(PackError::TruncatedVarint));
    assert_eq!(read_varint(&[0x80, 0xff], 0), Err(PackError::TruncatedVarint));
    assert_eq!(read_varint(&[1, 2], 2), Err(PackError::TruncatedVarint));
    assert_eq!(read_varint(&[1, 2], 7), Err(PackError::TruncatedVarint));
    assert_eq!(read_offset(&[1, 2], 7), Err(PackError::TruncatedVarint));
    let big = [0xff, 0xff, 0xff, 0xff, 0xff, 0xff, 0xff, 0xff, 0xff, 0x02];
    assert_eq!(read_varint(&big, 0), Err(PackError::OversizedVarint));
    let max = [0xff, 0xff, 0xff, 0xff, 0xff, 0xff, 0xff, 0xff, 0xff, 0x01];
    assert_eq!(read_varint(&max, 0), Ok((u64::MAX, 10)));
    let padded = [0x81, 0x80, 0x80, 0x80, 0x80, 0x80, 0x80, 0x80, 0x80, 0x80, 0x80, 0x00];
    assert_eq!(read_varint(&padded, 0), Ok((1, 12)));
}

#[test]
fn record_head_round_trip_of_sizes() {
    for tag in [1u8, 2, 3, 4, 6, 7] {
        for size in [0u64, 1, 15, 16, 127, 128, 16384, (1u64 << 35) - 1] {
            let bytes = write_record_head(tag, size);
            assert_eq!(read_record_head(&bytes, 0), Ok((tag, size, bytes.len())));
        }
    }
}

#[test]
fn record_head_known_encodings() {
    assert_eq!(write_record_head(3, 6), vec![0x36]);
    assert_eq!(write_record_head(1, 16), vec![0x90, 0x01]);
    assert_eq!(write_record_head(2, 300), vec![0xac, 0x12]);
    assert_eq!(read_record_head(&[0x9f, 0x80, 0x01], 0), Ok((1, 15 + 16 * 128, 3)));
    assert_eq!(read_record_head(&[0x36], 1), Err(PackError::TruncatedVarint));
    assert_eq!(read_record_head(&[0x36], 5), Err(PackError::TruncatedVarint));
    assert_eq!(read_record_head(&[0xb6], 0), Err(PackError::TruncatedVarint));
    assert_eq!(read_record_head(&[0xb6, 0x80], 0), Err(PackError::TruncatedVarint));
    let big = [0xbf, 0xff, 0xff, 0xff, 0xff, 0xff, 0xff, 0xff, 0xff, 0x7f];
    assert_eq!(read_record_head(&big, 0), Err(PackError::OversizedVarint));
}

#[test]
fn offsets_add_one_per_continuation() {
    assert_eq!(read_offset(&[0x05], 0), Ok((5, 1)));
    assert_eq!(read_offset(&[0x7f], 0), Ok((127, 1)));
    assert_eq!(read_offset(&[0x80, 0x00], 0), Ok((128, 2)));
    assert_eq!(read_offset(&[0x81, 0x00], 0), Ok((256, 2)));
    assert_eq!(read_offset(&[0x80, 0x80, 0x00], 0), Ok((16512, 3)));
    assert_eq!(read_offset(&[0x80], 0), Err(PackError::TruncatedVarint));
    assert_eq!(read_offset(&[], 0), Err(PackError::TruncatedVarint));
    let big = [0xff, 0xff, 0xff, 0xff, 0xff, 0xff, 0xff, 0xff, 0xff, 0xff, 0x00];
    assert_eq!(read_offset(&big, 0), Err(PackError::OversizedVarint));
}

#[test]
fn header_is_checked_in_order() {
    assert_eq!(read_pack_header(&header(7)), Ok(7));
    assert_eq!(read_pack_header(&header(0x01020304)), Ok(0x01020304));
    assert_eq!(read_pack_header(b"PAC"), Err(PackError::BadPackSignature));
    assert_eq!(read_pack_header(b"pack\0\0\0\x02\0\0\0\0"), Err(PackError::BadPackSignature));
    assert_eq!(read_pack_header(b""), Err(PackError::BadPackSignature));
    assert_eq!(read_pack_header(b"PACK\0\0"), Err(PackError::TruncatedPack));
    assert_eq!(read_pack_header(b"PACK\0\0\0\x01\0\0\0\0"), Err(PackError::UnsupportedPackVersion));
    assert_eq!(read_pack_header(b"PACK\0\0\0\x04"), Err(PackError::UnsupportedPackVersion));
    assert_eq!(read_pack_header(b"PACK\0\0\0\x03\0\0\0\x05"), Ok(5));
    assert_eq!(read_pack_header(b"PACK\0\0\0\x02\0\0"), Err(PackError::TruncatedPack));
}

#[test]
fn record_types_by_tag() {
    let hash = from_hex(HELLO).unwrap();
    let mut bytes = vec![0u8];
    bytes.extend_from_slice(&hash);
    assert!(matches!(read_record_type(&bytes, 1, 1), Ok((RecordType::Whole(ObjectKind::Commit), 1))));
    assert!(matches!(read_record_type(&bytes, 1, 2), Ok((RecordType::Whole(ObjectKind::Tree), 1))));
    assert!(matches!(read_record_type(&bytes, 1, 3), Ok((RecordType::Whole(ObjectKind::Blob), 1))));
    assert!(matches!(read_record_type(&bytes, 1, 4), Ok((RecordType::Whole(ObjectKind::Tag), 1))));
    assert!(matches!(read_record_type(&bytes, 0, 6), Ok((RecordType::OfsDelta(0), 1))));
    match read_record_type(&bytes, 1, 7) {
        Ok((RecordType::RefDelta(h), 21)) => assert_eq!(h, hash),
        other => panic!("not a delta by fingerprint: {:?}", other),
    }
    assert_eq!(read_record_type(&bytes, 2, 7).err(), Some(PackError::TruncatedPack));
    assert_eq!(read_record_type(&bytes, 0, 0).err(), Some(PackError::UnknownRecordType));
    assert_eq!(read_record_type(&bytes, 0, 5).err(), Some(PackError::UnknownRecordType));
}

#[test]
fn finish_record_checks_size_and_bounds() {
    let kind = RecordType::Whole(ObjectKind::Blob);
    let (record, next) = finish_record(12, kind, 6, 13, 40, Some((b"hello\n".to_vec(), 14))).unwrap();
    assert_eq!(record.offset, 12);
    assert_eq!(record.data, b"hello\n".to_vec());
    assert_eq!(next, 27);
    assert_eq!(finish_record(12, kind, 6, 13, 40, None).err(), Some(PackError::CorruptObject));
    assert_eq!(finish_record(12, kind, 5, 13, 40, Some((b"hello\n".to_vec(), 14))).err(), Some(PackError::CorruptObject));
    assert_eq!(finish_record(12, kind, 6, 13, 26, Some((b"hello\n".to_vec(), 14))).err(), Some(PackError::CorruptObject));
    assert!(finish_record(12, kind, 6, 13, 27, Some((b"hello\n".to_vec(), 14))).is_ok());
    assert_eq!(finish_record(12, kind, 6, 41, 40, Some((b"hello\n".to_vec(), 0))).err(), Some(PackError::CorruptObject));
}

#[test]
fn pack_of_a_blob_and_a_delta() {
    let mut bytes = header(2);
    let first = bytes.len();
    bytes.extend(write_record_head(3, 10));
    bytes.extend(zlib_compress(b"0123456789").unwrap());
    let second = bytes.len();
    let delta = delta_bytes();
    bytes.extend(write_record_head(6, delta.len() as u64));
    bytes.push((second - first) as u8);
    bytes.extend(zlib_compress(&delta).unwrap());
    bytes.extend_from_slice(&[0u8; 20]);

    let records = parse_pack(&bytes).unwrap();
    assert_eq!(records.len(), 2);
    assert_eq!(records[0].offset, first);
    assert!(matches!(records[0].kind, RecordType::Whole(ObjectKind::Blob)));
    assert_eq!(records[0].data, b"0123456789".to_vec());
    assert_eq!(records[1].offset, second);
    match records[1].kind {
        RecordType::OfsDelta(d) => assert_eq!(d as usize, second - first),
        other => panic!("not a delta by distance: {:?}", other),
    }
    assert_eq!(records[1].data, delta);

    let objects = resolve_pack(&records, &Vec::new()).unwrap();
    assert_eq!(objects.len(), 2);
    assert_eq!(objects[0].data, b"0123456789".to_vec());
    assert_eq!(objects[1].kind, ObjectKind::Blob);
    assert_eq!(objects[1].data, b"01234X56789".to_vec());
    assert_eq!(objects[1].hash, digest(b"blob 11\x0001234X56789"));
    assert_eq!(objects[1].frame_bytes(), b"blob 11\x0001234X56789".to_vec());

    let pack = Packfile::parse_data(&bytes, &Vec::new()).unwrap();
    assert_eq!(pack.records.len(), 2);
    assert_eq!(pack.objects.len(), 2);
    assert_eq!(pack.objects[1].data, b"01234X56789".to_vec());
    assert_eq!(pack.objects[1].frame_bytes(), b"blob 11\x0001234X56789".to_vec());
    let (record, next) = read_record(&bytes, first).unwrap();
    assert_eq!(record.data, b"0123456789".to_vec());
    assert_eq!(next, second);
}

#[test]
fn pack_errors() {
    let mut bytes = header(1);
    assert_eq!(parse_pack(&bytes).err(), Some(PackError::TruncatedVarint));
    bytes.extend(write_record_head(3, 6));
    assert_eq!(parse_pack(&bytes).err(), Some(PackError::CorruptObject));
    bytes.extend_from_slice(b"not zlib");
    assert_eq!(parse_pack(&bytes).err(), Some(PackError::CorruptObject));

    let mut wrong_size = header(1);
    wrong_size.extend(write_record_head(3, 7));
    wrong_size.extend(zlib_compress(b"hello\n").unwrap());
    assert_eq!(parse_pack(&wrong_size).err(), Some(PackError::CorruptObject));

    let mut unknown = header(1);
    unknown.extend(write_record_head(5, 6));
    unknown.extend(zlib_compress(b"hello\n").unwrap());
    assert_eq!(parse_pack(&unknown).err(), Some(PackError::UnknownRecordType));

    let mut cut = header(1);
    cut.extend(write_record_head(7, 6));
    cut.extend_from_slice(&[1, 2, 3]);
    assert_eq!(parse_pack(&cut).err(), Some(PackError::TruncatedPack));

    let mut too_many = header(2);
    too_many.extend(write_record_head(3, 6));
    too_many.extend(zlib_compress(b"hello\n").unwrap());
    assert_eq!(parse_pack(&too_many).err(), Some(PackError::TruncatedVarint));

    assert_eq!(parse_pack(b"JUNKJUNKJUNK").err(), Some(PackError::BadPackSignature));
    assert_eq!(parse_pack(&header(0)).map(|r| r.len()), Ok(0));
}

#[test]
fn delta_copy_insert_copy() {
    let ops = vec![
        DeltaOp::Copy { offset: 0, len: 5 },
        DeltaOp::Insert(b"X".to_vec()),
        DeltaOp::Copy { offset: 5, len: 5 },
    ];
    assert_eq!(apply(b"0123456789", &ops), Ok(b"01234X56789".to_vec()));
    let delta = Delta { base_size: 10, result_size: 11, ops };
    assert_eq!(apply_delta(b"0123456789", &delta), Ok(b"01234X56789".to_vec()));
    assert_eq!(resolve_delta(b"0123456789", &delta_bytes()), Ok(b"01234X56789".to_vec()));
}

#[test]
fn delta_is_parsed_from_bytes() {
    let delta = parse_delta(&delta_bytes()).unwrap();
    assert_eq!(delta.base_size, 10);
    assert_eq!(delta.result_size, 11);
    assert_eq!(delta.ops.len(), 3);
    assert!(matches!(delta.ops[0], DeltaOp::Copy { offset: 0, len: 5 }));
    assert!(matches!(&delta.ops[1], DeltaOp::Insert(d) if d == b"X"));
    assert!(matches!(delta.ops[2], DeltaOp::Copy { offset: 5, len: 5 }));
    let wide = parse_delta(&[0, 0, 0xff, 1, 2, 3, 4, 5, 6, 7]).unwrap();
    assert!(matches!(wide.ops[0], DeltaOp::Copy { offset: 0x04030201, len: 0x070605 }));
    let zero = parse_delta(&[0, 0, 0x80]).unwrap();
    assert!(matches!(zero.ops[0], DeltaOp::Copy { offset: 0, len: 65536 }));
    let high = parse_delta(&[0, 0, 0xa8, 9, 2]).unwrap();
    assert!(matches!(high.ops[0], DeltaOp::Copy { offset: 0x09000000, len: 0x0200 }));
    assert_eq!(parse_delta(&[3, 4]).unwrap().ops.len(), 0);
}

#[test]
fn delta_errors() {
    assert_eq!(parse_delta(&[]).err(), Some(PackError::BadDelta));
    assert_eq!(parse_delta(&[10]).err(), Some(PackError::BadDelta));
    assert_eq!(parse_delta(&[10, 0x80]).err(), Some(PackError::BadDelta));
    assert_eq!(parse_delta(&[10, 11, 0]).err(), Some(PackError::BadDelta));
    assert_eq!(parse_delta(&[10, 11, 0x90]).err(), Some(PackError::BadDelta));
    assert_eq!(parse_delta(&[10, 11, 2, b'X']).err(), Some(PackError::BadDelta));
    let out_of_base = vec![DeltaOp::Copy { offset: 6, len: 5 }];
    assert_eq!(apply(b"0123456789", &out_of_base), Err(PackError::BadDelta));
    let far = vec![DeltaOp::Copy { offset: u64::MAX, len: u64::MAX }];
    assert_eq!(apply(b"0123456789", &far), Err(PackError::BadDelta));
    let edge = vec![DeltaOp::Copy { offset: 10, len: 0 }, DeltaOp::Copy { offset: 5, len: 5 }];
    assert_eq!(apply(b"0123456789", &edge), Ok(b"56789".to_vec()));
    assert_eq!(resolve_delta(b"012345678", &delta_bytes()), Err(PackError::BadDelta));
    let mut wrong_result = delta_bytes();
    wrong_result[1] = 12;
    assert_eq!(resolve_delta(b"0123456789", &wrong_result), Err(PackError::BadDelta));
}

#[test]
fn delta_that_names_itself_is_a_cycle() {
    let records = vec![
        whole(12, ObjectKind::Blob, b"0123456789"),
        PackRecord { offset: 30, kind: RecordType::OfsDelta(0), data: delta_bytes() },
    ];
    assert_eq!(resolve_pack(&records, &Vec::new()).err(), Some(PackError::DeltaCycle));
    let alone = vec![PackRecord { offset: 12, kind: RecordType::OfsDelta(0), data: delta_bytes() }];
    assert_eq!(resolve_pack(&alone, &Vec::new()).err(), Some(PackError::DeltaCycle));
}

#[test]
fn delta_without_base_is_missing() {
    let before_start = vec![
        whole(12, ObjectKind::Blob, b"0123456789"),
        PackRecord { offset: 30, kind: RecordType::OfsDelta(31), data: delta_bytes() },
    ];
    assert_eq!(resolve_pack(&before_start, &Vec::new()).err(), Some(PackError::MissingBase));
    let between = vec![
        whole(12, ObjectKind::Blob, b"0123456789"),
        PackRecord { offset: 30, kind: RecordType::OfsDelta(17), data: delta_bytes() },
    ];
    assert_eq!(resolve_pack(&between, &Vec::new()).err(), Some(PackError::MissingBase));
    let unknown = vec![PackRecord { offset: 12, kind: RecordType::RefDelta([1; 20]), data: delta_bytes() }];
    assert_eq!(resolve_pack(&unknown, &Vec::new()).err(), Some(PackError::MissingBase));
    let own_result = digest(b"blob 11\x0001234X56789");
    let itself = vec![PackRecord { offset: 12, kind: RecordType::RefDelta(own_result), data: delta_bytes() }];
    assert_eq!(resolve_pack(&itself, &Vec::new()).err(), Some(PackError::MissingBase));
}

#[test]
fn delta_by_fingerprint_finds_its_base() {
    let base = digest(b"blob 10\x000123456789");
    let in_pack = vec![
        whole(12, ObjectKind::Blob, b"0123456789"),
        PackRecord { offset: 30, kind: RecordType::RefDelta(base), data: delta_bytes() },
    ];
    let objects = resolve_pack(&in_pack, &Vec::new()).unwrap();
    assert_eq!(objects[1].data, b"01234X56789".to_vec());
    assert_eq!(objects[0].hash, base);

    let thin = vec![PackRecord { offset: 12, kind: RecordType::RefDelta(base), data: delta_bytes() }];
    let known = vec![ResolvedObject::new(ObjectKind::Tree, b"0123456789".to_vec()), ResolvedObject::new(ObjectKind::Blob, b"0123456789".to_vec())];
    let objects = resolve_pack(&thin, &known).unwrap();
    assert_eq!(objects.len(), 1);
    assert_eq!(objects[0].kind, ObjectKind::Blob);
    assert_eq!(objects[0].data, b"01234X56789".to_vec());
    assert_eq!(wanted_bases(&thin), vec![base]);
    assert_eq!(wanted_bases(&in_pack), vec![base]);
    assert!(wanted_bases(&vec![whole(12, ObjectKind::Blob, b"x")]).is_empty());
}

#[test]
fn delta_chains_keep_the_kind() {
    let second = vec![11, 12, 0x90, 11, 1, b'Y'];
    let records = vec![
        whole(12, ObjectKind::Commit, b"0123456789"),
        PackRecord { offset: 40, kind: RecordType::OfsDelta(28), data: delta_bytes() },
        PackRecord { offset: 70, kind: RecordType::OfsDelta(30), data: second },
    ];
    let objects = resolve_pack(&records, &Vec::new()).unwrap();
    assert_eq!(objects[2].kind, ObjectKind::Commit);
    assert_eq!(objects[2].data, b"01234X56789Y".to_vec());
    assert_eq!(to_hex(&objects[2].hash), to_hex(&digest(b"commit 12\x0001234X56789Y")));
}

#[test]
fn bad_delta_fails_the_pack() {
    let records = vec![
        whole(12, ObjectKind::Blob, b"short"),
        PackRecord { offset: 30, kind: RecordType::OfsDelta(18), data: delta_bytes() },
    ];
    assert_eq!(resolve_pack(&records, &Vec::new()).err(), Some(PackError::BadDelta));
    let waiting_is_no_failure = vec![
        PackRecord { offset: 12, kind: RecordType::RefDelta([1; 20]), data: delta_bytes() },
        PackRecord { offset: 30, kind: RecordType::OfsDelta(0), data: delta_bytes() },
    ];
    assert_eq!(resolve_pack(&waiting_is_no_failure, &Vec::new()).err(), Some(PackError::DeltaCycle));
    let first_failure_wins = vec![
        PackRecord { offset: 12, kind: RecordType::OfsDelta(13), data: delta_bytes() },
        PackRecord { offset: 30, kind: RecordType::OfsDelta(0), data: delta_bytes() },
    ];
    assert_eq!(resolve_pack(&first_failure_wins, &Vec::new()).err(), Some(PackError::MissingBase));
}

#[test]
fn bases_may_stand_anywhere_in_the_stream() {
    let base = digest(b"blob 10\x000123456789");
    let middle = digest(b"blob 11\x0001234X56789");
    let second = vec![11, 12, 0x90, 11, 1, b'Y'];
    let records = vec![
        PackRecord { offset: 12, kind: RecordType::RefDelta(middle), data: second },
        PackRecord { offset: 40, kind: RecordType::RefDelta(base), data: delta_bytes() },
        whole(70, ObjectKind::Blob, b"0123456789"),
    ];
    let objects = resolve_pack(&records, &Vec::new()).unwrap();
    assert_eq!(objects.len(), 3);
    assert_eq!(objects[0].data, b"01234X56789Y".to_vec());
    assert_eq!(objects[1].data, b"01234X56789".to_vec());
    assert_eq!(objects[1].hash, middle);
    assert_eq!(objects[2].data, b"0123456789".to_vec());
    assert_eq!(objects[0].kind, ObjectKind::Blob);

    let by_distance = vec![
        PackRecord { offset: 30, kind: RecordType::OfsDelta(18), data: delta_bytes() },
        whole(12, ObjectKind::Tree, b"0123456789"),
    ];
    let objects = resolve_pack(&by_distance, &Vec::new()).unwrap();
    assert_eq!(objects[0].data, b"01234X56789".to_vec());
    assert_eq!(objects[0].kind, ObjectKind::Tree);

    let stuck = vec![
        PackRecord { offset: 12, kind: RecordType::RefDelta(middle), data: vec![11, 12, 0x90, 11, 1, b'Y'] },
        PackRecord { offset: 40, kind: RecordType::RefDelta([9; 20]), data: delta_bytes() },
        whole(70, ObjectKind::Blob, b"0123456789"),
    ];
    assert_eq!(resolve_pack(&stuck, &Vec::new()).err(), Some(PackError::MissingBase));
}

#[test]
fn stored_objects_serve_as_bases() {
    let blob = tgit::object::Object::Blob(tgit::blob::Blob::new(b"0123456789".to_vec()));
    let base = ResolvedObject::of_object(&blob);
    assert_eq!(base.kind, ObjectKind::Blob);
    assert_eq!(base.data, b"0123456789".to_vec());
    assert_eq!(base.hash, digest(b"blob 10\x000123456789"));
    let thin = vec![PackRecord { offset: 12, kind: RecordType::RefDelta(base.hash), data: delta_bytes() }];
    let objects = resolve_pack(&thin, &vec![base]).unwrap();
    assert_eq!(objects[0].data, b"01234X56789".to_vec());
}
