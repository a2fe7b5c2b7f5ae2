use dewey::object::hash_object;
use dewey::pack::{
    clone, decode_entry, read_entry_header, read_pack_header, rebuild, resolve_base, EntryHeader,
    EntryKind,
};
use dewey::transport::encode_packet;
use dewey::varint::{encode_header_varint, encode_offset_varint};
use dewey::{parse_pack, ObjectKind, PackError, PackFailure, PackObject, PackTable};
use sha1::{Digest, Sha1};
use std::io::Write;

fn sha1_of(bytes: &[u8]) -> Vec<u8> {
    let mut hasher = Sha1::new();
    hasher.update(bytes);
    hasher.finalize().to_vec()
}

fn zlib(bytes: &[u8]) -> Vec<u8> {
    let mut encoder =
        flate2::write::ZlibEncoder::new(Vec::new(), flate2::Compression::default());
    encoder.write_all(bytes).unwrap();
    encoder.finish().unwrap()
}

fn pack_header(count: u32) -> Vec<u8> {
    let mut pack = b"PACK".to_vec();
    pack.extend([0, 0, 0, 2]);
    pack.extend(count.to_be_bytes());
    pack
}

fn object_at(offset: usize, kind: ObjectKind, data: &[u8]) -> PackObject {
    PackObject {
        offset,
        kind,
        hash: hash_object(kind, data),
        data: data.to_vec(),
        declared_size: data.len() as u128,
        inflated_size: data.len(),
        packed_size: 1 + zlib(data).len(),
        base: None,
    }
}

// insert " there\n" after the first two bytes of "hi\n"
fn hi_there_delta() -> Vec<u8> {
    let mut delta = vec![3, 9, 0x90, 0x02, 0x07];
    delta.extend(b" there\n");
    delta
}

// a blob "hi\n" and an offset delta that makes "hi there\n" of it
fn two_object_pack() -> (Vec<u8>, usize) {
    let mut pack = pack_header(2);
    pack.extend(encode_header_varint(3, 3));
    pack.extend(zlib(b"hi\n"));
    let second = pack.len();
    let delta = hi_there_delta();
    pack.extend(encode_header_varint(6, delta.len() as u128));
    pack.extend(encode_offset_varint((second - 12) as u128));
    pack.extend(zlib(&delta));
    pack.extend([0u8; 20]);
    (pack, second)
}

#[test]
fn pack_header_count_is_big_endian() {
    assert_eq!(read_pack_header(&pack_header(2)), Ok(2));
    assert_eq!(read_pack_header(&pack_header(0x01020304)), Ok(0x01020304));
    assert_eq!(read_pack_header(&pack_header(u32::MAX)), Ok(u32::MAX));
}

#[test]
fn pack_header_magic_and_version_are_passed_over() {
    assert_eq!(read_pack_header(&[9, 9, 9, 9, 9, 9, 9, 9, 0, 0, 1, 0]), Ok(256));
}

#[test]
fn pack_header_truncated() {
    assert_eq!(read_pack_header(b"PACK"), Err(PackError::TruncatedInput));
    assert_eq!(read_pack_header(&pack_header(1)[..11]), Err(PackError::TruncatedInput));
}

#[test]
fn entry_header_of_a_whole_object() {
    assert_eq!(
        read_entry_header(&[0x95, 0x0a], 0),
        Ok(EntryHeader {
            kind: EntryKind::Full { kind: ObjectKind::Commit },
            declared_size: 165,
            len: 2
        })
    );
    assert_eq!(
        read_entry_header(&[0x00, 0x40], 1),
        Ok(EntryHeader { kind: EntryKind::Full { kind: ObjectKind::Tag }, declared_size: 0, len: 1 })
    );
}

#[test]
fn entry_header_of_an_offset_delta() {
    assert_eq!(
        read_entry_header(&[0x65, 0x80, 0x48], 0),
        Ok(EntryHeader { kind: EntryKind::OfsDelta { distance: 200 }, declared_size: 5, len: 3 })
    );
}

#[test]
fn entry_header_of_a_reference_delta() {
    let mut bytes = vec![0xaa, 0x75];
    bytes.extend([7u8; 20]);
    assert_eq!(
        read_entry_header(&bytes, 1),
        Ok(EntryHeader { kind: EntryKind::RefDelta { base_at: 2 }, declared_size: 5, len: 21 })
    );
    assert_eq!(read_entry_header(&bytes[..21], 1), Err(PackError::TruncatedInput));
}

#[test]
fn entry_header_unknown_type_tag() {
    assert_eq!(read_entry_header(&[0x05], 0), Err(PackError::UnknownTypeTag));
    assert_eq!(read_entry_header(&[0x55], 0), Err(PackError::UnknownTypeTag));
    assert_eq!(read_entry_header(&[0xd5, 0x01], 0), Err(PackError::UnknownTypeTag));
}

#[test]
fn entry_header_truncated() {
    assert_eq!(read_entry_header(&[], 0), Err(PackError::TruncatedInput));
    assert_eq!(read_entry_header(&[0x65], 0), Err(PackError::TruncatedInput));
    assert_eq!(read_entry_header(&[0x65, 0x80], 0), Err(PackError::TruncatedInput));
}

#[test]
fn table_keeps_objects_in_order() {
    let mut table = PackTable::new();
    assert_eq!(table.len(), 0);
    assert!(table.insert(object_at(12, ObjectKind::Blob, b"a")));
    assert!(table.insert(object_at(300, ObjectKind::Tree, b"b")));
    assert!(!table.insert(object_at(300, ObjectKind::Blob, b"c")));
    assert!(!table.insert(object_at(20, ObjectKind::Blob, b"d")));
    assert!(table.insert(object_at(301, ObjectKind::Commit, b"e")));
    assert_eq!(table.len(), 3);
    assert_eq!(table.get(1), &object_at(300, ObjectKind::Tree, b"b"));
    assert_eq!(table.get(2).data, b"e".to_vec());
}

#[test]
fn table_finds_by_offset() {
    let mut table = PackTable::new();
    assert_eq!(table.find_offset(12), None);
    for (i, offset) in [12usize, 40, 41, 300, 1000, 1001, 5000].iter().enumerate() {
        assert!(table.insert(object_at(*offset, ObjectKind::Blob, &[i as u8])));
    }
    for (i, offset) in [12usize, 40, 41, 300, 1000, 1001, 5000].iter().enumerate() {
        assert_eq!(table.find_offset(*offset), Some(i));
    }
    for offset in [0usize, 11, 13, 299, 301, 4999, 5001, usize::MAX] {
        assert_eq!(table.find_offset(offset), None);
    }
}

#[test]
fn table_finds_by_hash() {
    let mut table = PackTable::new();
    assert!(table.insert(object_at(12, ObjectKind::Blob, b"a")));
    assert!(table.insert(object_at(40, ObjectKind::Blob, b"b")));
    assert!(table.insert(object_at(90, ObjectKind::Blob, b"a")));
    assert_eq!(table.find_hash(&hash_object(ObjectKind::Blob, b"a")), Some(0));
    assert_eq!(table.find_hash(&hash_object(ObjectKind::Blob, b"b")), Some(1));
    assert_eq!(table.find_hash(&hash_object(ObjectKind::Blob, b"c")), None);
    assert_eq!(table.find_hash(&[1, 2, 3]), None);
}

#[test]
fn object_tells_whether_its_size_is_as_declared() {
    let mut object = object_at(12, ObjectKind::Blob, b"abc");
    assert!(object.size_matches());
    object.declared_size = 4;
    assert!(!object.size_matches());
}

#[test]
fn offset_delta_resolves_to_the_entry_at_the_distance() {
    let mut table = PackTable::new();
    assert!(table.insert(object_at(12, ObjectKind::Blob, b"first")));
    assert!(table.insert(object_at(300, ObjectKind::Tree, b"base")));
    assert!(table.insert(object_at(420, ObjectKind::Blob, b"other")));
    let kind = EntryKind::OfsDelta { distance: 200 };
    assert_eq!(resolve_base(&table, &[], 500, kind), Ok(Some(1)));
    assert_eq!(table.get(1).offset, 300);
}

#[test]
fn offset_delta_without_its_base_is_unresolved() {
    let mut table = PackTable::new();
    assert!(table.insert(object_at(12, ObjectKind::Blob, b"first")));
    assert!(table.insert(object_at(420, ObjectKind::Blob, b"other")));
    let kind = EntryKind::OfsDelta { distance: 200 };
    assert_eq!(resolve_base(&table, &[], 500, kind), Err(PackError::UnresolvedBaseReference));
    assert_eq!(
        resolve_base(&PackTable::new(), &[], 500, kind),
        Err(PackError::UnresolvedBaseReference)
    );
}

#[test]
fn offset_delta_with_a_distance_beyond_the_start_is_unresolved() {
    let mut table = PackTable::new();
    assert!(table.insert(object_at(0, ObjectKind::Blob, b"first")));
    let kind = EntryKind::OfsDelta { distance: 501 };
    assert_eq!(resolve_base(&table, &[], 500, kind), Err(PackError::UnresolvedBaseReference));
    let kind = EntryKind::OfsDelta { distance: u128::MAX };
    assert_eq!(resolve_base(&table, &[], 500, kind), Err(PackError::UnresolvedBaseReference));
    let kind = EntryKind::OfsDelta { distance: 500 };
    assert_eq!(resolve_base(&table, &[], 500, kind), Ok(Some(0)));
}

#[test]
fn reference_delta_resolves_by_hash() {
    let mut table = PackTable::new();
    assert!(table.insert(object_at(12, ObjectKind::Blob, b"first")));
    assert!(table.insert(object_at(300, ObjectKind::Tree, b"base")));
    let mut pack = vec![0u8; 5];
    pack.extend(hash_object(ObjectKind::Tree, b"base"));
    let kind = EntryKind::RefDelta { base_at: 5 };
    assert_eq!(resolve_base(&table, &pack, 500, kind), Ok(Some(1)));
    let kind = EntryKind::RefDelta { base_at: 4 };
    assert_eq!(resolve_base(&table, &pack, 500, kind), Err(PackError::UnresolvedBaseReference));
    let kind = EntryKind::RefDelta { base_at: 6 };
    assert_eq!(resolve_base(&table, &pack, 500, kind), Err(PackError::TruncatedInput));
    let kind = EntryKind::RefDelta { base_at: usize::MAX };
    assert_eq!(resolve_base(&table, &pack, 500, kind), Err(PackError::TruncatedInput));
}

#[test]
fn whole_object_has_no_base() {
    let kind = EntryKind::Full { kind: ObjectKind::Blob };
    assert_eq!(resolve_base(&PackTable::new(), &[], 12, kind), Ok(None));
}

#[test]
fn rebuild_of_a_whole_object_is_its_payload() {
    let kind = EntryKind::Full { kind: ObjectKind::Commit };
    assert_eq!(rebuild(kind, None, b"abc".to_vec()), Ok((ObjectKind::Commit, b"abc".to_vec())));
}

#[test]
fn rebuild_of_a_delta_takes_the_kind_of_its_base() {
    let base = object_at(12, ObjectKind::Tree, b"hi\n");
    let kind = EntryKind::OfsDelta { distance: 30 };
    assert_eq!(
        rebuild(kind, Some(&base), hi_there_delta()),
        Ok((ObjectKind::Tree, b"hi there\n".to_vec()))
    );
    let kind = EntryKind::RefDelta { base_at: 0 };
    assert_eq!(
        rebuild(kind, Some(&base), hi_there_delta()),
        Ok((ObjectKind::Tree, b"hi there\n".to_vec()))
    );
}

#[test]
fn rebuild_of_a_delta_without_base_is_unresolved() {
    let kind = EntryKind::OfsDelta { distance: 30 };
    assert_eq!(rebuild(kind, None, hi_there_delta()), Err(PackError::UnresolvedBaseReference));
}

#[test]
fn rebuild_of_a_bad_delta_fails() {
    let base = object_at(12, ObjectKind::Blob, b"h");
    let kind = EntryKind::OfsDelta { distance: 30 };
    assert_eq!(rebuild(kind, Some(&base), hi_there_delta()), Err(PackError::OutOfRangeCopy));
    assert_eq!(
        rebuild(kind, Some(&base), vec![1, 2, 0x01, b'x']),
        Err(PackError::LengthMismatch { expected: 2, actual: 1 })
    );
}

#[test]
fn rebuild_passes_over_the_declared_base_length() {
    let base = object_at(12, ObjectKind::Blob, b"hello");
    let kind = EntryKind::OfsDelta { distance: 30 };
    assert_eq!(
        rebuild(kind, Some(&base), hi_there_delta()),
        Ok((ObjectKind::Blob, b"he there\n".to_vec()))
    );
}

#[test]
fn entry_is_decoded_up_to_the_end_of_its_stream() {
    let (pack, second) = two_object_pack();
    let (object, next) = decode_entry(&PackTable::new(), &pack, 12).unwrap();
    assert_eq!(next, second);
    assert_eq!(object, object_at(12, ObjectKind::Blob, b"hi\n"));
}

#[test]
fn pack_of_a_blob_and_its_offset_delta() {
    let (pack, second) = two_object_pack();
    let table = parse_pack(&pack).unwrap();
    assert_eq!(table.len(), 2);
    let first = table.get(0);
    assert_eq!(first.offset, 12);
    assert_eq!(first.kind, ObjectKind::Blob);
    assert_eq!(first.data, b"hi\n".to_vec());
    assert_eq!(first.hash.to_vec(), sha1_of(b"blob 3\0hi\n"));
    assert!(first.size_matches());
    let rebuilt = table.get(1);
    assert_eq!(rebuilt.offset, second);
    assert_eq!(rebuilt.kind, ObjectKind::Blob);
    assert_eq!(rebuilt.data, b"hi there\n".to_vec());
    assert_eq!(rebuilt.hash.to_vec(), sha1_of(b"blob 9\0hi there\n"));
    assert_eq!(rebuilt.declared_size, hi_there_delta().len() as u128);
    assert_eq!(rebuilt.inflated_size, hi_there_delta().len());
    assert_eq!(first.base, None);
    assert_eq!(first.packed_size, second - 12);
    assert_eq!(rebuilt.base, Some(0));
    assert_eq!(rebuilt.packed_size, pack.len() - 20 - second);
    assert_eq!(table.find_offset(second), Some(1));
    assert_eq!(table.find_hash(&sha1_of(b"blob 3\0hi\n")), Some(0));
}

#[test]
fn pack_with_a_reference_delta() {
    let mut pack = pack_header(2);
    pack.extend(encode_header_varint(2, 3));
    pack.extend(zlib(b"hi\n"));
    let second = pack.len();
    let delta = hi_there_delta();
    pack.extend(encode_header_varint(7, delta.len() as u128));
    pack.extend(hash_object(ObjectKind::Tree, b"hi\n"));
    pack.extend(zlib(&delta));
    let table = parse_pack(&pack).unwrap();
    assert_eq!(table.len(), 2);
    assert_eq!(table.get(1), &PackObject {
        offset: second,
        kind: ObjectKind::Tree,
        hash: hash_object(ObjectKind::Tree, b"hi there\n"),
        data: b"hi there\n".to_vec(),
        declared_size: delta.len() as u128,
        inflated_size: delta.len(),
        packed_size: pack.len() - second,
        base: Some(0),
    });
}

#[test]
fn pack_with_a_delta_of_a_delta() {
    let mut pack = pack_header(3);
    pack.extend(encode_header_varint(3, 3));
    pack.extend(zlib(b"hi\n"));
    let second = pack.len();
    let delta = hi_there_delta();
    pack.extend(encode_header_varint(6, delta.len() as u128));
    pack.extend(encode_offset_varint((second - 12) as u128));
    pack.extend(zlib(&delta));
    let third = pack.len();
    // copy "hi there" and insert "!"
    let again = vec![9, 9, 0x90, 0x08, 0x01, b'!'];
    pack.extend(encode_header_varint(6, again.len() as u128));
    pack.extend(encode_offset_varint((third - second) as u128));
    pack.extend(zlib(&again));
    let table = parse_pack(&pack).unwrap();
    assert_eq!(table.len(), 3);
    assert_eq!(table.get(2).data, b"hi there!".to_vec());
    assert_eq!(table.get(2).kind, ObjectKind::Blob);
    assert_eq!(table.get(2).offset, third);
    assert_eq!(table.get(1).base, Some(0));
    assert_eq!(table.get(2).base, Some(1));
    assert_eq!(table.get(2).packed_size, pack.len() - third);
}

#[test]
fn pack_of_no_objects() {
    let table = parse_pack(&pack_header(0)).unwrap();
    assert_eq!(table.len(), 0);
}

#[test]
fn pack_is_read_no_further_than_its_count() {
    let (mut pack, _) = two_object_pack();
    pack[11] = 1;
    let table = parse_pack(&pack).unwrap();
    assert_eq!(table.len(), 1);
    assert_eq!(table.get(0).data, b"hi\n".to_vec());
}

#[test]
fn pack_declared_size_is_kept_for_the_caller() {
    let mut pack = pack_header(1);
    pack.extend(encode_header_varint(3, 5));
    pack.extend(zlib(b"hi\n"));
    let table = parse_pack(&pack).unwrap();
    assert_eq!(table.get(0).declared_size, 5);
    assert_eq!(table.get(0).inflated_size, 3);
    assert!(!table.get(0).size_matches());
}

#[test]
fn pack_with_too_short_a_header() {
    assert_eq!(
        parse_pack(b"PACK").unwrap_err(),
        PackFailure { offset: 0, error: PackError::TruncatedInput }
    );
}

#[test]
fn pack_with_fewer_entries_than_announced() {
    let (mut pack, second) = two_object_pack();
    pack[11] = 3;
    // the checksum after the second entry is no entry
    let third = pack.len() - 20;
    assert!(third > second);
    assert_eq!(
        parse_pack(&pack).unwrap_err(),
        PackFailure { offset: third, error: PackError::UnknownTypeTag }
    );
    pack.truncate(third);
    assert_eq!(
        parse_pack(&pack).unwrap_err(),
        PackFailure { offset: third, error: PackError::TruncatedInput }
    );
}

#[test]
fn pack_with_an_unknown_type_tag() {
    let mut pack = pack_header(1);
    pack.extend(encode_header_varint(5, 3));
    pack.extend(zlib(b"hi\n"));
    assert_eq!(
        parse_pack(&pack).unwrap_err(),
        PackFailure { offset: 12, error: PackError::UnknownTypeTag }
    );
}

#[test]
fn pack_with_a_payload_that_does_not_inflate() {
    let mut pack = pack_header(1);
    pack.extend(encode_header_varint(3, 3));
    pack.extend(b"hi\n");
    assert_eq!(
        parse_pack(&pack).unwrap_err(),
        PackFailure { offset: 12, error: PackError::DecompressionFailure }
    );
    let mut pack = pack_header(1);
    pack.extend(encode_header_varint(3, 3));
    let stream = zlib(b"hi\n");
    pack.extend(&stream[..stream.len() - 2]);
    assert_eq!(
        parse_pack(&pack).unwrap_err(),
        PackFailure { offset: 12, error: PackError::DecompressionFailure }
    );
}

#[test]
fn pack_with_an_offset_delta_whose_base_is_missing() {
    let mut pack = pack_header(2);
    pack.extend(encode_header_varint(3, 3));
    pack.extend(zlib(b"hi\n"));
    let second = pack.len();
    let delta = hi_there_delta();
    pack.extend(encode_header_varint(6, delta.len() as u128));
    pack.extend(encode_offset_varint((second - 13) as u128));
    pack.extend(zlib(&delta));
    assert_eq!(
        parse_pack(&pack).unwrap_err(),
        PackFailure { offset: second, error: PackError::UnresolvedBaseReference }
    );
}

#[test]
fn pack_with_a_reference_delta_whose_base_is_missing() {
    let mut pack = pack_header(1);
    let delta = hi_there_delta();
    pack.extend(encode_header_varint(7, delta.len() as u128));
    pack.extend(hash_object(ObjectKind::Blob, b"hi\n"));
    pack.extend(zlib(&delta));
    assert_eq!(
        parse_pack(&pack).unwrap_err(),
        PackFailure { offset: 12, error: PackError::UnresolvedBaseReference }
    );
}

#[test]
fn pack_with_a_delta_that_copies_out_of_range() {
    let mut pack = pack_header(2);
    pack.extend(encode_header_varint(3, 3));
    pack.extend(zlib(b"hi\n"));
    let second = pack.len();
    let delta = vec![3, 4, 0x90, 0x04];
    pack.extend(encode_header_varint(6, delta.len() as u128));
    pack.extend(encode_offset_varint((second - 12) as u128));
    pack.extend(zlib(&delta));
    assert_eq!(
        parse_pack(&pack).unwrap_err(),
        PackFailure { offset: second, error: PackError::OutOfRangeCopy }
    );
}

#[test]
fn clone_gives_the_head_and_the_objects() {
    let (pack, _) = two_object_pack();
    let mut response = encode_packet(b"NAK\n").unwrap();
    response.extend(encode_packet(&[b"\x02".to_vec(), b"counting".to_vec()].concat()).unwrap());
    response.extend(encode_packet(&[vec![1u8], pack[..20].to_vec()].concat()).unwrap());
    response.extend(encode_packet(&[vec![1u8], pack[20..].to_vec()].concat()).unwrap());
    response.extend(b"0000");
    let head = b"e69de29bb2d1d6434b8b29ae775ad8c2e48c5391".to_vec();
    let (head_out, table) = clone(head.clone(), &response).unwrap();
    assert_eq!(head_out, head);
    assert_eq!(table.len(), 2);
    assert_eq!(table.get(1).data, b"hi there\n".to_vec());
}

#[test]
fn clone_of_a_bad_answer() {
    assert_eq!(
        clone(vec![], b"0008NAK\n").unwrap_err(),
        PackFailure { offset: 0, error: PackError::TruncatedInput }
    );
    assert_eq!(
        clone(vec![], b"0008NAK\n0000").unwrap_err(),
        PackFailure { offset: 0, error: PackError::TruncatedInput }
    );
}
