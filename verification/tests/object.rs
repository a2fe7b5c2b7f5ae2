use dewey::digest::{from_hex, to_hex};
use dewey::object::{
    bytes_equal, decode_object, encode_object, frame_object, hash_object, object_path,
    read_object, unframe_object,
};
use dewey::{ObjectKind, PackError};
use sha1::{Digest, Sha1};
use std::io::{Read, Write};

fn sha1_of(bytes: &[u8]) -> Vec<u8> {
    let mut hasher = Sha1::new();
    hasher.update(bytes);
    hasher.finalize().to_vec()
}

fn zlib(bytes: &[u8]) -> Vec<u8> {
    let mut encoder =
        flate2::write::ZlibEncoder::new(Vec::new(), flate2::Compression::default());
    encoder.write_all(bytes).unwrap();
    encoder.finish().unwrap()
}

#[test]
fn kind_names() {
    assert_eq!(ObjectKind::Commit.name_bytes(), b"commit".to_vec());
    assert_eq!(ObjectKind::Tree.name_bytes(), b"tree".to_vec());
    assert_eq!(ObjectKind::Blob.name_bytes(), b"blob".to_vec());
    assert_eq!(ObjectKind::Tag.name_bytes(), b"tag".to_vec());
}

#[test]
fn kind_from_name() {
    assert_eq!(ObjectKind::from_name(b"commit"), Some(ObjectKind::Commit));
    assert_eq!(ObjectKind::from_name(b"tree"), Some(ObjectKind::Tree));
    assert_eq!(ObjectKind::from_name(b"blob"), Some(ObjectKind::Blob));
    assert_eq!(ObjectKind::from_name(b"tag"), Some(ObjectKind::Tag));
    assert_eq!(ObjectKind::from_name(b"blo"), None);
    assert_eq!(ObjectKind::from_name(b"blobs"), None);
    assert_eq!(ObjectKind::from_name(b""), None);
}

#[test]
fn kind_from_tag() {
    assert_eq!(ObjectKind::from_tag(1), Some(ObjectKind::Commit));
    assert_eq!(ObjectKind::from_tag(2), Some(ObjectKind::Tree));
    assert_eq!(ObjectKind::from_tag(3), Some(ObjectKind::Blob));
    assert_eq!(ObjectKind::from_tag(4), Some(ObjectKind::Tag));
    for tag in [0u8, 5, 6, 7, 8, 255] {
        assert_eq!(ObjectKind::from_tag(tag), None);
    }
}

#[test]
fn bytes_equal_compares() {
    assert!(bytes_equal(b"", b""));
    assert!(bytes_equal(b"abc", b"abc"));
    assert!(!bytes_equal(b"abc", b"abd"));
    assert!(!bytes_equal(b"abc", b"ab"));
}

#[test]
fn frame_exact() {
    assert_eq!(frame_object(ObjectKind::Blob, b"hi\n"), b"blob 3\0hi\n".to_vec());
    assert_eq!(frame_object(ObjectKind::Tree, b""), b"tree 0\0".to_vec());
    assert_eq!(
        frame_object(ObjectKind::Commit, &[b'x'; 1234]),
        [b"commit 1234\0".to_vec(), vec![b'x'; 1234]].concat()
    );
    assert_eq!(frame_object(ObjectKind::Tag, b"0123456789"), b"tag 10\x000123456789".to_vec());
}

#[test]
fn unframe_exact() {
    assert_eq!(unframe_object(b"blob 3\0hi\n"), Ok((ObjectKind::Blob, b"hi\n".to_vec())));
    assert_eq!(unframe_object(b"tree 0\0"), Ok((ObjectKind::Tree, vec![])));
}

#[test]
fn unframe_leaves_bytes_beyond_the_content() {
    assert_eq!(unframe_object(b"blob 2\0hi\n"), Ok((ObjectKind::Blob, b"hi".to_vec())));
}

#[test]
fn unframe_content_may_hold_zero_bytes_and_spaces() {
    assert_eq!(
        unframe_object(b"blob 5\0a \0 b"),
        Ok((ObjectKind::Blob, b"a \0 b".to_vec()))
    );
}

#[test]
fn frame_round_trip_on_values() {
    let contents: [&[u8]; 4] = [b"", b"hi\n", b"\0\0\0", &[0xff; 300]];
    for kind in [ObjectKind::Commit, ObjectKind::Tree, ObjectKind::Blob, ObjectKind::Tag] {
        for content in contents {
            let framed = frame_object(kind, content);
            assert_eq!(unframe_object(&framed), Ok((kind, content.to_vec())));
            let (kind_back, content_back) = unframe_object(&framed).unwrap();
            assert_eq!(hash_object(kind_back, &content_back), hash_object(kind, content));
        }
    }
}

#[test]
fn unframe_without_zero_byte() {
    assert_eq!(unframe_object(b""), Err(PackError::TruncatedInput));
    assert_eq!(unframe_object(b"blob 3"), Err(PackError::TruncatedInput));
}

#[test]
fn unframe_without_space() {
    assert_eq!(unframe_object(b"blob3\0hi\n"), Err(PackError::MalformedHeader));
    assert_eq!(unframe_object(b"\0"), Err(PackError::MalformedHeader));
}

#[test]
fn unframe_unknown_kind() {
    assert_eq!(unframe_object(b"blub 3\0hi\n"), Err(PackError::UnknownTypeTag));
    assert_eq!(unframe_object(b" 3\0hi\n"), Err(PackError::UnknownTypeTag));
}

#[test]
fn unframe_bad_length() {
    assert_eq!(unframe_object(b"blob \0hi\n"), Err(PackError::MalformedHeader));
    assert_eq!(unframe_object(b"blob 3x\0hi\n"), Err(PackError::MalformedHeader));
    assert_eq!(unframe_object(b"blob -3\0hi\n"), Err(PackError::MalformedHeader));
    assert_eq!(unframe_object(b"blob  3\0hi\n"), Err(PackError::MalformedHeader));
}

#[test]
fn unframe_length_overflow() {
    // 2^128 in decimal
    assert_eq!(
        unframe_object(b"blob 340282366920938463463374607431768211456\0"),
        Err(PackError::Overflow)
    );
}

#[test]
fn unframe_content_shorter_than_declared() {
    assert_eq!(
        unframe_object(b"blob 4\0hi\n"),
        Err(PackError::LengthMismatch { expected: 4, actual: 3 })
    );
    // 2^128 - 1 fits, and is more than there is
    assert_eq!(
        unframe_object(b"blob 340282366920938463463374607431768211455\0"),
        Err(PackError::LengthMismatch { expected: u128::MAX, actual: 0 })
    );
}

#[test]
fn hash_is_sha1_of_the_framed_object() {
    assert_eq!(hash_object(ObjectKind::Blob, b"hi\n").to_vec(), sha1_of(b"blob 3\0hi\n"));
    assert_eq!(
        hash_object(ObjectKind::Commit, b"abc").to_vec(),
        sha1_of(b"commit 3\0abc")
    );
    assert_ne!(hash_object(ObjectKind::Blob, b"abc"), hash_object(ObjectKind::Tree, b"abc"));
}

#[test]
fn hash_of_the_empty_blob() {
    assert_eq!(
        to_hex(&hash_object(ObjectKind::Blob, b"")),
        b"e69de29bb2d1d6434b8b29ae775ad8c2e48c5391".to_vec()
    );
}

#[test]
fn hash_is_stable() {
    assert_eq!(hash_object(ObjectKind::Blob, b"hi\n"), hash_object(ObjectKind::Blob, b"hi\n"));
}

#[test]
fn hex_exact() {
    assert_eq!(to_hex(&[]), Vec::<u8>::new());
    assert_eq!(to_hex(&[0x00, 0x0f, 0xa0, 0xff, 0x19]), b"000fa0ff19".to_vec());
}

#[test]
fn path_splits_the_hex_hash() {
    let id = hash_object(ObjectKind::Blob, b"");
    let (directory, file) = object_path(&id);
    assert_eq!(directory, b"e6".to_vec());
    assert_eq!(file, b"9de29bb2d1d6434b8b29ae775ad8c2e48c5391".to_vec());
}

#[test]
fn encode_gives_a_zlib_stream_of_the_framed_object() {
    let stored = encode_object(ObjectKind::Blob, b"hi\n").unwrap();
    let mut inflated = Vec::new();
    flate2::read::ZlibDecoder::new(&stored[..]).read_to_end(&mut inflated).unwrap();
    assert_eq!(inflated, b"blob 3\0hi\n".to_vec());
}

#[test]
fn decode_reads_a_zlib_stream_of_a_framed_object() {
    assert_eq!(decode_object(&zlib(b"tree 0\0")), Ok((ObjectKind::Tree, vec![])));
    assert_eq!(decode_object(&zlib(b"blob 3\0hi\n")), Ok((ObjectKind::Blob, b"hi\n".to_vec())));
}

#[test]
fn stored_round_trip_on_values() {
    let contents: [&[u8]; 3] = [b"", b"hi\n", &[7u8; 100000]];
    for kind in [ObjectKind::Commit, ObjectKind::Tree, ObjectKind::Blob, ObjectKind::Tag] {
        for content in contents {
            let stored = encode_object(kind, content).unwrap();
            assert_eq!(decode_object(&stored), Ok((kind, content.to_vec())));
        }
    }
}

#[test]
fn decode_of_what_is_no_zlib_stream() {
    assert_eq!(decode_object(b"blob 3\0hi\n"), Err(PackError::DecompressionFailure));
    assert_eq!(decode_object(b""), Err(PackError::DecompressionFailure));
    let stored = zlib(b"blob 3\0hi\n");
    assert_eq!(
        decode_object(&stored[..stored.len() - 5]),
        Err(PackError::DecompressionFailure)
    );
}

#[test]
fn decode_of_a_zlib_stream_that_frames_no_object() {
    assert_eq!(decode_object(&zlib(b"blob 3")), Err(PackError::TruncatedInput));
    assert_eq!(
        decode_object(&zlib(b"blob 9\0hi\n")),
        Err(PackError::LengthMismatch { expected: 9, actual: 3 })
    );
}

#[test]
fn unhex_exact() {
    assert_eq!(from_hex(b""), Some(vec![]));
    assert_eq!(from_hex(b"000fa0ff19"), Some(vec![0x00, 0x0f, 0xa0, 0xff, 0x19]));
    assert_eq!(from_hex(b"AbCdEf"), Some(vec![0xab, 0xcd, 0xef]));
}

#[test]
fn unhex_of_what_is_no_hexadecimal() {
    assert_eq!(from_hex(b"0"), None);
    assert_eq!(from_hex(b"000"), None);
    assert_eq!(from_hex(b"0g"), None);
    assert_eq!(from_hex(b"g0"), None);
    assert_eq!(from_hex(b"00 0"), None);
    assert_eq!(from_hex(b"zz00"), None);
    assert_eq!(from_hex(b"00zz"), None);
    assert_eq!(from_hex(b"0/"), None);
    assert_eq!(from_hex(b"0:"), None);
    assert_eq!(from_hex(b"0@"), None);
    assert_eq!(from_hex(b"0G"), None);
    assert_eq!(from_hex(b"0`"), None);
}

#[test]
fn hex_round_trip_on_values() {
    let all: Vec<u8> = (0u8..=255).collect();
    assert_eq!(from_hex(&to_hex(&all)), Some(all));
    let id = hash_object(ObjectKind::Blob, b"hi\n");
    assert_eq!(from_hex(&to_hex(&id)), Some(id.to_vec()));
    assert_eq!(to_hex(&id).len(), 40);
}

#[test]
fn read_checks_the_identity() {
    let stored = encode_object(ObjectKind::Blob, b"hi\n").unwrap();
    let id = hash_object(ObjectKind::Blob, b"hi\n");
    assert_eq!(read_object(&stored, &id), Ok((ObjectKind::Blob, b"hi\n".to_vec())));
    let other = hash_object(ObjectKind::Blob, b"hi");
    assert_eq!(read_object(&stored, &other), Err(PackError::HashMismatch));
    assert_eq!(read_object(&stored, &id[..19]), Err(PackError::HashMismatch));
    assert_eq!(read_object(&stored, b""), Err(PackError::HashMismatch));
}

#[test]
fn read_of_what_does_not_decode() {
    let id = hash_object(ObjectKind::Blob, b"hi\n");
    assert_eq!(read_object(b"blob 3\0hi\n", &id), Err(PackError::DecompressionFailure));
    assert_eq!(read_object(&zlib(b"blub 3\0hi\n"), &id), Err(PackError::UnknownTypeTag));
}
