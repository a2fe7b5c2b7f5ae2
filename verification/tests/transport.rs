use dewey::transport::{
    encode_packet, extract_pack, parse_advertisement, read_packet, upload_request,
};
use dewey::PackError;

const HEAD: &[u8] = b"e69de29bb2d1d6434b8b29ae775ad8c2e48c5391";
const OTHER: &[u8] = b"4b825dc642cb6eb9a060e54bf8d69288fbee4904";

fn line(payload: &[u8]) -> Vec<u8> {
    encode_packet(payload).unwrap()
}

#[test]
fn packet_length_is_read_in_hexadecimal() {
    assert_eq!(read_packet(b"0008NAK\n", 0), Ok(8));
    assert_eq!(read_packet(b"0004", 0), Ok(4));
    assert_eq!(read_packet(b"0000", 0), Ok(0));
    let mut data = b"001e".to_vec();
    data.extend([b'x'; 26]);
    assert_eq!(read_packet(&data, 0), Ok(30));
    let mut data = b"00Ff".to_vec();
    data.extend([b'x'; 251]);
    assert_eq!(read_packet(&data, 0), Ok(255));
}

#[test]
fn packet_read_at_a_position() {
    assert_eq!(read_packet(b"0008NAK\n0000", 8), Ok(0));
    assert_eq!(read_packet(b"00000005a", 4), Ok(5));
}

#[test]
fn packet_truncated() {
    assert_eq!(read_packet(b"", 0), Err(PackError::TruncatedInput));
    assert_eq!(read_packet(b"000", 0), Err(PackError::TruncatedInput));
    assert_eq!(read_packet(b"0008NAK", 0), Err(PackError::TruncatedInput));
    assert_eq!(read_packet(b"0000", 1), Err(PackError::TruncatedInput));
    assert_eq!(read_packet(b"0000", 9), Err(PackError::TruncatedInput));
}

#[test]
fn packet_with_a_bad_length() {
    assert_eq!(read_packet(b"00g8NAK\n", 0), Err(PackError::MalformedHeader));
    assert_eq!(read_packet(b" 008NAK\n", 0), Err(PackError::MalformedHeader));
    assert_eq!(read_packet(b"0001", 0), Err(PackError::MalformedHeader));
    assert_eq!(read_packet(b"0003", 0), Err(PackError::MalformedHeader));
}

#[test]
fn packet_encoding_exact() {
    assert_eq!(encode_packet(b"NAK\n"), Some(b"0008NAK\n".to_vec()));
    assert_eq!(encode_packet(b""), Some(b"0004".to_vec()));
    assert_eq!(encode_packet(&[b'x'; 26]).unwrap()[..4].to_vec(), b"001e".to_vec());
    assert_eq!(encode_packet(&[b'x'; 65531]).unwrap()[..4].to_vec(), b"ffff".to_vec());
    assert_eq!(encode_packet(&[b'x'; 65532]), None);
}

#[test]
fn packet_round_trip_on_values() {
    for len in [0usize, 1, 11, 12, 251, 252, 4092, 65531] {
        let payload = vec![b'p'; len];
        let bytes = encode_packet(&payload).unwrap();
        assert_eq!(read_packet(&bytes, 0), Ok(len + 4));
        assert_eq!(bytes[4..].to_vec(), payload);
    }
}

#[test]
fn advertisement_gives_the_first_reference() {
    let mut advert = line(b"# service=git-upload-pack\n");
    advert.extend(b"0000");
    advert.extend(line(&[HEAD, b" HEAD\0multi_ack side-band-64k\n"].concat()));
    advert.extend(line(&[OTHER, b" refs/heads/main\n"].concat()));
    advert.extend(b"0000");
    assert_eq!(parse_advertisement(&advert), Ok(HEAD.to_vec()));
}

#[test]
fn advertisement_without_announcement() {
    let mut advert = line(&[OTHER, b" HEAD\n"].concat());
    advert.extend(b"0000");
    assert_eq!(parse_advertisement(&advert), Ok(OTHER.to_vec()));
    assert_eq!(parse_advertisement(&line(OTHER)), Ok(OTHER.to_vec()));
}

#[test]
fn advertisement_without_reference() {
    assert_eq!(parse_advertisement(b""), Err(PackError::TruncatedInput));
    assert_eq!(parse_advertisement(b"00000000"), Err(PackError::TruncatedInput));
    let mut advert = line(b"# service=git-upload-pack\n");
    advert.extend(b"0000");
    assert_eq!(parse_advertisement(&advert), Err(PackError::TruncatedInput));
}

#[test]
fn advertisement_with_a_short_reference() {
    assert_eq!(parse_advertisement(&line(&HEAD[..39])), Err(PackError::MalformedHeader));
    assert_eq!(parse_advertisement(b"0004"), Err(PackError::MalformedHeader));
}

#[test]
fn advertisement_with_a_bad_packet() {
    assert_eq!(parse_advertisement(b"zzzz"), Err(PackError::MalformedHeader));
    assert_eq!(parse_advertisement(b"0040abc"), Err(PackError::TruncatedInput));
}

#[test]
fn request_exact() {
    let expected = [
        b"0077want ".to_vec(),
        HEAD.to_vec(),
        b" multi_ack_detailed side-band-64k thin-pack ofs-delta agent=git/1.8.2\n".to_vec(),
        b"0000".to_vec(),
        b"0009done\n".to_vec(),
    ]
    .concat();
    assert_eq!(upload_request(HEAD), Some(expected));
}

#[test]
fn request_for_too_long_a_head() {
    assert!(upload_request(&[b'a'; 65456]).is_some());
    assert_eq!(upload_request(&[b'a'; 65457]), None);
}

#[test]
fn pack_is_gathered_from_band_one() {
    let mut response = line(b"NAK\n");
    response.extend(line(b"\x02counting objects\n"));
    response.extend(line(b"\x01PACK"));
    response.extend(line(b"\x03warning\n"));
    response.extend(line(b"\x01"));
    response.extend(line(b"\x01\x00\x01\x02"));
    response.extend(b"0000");
    response.extend(line(b"\x01after the end"));
    assert_eq!(extract_pack(&response), Ok(b"PACK\x00\x01\x02".to_vec()));
}

#[test]
fn pack_of_an_answer_without_data() {
    assert_eq!(extract_pack(b"0008NAK\n0000"), Ok(vec![]));
    assert_eq!(extract_pack(b"00000000"), Ok(vec![]));
}

#[test]
fn pack_of_an_answer_without_end() {
    assert_eq!(extract_pack(b""), Err(PackError::TruncatedInput));
    assert_eq!(extract_pack(b"0008NAK\n"), Err(PackError::TruncatedInput));
    let mut response = line(b"NAK\n");
    response.extend(line(b"\x01PACK"));
    assert_eq!(extract_pack(&response), Err(PackError::TruncatedInput));
}

#[test]
fn pack_of_an_answer_with_an_unknown_band() {
    let mut response = line(b"NAK\n");
    response.extend(line(b"\x04PACK"));
    response.extend(b"0000");
    assert_eq!(extract_pack(&response), Err(PackError::UnknownTypeTag));
    let mut response = line(b"NAK\n");
    response.extend(line(b"\x00PACK"));
    response.extend(b"0000");
    assert_eq!(extract_pack(&response), Err(PackError::UnknownTypeTag));
}

#[test]
fn pack_of_an_answer_with_an_empty_packet() {
    let mut response = line(b"NAK\n");
    response.extend(b"0004");
    response.extend(b"0000");
    assert_eq!(extract_pack(&response), Err(PackError::MalformedHeader));
}
