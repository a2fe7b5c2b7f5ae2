use dewey::delta::{check_base_length, decode_instruction, DEFAULT_COPY_LENGTH};
use dewey::{dedelta_buf, delta_copy_length, DeltaOp, PackError};

#[test]
fn copy_with_all_operands() {
    // offset 0x04030201, size 0x070605
    let operands = [0x01, 0x02, 0x03, 0x04, 0x05, 0x06, 0x07];
    assert_eq!(delta_copy_length(&operands, 0, 0xff), Ok((7, 0x04030201, 0x070605)));
}

#[test]
fn copy_with_absent_bytes() {
    // bits 1 and 3 of the offset, bit 5 of the size
    let operands = [0xaa, 0xbb, 0xcc];
    assert_eq!(
        delta_copy_length(&operands, 0, 0x80 | 0x02 | 0x08 | 0x20),
        Ok((3, 0xbb00aa00, 0xcc00))
    );
}

#[test]
fn copy_without_size_bits_has_the_default_length() {
    assert_eq!(DEFAULT_COPY_LENGTH, 65536);
    assert_eq!(delta_copy_length(&[], 0, 0x80), Ok((0, 0, 65536)));
    assert_eq!(delta_copy_length(&[0x09], 0, 0x81), Ok((1, 9, 65536)));
    for mask in 0u8..16 {
        let operands = [1u8, 2, 3, 4];
        let r = delta_copy_length(&operands, 0, 0x80 | mask).unwrap();
        assert_eq!(r.2, 65536);
    }
}

#[test]
fn copy_with_size_bytes_of_zero_has_the_length_zero() {
    assert_eq!(delta_copy_length(&[0x00], 0, 0x90), Ok((1, 0, 0)));
    assert_eq!(delta_copy_length(&[0x00], 0, 0xa0), Ok((1, 0, 0)));
    assert_eq!(delta_copy_length(&[0x00, 0x00, 0x00], 0, 0xf0), Ok((3, 0, 0)));
    assert_eq!(delta_copy_length(&[0x07, 0x00], 0, 0x91), Ok((2, 7, 0)));
}

#[test]
fn copy_operands_stay_in_their_bytes() {
    let operands = [0xff; 7];
    assert_eq!(delta_copy_length(&operands, 0, 0xff), Ok((7, 0xffff_ffff, 0xff_ffff)));
    assert_eq!(delta_copy_length(&operands, 0, 0x8f), Ok((4, 0xffff_ffff, 65536)));
    assert_eq!(delta_copy_length(&operands, 0, 0xf0), Ok((3, 0, 0xff_ffff)));
}

#[test]
fn copy_read_at_a_position() {
    assert_eq!(delta_copy_length(&[0xff, 0x05, 0x02], 1, 0x91), Ok((2, 5, 2)));
}

#[test]
fn copy_truncated() {
    assert_eq!(delta_copy_length(&[], 0, 0x81), Err(PackError::TruncatedInput));
    assert_eq!(delta_copy_length(&[0x01], 0, 0x91), Err(PackError::TruncatedInput));
    assert_eq!(delta_copy_length(&[0x01], 2, 0x80), Err(PackError::TruncatedInput));
}

#[test]
fn instruction_insert() {
    assert_eq!(
        decode_instruction(&[0x03, b'f', b'o', b'o'], 0),
        Ok((4, DeltaOp::Insert { len: 3 }))
    );
}

#[test]
fn instruction_copy() {
    assert_eq!(
        decode_instruction(&[0x91, 0x05, 0x05], 0),
        Ok((3, DeltaOp::Copy { offset: 5, len: 5 }))
    );
}

#[test]
fn instruction_zero_is_rejected() {
    assert_eq!(decode_instruction(&[0x00, 0x01], 0), Err(PackError::InvalidInstruction));
}

#[test]
fn instruction_truncated() {
    assert_eq!(decode_instruction(&[], 0), Err(PackError::TruncatedInput));
    assert_eq!(decode_instruction(&[0x03, b'f', b'o'], 0), Err(PackError::TruncatedInput));
    assert_eq!(decode_instruction(&[0x91, 0x05], 0), Err(PackError::TruncatedInput));
}

#[test]
fn delta_builds_foo_world() {
    // base length 10, target length 9, insert "foo", copy 5 from 5, insert "!"
    let delta = [10, 9, 0x03, b'f', b'o', b'o', 0x91, 0x05, 0x05, 0x01, b'!'];
    assert_eq!(dedelta_buf(&delta, b"HELLOWORLD"), Ok(b"fooWORLD!".to_vec()));
}

#[test]
fn delta_insert_copy_insert() {
    let delta = [5, 5, 0x02, b'a', b'b', 0x90, 0x02, 0x01, b'c'];
    assert_eq!(dedelta_buf(&delta, b"XYZQR"), Ok(b"abXYc".to_vec()));
}

#[test]
fn delta_of_an_empty_target() {
    assert_eq!(dedelta_buf(&[3, 0], b"abc"), Ok(vec![]));
    // what follows a full target is not read
    assert_eq!(dedelta_buf(&[3, 0, 0x00], b"abc"), Ok(vec![]));
}

#[test]
fn delta_copy_of_the_default_length() {
    let base = vec![7u8; 70000];
    // base length 70000 = 0xf0 0xa2 0x04, target length 65536 = 0x80 0x80 0x04
    let delta = [0xf0, 0xa2, 0x04, 0x80, 0x80, 0x04, 0x80];
    assert_eq!(dedelta_buf(&delta, &base), Ok(vec![7u8; 65536]));
}

#[test]
fn delta_copy_out_of_range() {
    // copy 6 from 5 of a base of 10
    let delta = [10, 6, 0x91, 0x05, 0x06];
    assert_eq!(dedelta_buf(&delta, b"HELLOWORLD"), Err(PackError::OutOfRangeCopy));
    // copy from beyond the end
    let delta = [10, 1, 0x91, 0x0b, 0x01];
    assert_eq!(dedelta_buf(&delta, b"HELLOWORLD"), Err(PackError::OutOfRangeCopy));
    // a copy to the very end is in range
    let delta = [10, 5, 0x91, 0x05, 0x05];
    assert_eq!(dedelta_buf(&delta, b"HELLOWORLD"), Ok(b"WORLD".to_vec()));
}

#[test]
fn delta_stream_ends_short() {
    let delta = [10, 9, 0x03, b'f', b'o', b'o'];
    assert_eq!(
        dedelta_buf(&delta, b"HELLOWORLD"),
        Err(PackError::LengthMismatch { expected: 9, actual: 3 })
    );
}

#[test]
fn delta_overruns_the_target() {
    let delta = [10, 2, 0x03, b'f', b'o', b'o'];
    assert_eq!(
        dedelta_buf(&delta, b"HELLOWORLD"),
        Err(PackError::LengthMismatch { expected: 2, actual: 3 })
    );
    let delta = [10, 4, 0x91, 0x05, 0x05];
    assert_eq!(
        dedelta_buf(&delta, b"HELLOWORLD"),
        Err(PackError::LengthMismatch { expected: 4, actual: 5 })
    );
}

#[test]
fn delta_applies_whatever_base_length_it_declares() {
    let delta = [9, 1, 0x01, b'x'];
    assert_eq!(dedelta_buf(&delta, b"HELLOWORLD"), Ok(b"x".to_vec()));
    // declared for a base of 2, applied to a base of 3
    let delta = [0x02, 0x01, 0x90, 0x01];
    assert_eq!(dedelta_buf(&delta, b"abc"), Ok(b"a".to_vec()));
    let delta = [0x7f, 0x03, 0x91, 0x00, 0x03];
    assert_eq!(dedelta_buf(&delta, b"abc"), Ok(b"abc".to_vec()));
}

#[test]
fn delta_copy_of_length_zero_appends_nothing() {
    let delta = [3, 2, 0x90, 0x00, 0x01, b'x', 0x91, 0x02, 0x00, 0x90, 0x01];
    assert_eq!(dedelta_buf(&delta, b"abc"), Ok(b"xa".to_vec()));
    // a copy of nothing may start at the end of the base, not beyond it
    let delta = [3, 1, 0x91, 0x03, 0x00, 0x01, b'x'];
    assert_eq!(dedelta_buf(&delta, b"abc"), Ok(b"x".to_vec()));
    let delta = [3, 1, 0x91, 0x04, 0x00, 0x01, b'x'];
    assert_eq!(dedelta_buf(&delta, b"abc"), Err(PackError::OutOfRangeCopy));
}

#[test]
fn base_length_check_tells_a_mismatch() {
    assert_eq!(check_base_length(&[10, 9], b"HELLOWORLD"), Ok(()));
    assert_eq!(check_base_length(&[10], b"HELLOWORLD"), Ok(()));
    assert_eq!(check_base_length(&[0], b""), Ok(()));
    assert_eq!(
        check_base_length(&[9, 1, 0x01, b'x'], b"HELLOWORLD"),
        Err(PackError::LengthMismatch { expected: 9, actual: 10 })
    );
    assert_eq!(
        check_base_length(&[0x02, 0x01, 0x90, 0x01], b"abc"),
        Err(PackError::LengthMismatch { expected: 2, actual: 3 })
    );
    assert_eq!(
        check_base_length(&[0x85, 0x02], b""),
        Err(PackError::LengthMismatch { expected: 261, actual: 0 })
    );
}

#[test]
fn base_length_check_of_a_stream_without_length() {
    assert_eq!(check_base_length(&[], b""), Err(PackError::TruncatedInput));
    assert_eq!(check_base_length(&[0x85], b""), Err(PackError::TruncatedInput));
    let mut delta = vec![0xffu8; 19];
    delta.push(0x7f);
    assert_eq!(check_base_length(&delta, b""), Err(PackError::Overflow));
}

#[test]
fn delta_truncated() {
    assert_eq!(dedelta_buf(&[], b""), Err(PackError::TruncatedInput));
    assert_eq!(dedelta_buf(&[10], b"HELLOWORLD"), Err(PackError::TruncatedInput));
    assert_eq!(dedelta_buf(&[10, 0x89], b"HELLOWORLD"), Err(PackError::TruncatedInput));
    let delta = [10, 9, 0x03, b'f', b'o'];
    assert_eq!(dedelta_buf(&delta, b"HELLOWORLD"), Err(PackError::TruncatedInput));
    let delta = [10, 9, 0x91, 0x05];
    assert_eq!(dedelta_buf(&delta, b"HELLOWORLD"), Err(PackError::TruncatedInput));
}

#[test]
fn delta_with_instruction_zero() {
    let delta = [10, 9, 0x00];
    assert_eq!(dedelta_buf(&delta, b"HELLOWORLD"), Err(PackError::InvalidInstruction));
}

#[test]
fn delta_length_overflow() {
    let mut delta = vec![0xffu8; 19];
    delta.push(0x7f);
    assert_eq!(dedelta_buf(&delta, b""), Err(PackError::Overflow));
}
