//! Delta instructions and their replay against a base buffer.
//!
//! A delta stream opens with two plain lengths, that of the base and that of
//! the target, and goes on with instructions. An instruction either inserts
//! literal bytes that follow it in the stream or copies a range of the base.

use crate::error::PackError;
use crate::varint::{delta_buf_length, plain_varint};
use vstd::prelude::*;

verus! {

/// The copy length of an instruction that announces no byte of length.
pub const DEFAULT_COPY_LENGTH: u128 = 0x10000;

/// One instruction of a delta stream.
#[derive(Clone, Copy, Debug, PartialEq, Eq, Structural)]
#[allow(inconsistent_fields)]
pub enum DeltaOp {
    /// Append the `len` bytes that follow the instruction byte in the stream.
    Insert { len: usize },
    /// Append `len` bytes of the base, from `offset` on.
    Copy { offset: u128, len: u128 },
}

/// The operand bytes that the low `bits` bits of `mask` announce, read from
/// `pos` on: how many there are, and the number they form when the byte for
/// bit `k` is worth 256 to the power `k`. An absent byte counts as zero.
pub open spec fn operands(data: Seq<u8>, pos: int, mask: nat, bits: nat) -> (nat, nat)
    decreases bits,
{
    if bits == 0 {
        (0, 0)
    } else if mask % 2 == 1 {
        let (count, high) = operands(data, pos + 1, mask / 2, (bits - 1) as nat);
        (count + 1, data[pos] as nat + 256 * high)
    } else {
        let (count, high) = operands(data, pos, mask / 2, (bits - 1) as nat);
        (count, 256 * high)
    }
}

/// 256 to the power `k`.
pub open spec fn pow256(k: nat) -> nat
    decreases k,
{
    if k == 0 {
        1
    } else {
        256 * pow256((k - 1) as nat)
    }
}

/// The operands of the copy instruction `byte`, read from `pos` on: the
/// count of bytes read, the offset into the base and the length to copy.
/// Bits 0 to 3 of `byte` announce the bytes of the offset, bits 4 to 6 those
/// of the length. Where no byte of the length is announced, the length is
/// `DEFAULT_COPY_LENGTH`; else it is the number that the bytes form, zero
/// included.
pub open spec fn copy_operands(data: Seq<u8>, pos: int, byte: u8) -> Result<
    (usize, u128, u128),
    PackError,
> {
    let (offset_bytes, offset) = operands(data, pos, (byte % 16) as nat, 4);
    let (size_bytes, size) = operands(data, pos + offset_bytes, ((byte / 16) % 8) as nat, 3);
    if pos < 0 || pos + offset_bytes + size_bytes > data.len() {
        Err(PackError::TruncatedInput)
    } else {
        Ok(
            (
                (offset_bytes + size_bytes) as usize,
                offset as u128,
                if (byte / 16) % 8 == 0 {
                    DEFAULT_COPY_LENGTH
                } else {
                    size as u128
                },
            ),
        )
    }
}

/// The instruction at `pos` and the count of bytes it takes in the stream,
/// literal bytes included.
pub open spec fn instruction_at(delta: Seq<u8>, pos: int) -> Result<(usize, DeltaOp), PackError> {
    if pos < 0 || pos >= delta.len() {
        Err(PackError::TruncatedInput)
    } else {
        let byte = delta[pos];
        if byte >= 128 {
            match copy_operands(delta, pos + 1, byte) {
                Ok((n, offset, len)) => Ok(((n + 1) as usize, DeltaOp::Copy { offset, len })),
                Err(e) => Err(e),
            }
        } else if byte == 0 {
            Err(PackError::InvalidInstruction)
        } else if pos + 1 + byte > delta.len() {
            Err(PackError::TruncatedInput)
        } else {
            Ok(((1 + byte) as usize, DeltaOp::Insert { len: byte as usize }))
        }
    }
}

/// The target that the instructions from `pos` on build after `out`, for a
/// target of `target_len` bytes. Replay stops as soon as the target is full.
/// A stream that ends before, or an instruction that makes the target
/// longer, is a mismatch of lengths; a copy that leaves the base is out of
/// range.
pub open spec fn replay(
    delta: Seq<u8>,
    pos: int,
    base: Seq<u8>,
    target_len: nat,
    out: Seq<u8>,
) -> Result<Seq<u8>, PackError>
    decreases delta.len() - pos,
{
    if out.len() == target_len {
        Ok(out)
    } else if out.len() > target_len || pos < 0 || pos >= delta.len() {
        Err(PackError::LengthMismatch { expected: target_len as u128, actual: out.len() as u128 })
    } else {
        match instruction_at(delta, pos) {
            Err(e) => Err(e),
            Ok((n, DeltaOp::Insert { len })) => replay(
                delta,
                pos + n,
                base,
                target_len,
                out + delta.subrange(pos + 1, pos + 1 + len),
            ),
            Ok((n, DeltaOp::Copy { offset, len })) => if offset + len > base.len() {
                Err(PackError::OutOfRangeCopy)
            } else {
                proof {
                    lemma_instruction_advances(delta, pos);
                }
                replay(
                    delta,
                    pos + n,
                    base,
                    target_len,
                    out + base.subrange(offset as int, offset + len),
                )
            },
        }
    }
}

/// The target that the delta stream `delta` builds from `base`. The length
/// that the stream declares for its base is read and passed over.
pub open spec fn apply_delta(delta: Seq<u8>, base: Seq<u8>) -> Result<Seq<u8>, PackError> {
    match plain_varint(delta, 0) {
        Err(e) => Err(e),
        Ok((n1, base_len)) => match plain_varint(delta, n1 as int) {
            Err(e) => Err(e),
            Ok((n2, target_len)) => replay(delta, n1 + n2, base, target_len as nat, Seq::empty()),
        },
    }
}

/// What replay builds has the length asked for.
proof fn lemma_replay_fills_target(
    delta: Seq<u8>,
    pos: int,
    base: Seq<u8>,
    target_len: nat,
    out: Seq<u8>,
)
    ensures
        replay(delta, pos, base, target_len, out) matches Ok(target) ==> target.len()
            == target_len,
    decreases delta.len() - pos,
{
    if out.len() < target_len && 0 <= pos < delta.len() {
        lemma_instruction_advances(delta, pos);
        match instruction_at(delta, pos) {
            Err(e) => {},
            Ok((n, DeltaOp::Insert { len })) => {
                lemma_replay_fills_target(
                    delta,
                    pos + n,
                    base,
                    target_len,
                    out + delta.subrange(pos + 1, pos + 1 + len),
                );
            },
            Ok((n, DeltaOp::Copy { offset, len })) => {
                if offset + len <= base.len() {
                    lemma_replay_fills_target(
                        delta,
                        pos + n,
                        base,
                        target_len,
                        out + base.subrange(offset as int, offset + len),
                    );
                }
            },
        }
    }
}

/// Whether the delta stream `delta` was made for a base of the length of
/// `base`: the first length of the stream is that length.
pub open spec fn base_length_checked(delta: Seq<u8>, base: Seq<u8>) -> Result<(), PackError> {
    match plain_varint(delta, 0) {
        Err(e) => Err(e),
        Ok((_, base_len)) => if base_len != base.len() {
            Err(PackError::LengthMismatch { expected: base_len, actual: base.len() as u128 })
        } else {
            Ok(())
        },
    }
}

/// The target that a delta builds has exactly the length that the delta
/// declares for it.
pub proof fn lemma_delta_lengths(delta: Seq<u8>, base: Seq<u8>)
    ensures
        apply_delta(delta, base) matches Ok(target) ==> {
            &&& plain_varint(delta, 0) matches Ok((n1, _))
            &&& plain_varint(delta, n1 as int) matches Ok((_, target_len))
            &&& target_len == target.len()
        },
{
    match plain_varint(delta, 0) {
        Err(e) => {},
        Ok((n1, base_len)) => match plain_varint(delta, n1 as int) {
            Err(e) => {},
            Ok((n2, target_len)) => {
                lemma_replay_fills_target(delta, n1 + n2, base, target_len as nat, Seq::empty());
            },
        },
    }
}

/// A copy instruction that announces no byte of length copies
/// `DEFAULT_COPY_LENGTH` bytes, whatever bytes of offset it announces.
pub proof fn lemma_copy_default_length(data: Seq<u8>, pos: int, byte: u8)
    requires
        (byte / 16) % 8 == 0,
    ensures
        copy_operands(data, pos, byte) matches Ok((_, _, len)) ==> len == DEFAULT_COPY_LENGTH,
{
}

/// The offset of a copy instruction fits in four bytes; its length, where
/// bytes of length are announced, fits in three, and is the number that
/// they form.
pub proof fn lemma_copy_operand_bounds(data: Seq<u8>, pos: int, byte: u8)
    ensures
        copy_operands(data, pos, byte) matches Ok((n, offset, len)) ==> {
            &&& n <= 7
            &&& offset < 0x1_0000_0000
            &&& len <= DEFAULT_COPY_LENGTH || len < 0x100_0000
            &&& (byte / 16) % 8 != 0 ==> len < 0x100_0000 && len == operands(
                data,
                pos + operands(data, pos, (byte % 16) as nat, 4).0,
                ((byte / 16) % 8) as nat,
                3,
            ).1
        },
{
    let (offset_bytes, offset) = operands(data, pos, (byte % 16) as nat, 4);
    lemma_operands_count(data, pos, (byte % 16) as nat, 4);
    lemma_operands_count(data, pos + offset_bytes, ((byte / 16) % 8) as nat, 3);
    lemma_operands_value(data, pos, (byte % 16) as nat, 4);
    lemma_operands_value(data, pos + offset_bytes, ((byte / 16) % 8) as nat, 3);
    assert(pow256(3) == 0x100_0000 && pow256(4) == 0x1_0000_0000) by {
        reveal_with_fuel(pow256, 5);
    }
}

/// The operand bytes of `bits` bits form a number below 256 to the power
/// `bits`.
proof fn lemma_operands_value(data: Seq<u8>, pos: int, mask: nat, bits: nat)
    ensures
        operands(data, pos, mask, bits).1 < pow256(bits),
    decreases bits,
{
    if bits > 0 {
        if mask % 2 == 1 {
            lemma_operands_value(data, pos + 1, mask / 2, (bits - 1) as nat);
        } else {
            lemma_operands_value(data, pos, mask / 2, (bits - 1) as nat);
        }
    }
}

/// An instruction takes at least one byte and ends inside the stream.
pub proof fn lemma_instruction_advances(delta: Seq<u8>, pos: int)
    ensures
        instruction_at(delta, pos) matches Ok((n, _)) ==> 1 <= n && pos + n <= delta.len(),
{
    if 0 <= pos < delta.len() && delta[pos] >= 128 {
        let byte = delta[pos];
        let (offset_bytes, offset) = operands(delta, pos + 1, (byte % 16) as nat, 4);
        lemma_operands_count(delta, pos + 1, (byte % 16) as nat, 4);
        lemma_operands_count(delta, pos + 1 + offset_bytes, ((byte / 16) % 8) as nat, 3);
    }
}

/// No more operand bytes are read than bits are looked at.
proof fn lemma_operands_count(data: Seq<u8>, pos: int, mask: nat, bits: nat)
    ensures
        operands(data, pos, mask, bits).0 <= bits,
    decreases bits,
{
    if bits > 0 {
        if mask % 2 == 1 {
            lemma_operands_count(data, pos + 1, mask / 2, (bits - 1) as nat);
        } else {
            lemma_operands_count(data, pos, mask / 2, (bits - 1) as nat);
        }
    }
}

/// Reads from `pos` on the operand bytes that the low `bits` bits of `mask`
/// announce. Returns their count and the number they form, or `None` when
/// the buffer ends before the last of them.
fn read_operands(buf: &[u8], pos: usize, mask: u8, bits: u8) -> (r: Option<(usize, u128)>)
    requires
        pos <= buf.len(),
        bits <= 4,
    ensures
        match r {
            Some((count, value)) => {
                &&& operands(buf@, pos as int, mask as nat, bits as nat) == (
                    count as nat,
                    value as nat,
                )
                &&& pos + count <= buf.len()
                &&& value < pow256(bits as nat)
            },
            None => pos + operands(buf@, pos as int, mask as nat, bits as nat).0 > buf.len(),
        },
{
    let mut i: usize = pos;
    let mut value: u128 = 0;
    let mut weight: u128 = 1;
    let mut rest: u8 = mask;
    let mut k: u8 = 0;
    proof {
        reveal_with_fuel(pow256, 6);
    }
    while k < bits
        invariant
            pos <= i <= buf.len(),
            k <= bits <= 4,
            weight == pow256(k as nat),
            value < weight,
            operands(buf@, pos as int, mask as nat, bits as nat).0 == (i - pos) + operands(
                buf@,
                i as int,
                rest as nat,
                (bits - k) as nat,
            ).0,
            operands(buf@, pos as int, mask as nat, bits as nat).1 == value + weight * operands(
                buf@,
                i as int,
                rest as nat,
                (bits - k) as nat,
            ).1,
        decreases bits - k,
    {
        let ghost tail = operands(buf@, i as int, rest as nat, (bits - k) as nat);
        let ghost next = operands(
            buf@,
            if rest % 2 == 1 {
                i + 1
            } else {
                i as int
            },
            (rest / 2) as nat,
            (bits - k - 1) as nat,
        );
        proof {
            reveal_with_fuel(pow256, 6);
            assert((rest & 1 == 1) == (rest % 2 == 1)) by (bit_vector);
            assert(rest >> 1 == rest / 2) by (bit_vector);
            assert(weight * (256 * next.1) == (weight * 256) * next.1) by (nonlinear_arith);
        }
        if rest & 1 == 1 {
            if i >= buf.len() {
                return None;
            }
            let b: u128 = buf[i] as u128;
            proof {
                assert(tail == (next.0 + 1, b as nat + 256 * next.1));
                assert(weight * (b + 256 * next.1) == b * weight + (weight * 256) * next.1)
                    by (nonlinear_arith);
                assert(b * weight <= 255 * weight) by (nonlinear_arith)
                    requires
                        b <= 255,
                        weight >= 0,
                ;
            }
            value = value + b * weight;
            i = i + 1;
        } else {
            proof {
                assert(tail == (next.0, 256 * next.1));
            }
        }
        weight = weight * 256;
        rest = rest >> 1;
        k = k + 1;
    }
    proof {
        assert(operands(buf@, i as int, rest as nat, 0) == (0nat, 0nat));
        assert(weight * 0 == 0);
    }
    Some((i - pos, value))
}

/// Reads at `pos` the operands of the copy instruction `byte`. Returns the
/// count of bytes read, the offset into the base and the length to copy.
pub fn delta_copy_length(buf: &[u8], pos: usize, byte: u8) -> (r: Result<
    (usize, u128, u128),
    PackError,
>)
    ensures
        r == copy_operands(buf@, pos as int, byte),
        r matches Ok((n, _, _)) ==> pos + n <= buf.len(),
{
    if pos > buf.len() {
        return Err(PackError::TruncatedInput);
    }
    proof {
        assert(byte & 0x0f == byte % 16) by (bit_vector);
        assert((byte >> 4) & 0x07 == (byte / 16) % 8) by (bit_vector);
    }
    let (offset_bytes, offset) = match read_operands(buf, pos, byte & 0x0f, 4) {
        Some(field) => field,
        None => {
            return Err(PackError::TruncatedInput);
        },
    };
    let (size_bytes, size) = match read_operands(buf, pos + offset_bytes, (byte >> 4) & 0x07, 3) {
        Some(field) => field,
        None => {
            return Err(PackError::TruncatedInput);
        },
    };
    let len: u128 = if (byte >> 4) & 0x07 == 0 {
        DEFAULT_COPY_LENGTH
    } else {
        size
    };
    Ok((offset_bytes + size_bytes, offset, len))
}

/// Decodes the instruction at `pos`. Returns it with the count of bytes it
/// takes in the stream; the literal bytes of an insertion are those after
/// the instruction byte.
pub fn decode_instruction(delta: &[u8], pos: usize) -> (r: Result<(usize, DeltaOp), PackError>)
    ensures
        r == instruction_at(delta@, pos as int),
        r matches Ok((n, _)) ==> 1 <= n && pos + n <= delta.len(),
{
    if pos >= delta.len() {
        return Err(PackError::TruncatedInput);
    }
    let byte: u8 = delta[pos];
    proof {
        assert((byte & 0x80 != 0) == (byte >= 128)) by (bit_vector);
    }
    if byte & 0x80 != 0 {
        match delta_copy_length(delta, pos + 1, byte) {
            Ok((n, offset, len)) => Ok((n + 1, DeltaOp::Copy { offset, len })),
            Err(e) => Err(e),
        }
    } else if byte == 0 {
        Err(PackError::InvalidInstruction)
    } else {
        let len: usize = byte as usize;
        if len > delta.len() - pos - 1 {
            Err(PackError::TruncatedInput)
        } else {
            Ok((1 + len, DeltaOp::Insert { len }))
        }
    }
}

/// Tells whether the delta stream `delta_buf` was made for a base of the
/// length of `base_buf`: a `LengthMismatch` if and only if the stream's
/// first length is read and differs from that length.
pub fn check_base_length(delta_buf: &[u8], base_buf: &[u8]) -> (r: Result<(), PackError>)
    ensures
        r == base_length_checked(delta_buf@, base_buf@),
{
    match delta_buf_length(delta_buf, 0) {
        Err(e) => Err(e),
        Ok((_, base_len)) => if base_len != base_buf.len() as u128 {
            Err(PackError::LengthMismatch { expected: base_len, actual: base_buf.len() as u128 })
        } else {
            Ok(())
        },
    }
}

/// Rebuilds a target from `base_buf` by the delta stream `delta_buf`.
///
/// The stream's first length, that of the base it was made for, is passed
/// over; `check_base_length` tests it. Instructions are replayed until the
/// target has the stream's second length; an instruction that would make it
/// longer, or a stream that ends before, is an error.
pub fn dedelta_buf(delta_buf: &[u8], base_buf: &[u8]) -> (r: Result<Vec<u8>, PackError>)
    ensures
        match r {
            Ok(target) => apply_delta(delta_buf@, base_buf@) == Ok::<Seq<u8>, PackError>(target@),
            Err(e) => apply_delta(delta_buf@, base_buf@) == Err::<Seq<u8>, PackError>(e),
        },
{
    let (n1, _) = match delta_buf_length(delta_buf, 0) {
        Ok(length) => length,
        Err(e) => {
            return Err(e);
        },
    };
    let (n2, target_len) = match delta_buf_length(delta_buf, n1) {
        Ok(length) => length,
        Err(e) => {
            return Err(e);
        },
    };
    let mut pos: usize = n1 + n2;
    let mut out: Vec<u8> = Vec::new();
    loop
        invariant
            pos <= delta_buf.len(),
            out.len() <= target_len,
            apply_delta(delta_buf@, base_buf@) == replay(
                delta_buf@,
                pos as int,
                base_buf@,
                target_len as nat,
                out@,
            ),
        decreases delta_buf.len() - pos,
    {
        let filled: u128 = out.len() as u128;
        if filled == target_len {
            return Ok(out);
        }
        if pos >= delta_buf.len() {
            return Err(PackError::LengthMismatch { expected: target_len, actual: filled });
        }
        let room: u128 = target_len - filled;
        match decode_instruction(delta_buf, pos) {
            Err(e) => {
                return Err(e);
            },
            Ok((n, DeltaOp::Insert { len })) => {
                let literal = &delta_buf[pos + 1..pos + 1 + len];
                if len as u128 > room {
                    proof {
                        let grown = out@ + literal@;
                        assert(replay(
                            delta_buf@,
                            pos + n,
                            base_buf@,
                            target_len as nat,
                            grown,
                        ) is Err);
                    }
                    return Err(
                        PackError::LengthMismatch {
                            expected: target_len,
                            actual: filled + len as u128,
                        },
                    );
                }
                let ghost before = out@;
                out.extend_from_slice(literal);
                assert(out@ == before + literal@);
                pos = pos + n;
            },
            Ok((n, DeltaOp::Copy { offset, len })) => {
                let base_len: u128 = base_buf.len() as u128;
                if offset > base_len || len > base_len - offset {
                    return Err(PackError::OutOfRangeCopy);
                }
                if len > room {
                    proof {
                        let grown = out@ + base_buf@.subrange(offset as int, offset + len);
                        assert(replay(
                            delta_buf@,
                            pos + n,
                            base_buf@,
                            target_len as nat,
                            grown,
                        ) is Err);
                    }
                    return Err(
                        PackError::LengthMismatch { expected: target_len, actual: filled + len },
                    );
                }
                let start: usize = offset as usize;
                let range = &base_buf[start..start + len as usize];
                let ghost before = out@;
                out.extend_from_slice(range);
                assert(out@ == before + range@);
                pos = pos + n;
            },
        }
    }
}

} // verus!
