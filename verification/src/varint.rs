//! The variable-length integers of a packfile.
//!
//! Three encodings share one framing rule: the high bit of a byte says that
//! another byte follows, the low seven bits carry the number. They differ in
//! the order of the groups and in what the first byte holds besides.

use crate::error::PackError;
use vstd::prelude::*;

verus! {

/// The position just past the first byte at or after `pos` whose high bit is
/// clear; `None` when every byte from `pos` on has it set.
pub open spec fn varint_end(data: Seq<u8>, pos: int) -> Option<int>
    decreases data.len() - pos,
{
    if pos < 0 || pos >= data.len() {
        None
    } else if data[pos] < 128 {
        Some(pos + 1)
    } else {
        varint_end(data, pos + 1)
    }
}

/// 128 to the power `k`.
pub open spec fn pow128(k: nat) -> nat
    decreases k,
{
    if k == 0 {
        1
    } else {
        128 * pow128((k - 1) as nat)
    }
}

/// The number held by the low seven bits of the `n` bytes from `pos` on,
/// the lowest group first.
pub open spec fn le_groups(data: Seq<u8>, pos: int, n: nat) -> nat
    decreases n,
{
    if n == 0 {
        0
    } else {
        (data[pos] % 128) as nat + 128 * le_groups(data, pos + 1, (n - 1) as nat)
    }
}

/// What reading groups from `pos` on gives when they are added to `init` in
/// units of `unit`: the count of bytes read and the sum.
pub open spec fn scaled_varint(data: Seq<u8>, pos: int, init: nat, unit: nat) -> Result<
    (usize, u128),
    PackError,
> {
    match varint_end(data, pos) {
        None => Err(PackError::TruncatedInput),
        Some(end) => {
            let value = init + unit * le_groups(data, pos, (end - pos) as nat);
            if value > u128::MAX {
                Err(PackError::Overflow)
            } else {
                Ok(((end - pos) as usize, value as u128))
            }
        },
    }
}

/// A length of a delta stream's preamble: seven-bit groups, lowest first.
pub open spec fn plain_varint(data: Seq<u8>, pos: int) -> Result<(usize, u128), PackError> {
    scaled_varint(data, pos, 0, 1)
}

/// The header of a pack entry: bits 4 to 6 of the first byte are the type
/// tag, its low four bits the low bits of the size, and the bytes after it,
/// while the high bit asks for more, the rest of the size.
pub open spec fn entry_header(data: Seq<u8>, pos: int) -> Result<(usize, u8, u128), PackError> {
    if pos < 0 || pos >= data.len() {
        Err(PackError::TruncatedInput)
    } else {
        let first = data[pos];
        let tag = ((first / 16) % 8) as u8;
        let low = (first % 16) as nat;
        if first < 128 {
            Ok((1, tag, low as u128))
        } else {
            match scaled_varint(data, pos + 1, low, 16) {
                Ok((n, size)) => Ok(((n + 1) as usize, tag, size)),
                Err(e) => Err(e),
            }
        }
    }
}

/// The distance held by the `n` bytes from `pos` on, highest group first:
/// each byte but the first takes what came before, plus one, times 128.
pub open spec fn be_biased(data: Seq<u8>, pos: int, n: nat) -> nat
    decreases n,
{
    if n == 0 {
        0
    } else if n == 1 {
        (data[pos] % 128) as nat
    } else {
        (be_biased(data, pos, (n - 1) as nat) + 1) * 128 + (data[pos + n - 1] % 128) as nat
    }
}

/// The distance from an offset delta back to its base, encoded at `pos`:
/// the count of bytes read and the distance.
pub open spec fn offset_varint(data: Seq<u8>, pos: int) -> Result<(usize, u128), PackError> {
    match varint_end(data, pos) {
        None => Err(PackError::TruncatedInput),
        Some(end) => {
            let value = be_biased(data, pos, (end - pos) as nat);
            if value > u128::MAX {
                Err(PackError::Overflow)
            } else {
                Ok(((end - pos) as usize, value as u128))
            }
        },
    }
}

proof fn lemma_pow128_positive(k: nat)
    ensures
        pow128(k) > 0,
    decreases k,
{
    if k > 0 {
        lemma_pow128_positive((k - 1) as nat);
    }
}

/// One more group adds its value times the next power of 128.
proof fn lemma_le_groups_push(data: Seq<u8>, pos: int, n: nat)
    ensures
        le_groups(data, pos, n + 1) == le_groups(data, pos, n) + pow128(n) * (data[pos + n] % 128),
    decreases n,
{
    let g = (data[pos + n] % 128) as nat;
    if n == 0 {
        assert(le_groups(data, pos + 1, 0) == 0);
        assert(le_groups(data, pos, 0) == 0);
        assert(le_groups(data, pos, 1) == g);
        assert(pow128(0) == 1);
    } else {
        lemma_le_groups_push(data, pos + 1, (n - 1) as nat);
        let rest = le_groups(data, pos + 1, (n - 1) as nat);
        let p = pow128((n - 1) as nat);
        assert(le_groups(data, pos + 1, n) == rest + p * g);
        assert(le_groups(data, pos, n) == (data[pos] % 128) as nat + 128 * rest);
        assert(le_groups(data, pos, n + 1) == (data[pos] % 128) as nat + 128 * (rest + p * g));
        assert(pow128(n) == 128 * p);
        assert(128 * (rest + p * g) == 128 * rest + (128 * p) * g) by (nonlinear_arith);
    }
}

/// An integer that ends does so after at least one byte, inside the buffer.
pub proof fn lemma_varint_end_bounds(data: Seq<u8>, pos: int)
    ensures
        varint_end(data, pos) matches Some(end) ==> pos < end <= data.len(),
    decreases data.len() - pos,
{
    if 0 <= pos < data.len() && data[pos] >= 128 {
        lemma_varint_end_bounds(data, pos + 1);
    }
}

/// A header that decodes takes at least one byte and ends inside the
/// buffer.
pub proof fn lemma_entry_header_bounds(data: Seq<u8>, pos: int)
    requires
        data.len() <= usize::MAX,
    ensures
        entry_header(data, pos) matches Ok((n, _, _)) ==> 1 <= n && pos + n <= data.len(),
{
    lemma_varint_end_bounds(data, pos + 1);
}

/// A distance that decodes takes at least one byte and ends inside the
/// buffer.
pub proof fn lemma_offset_varint_bounds(data: Seq<u8>, pos: int)
    requires
        data.len() <= usize::MAX,
    ensures
        offset_varint(data, pos) matches Ok((n, _)) ==> 1 <= n && pos + n <= data.len(),
{
    lemma_varint_end_bounds(data, pos);
}

/// Bytes with the high bit set do not move the end of the integer.
proof fn lemma_varint_end_skip(data: Seq<u8>, pos: int, i: int)
    requires
        0 <= pos <= i <= data.len(),
        forall|j: int| pos <= j < i ==> data[j] >= 128,
    ensures
        varint_end(data, pos) == varint_end(data, i),
    decreases i - pos,
{
    if pos < i {
        lemma_varint_end_skip(data, pos + 1, i);
    }
}

/// A plain length, encoded: seven-bit groups, lowest first, the high bit
/// set on every byte but the last.
pub open spec fn le_bytes(value: nat) -> Seq<u8>
    decreases value,
{
    if value < 128 {
        seq![value as u8]
    } else {
        seq![(128 + value % 128) as u8] + le_bytes(value / 128)
    }
}

/// The header of a pack entry, encoded: the tag and the low four bits of
/// the size in the first byte, the rest of the size as a plain length.
pub open spec fn header_bytes(tag: u8, size: nat) -> Seq<u8> {
    if size < 16 {
        seq![(tag * 16 + size) as u8]
    } else {
        seq![(128 + tag * 16 + size % 16) as u8] + le_bytes(size / 16)
    }
}

/// The bytes of an encoded distance that come before the last: they hold
/// `value`, highest group first, each group after the first one less than
/// what a plain base-128 digit would be, and have the high bit set.
pub open spec fn offset_prefix(value: nat) -> Seq<u8>
    decreases value,
{
    if value < 128 {
        seq![(128 + value) as u8]
    } else {
        offset_prefix((value / 128 - 1) as nat).push((128 + value % 128) as u8)
    }
}

/// The distance from an offset delta back to its base, encoded.
pub open spec fn offset_bytes(distance: nat) -> Seq<u8> {
    if distance < 128 {
        seq![distance as u8]
    } else {
        offset_prefix((distance / 128 - 1) as nat).push((distance % 128) as u8)
    }
}

/// Whether `part` stands in `data` from `pos` on.
pub open spec fn stands_at(data: Seq<u8>, pos: int, part: Seq<u8>) -> bool {
    &&& 0 <= pos
    &&& pos + part.len() <= data.len()
    &&& forall|i: int| 0 <= i < part.len() ==> data[pos + i] == part[i]
}

/// Where the encoding of `value` stands, the integer ends after it and its
/// groups hold `value`.
pub proof fn lemma_le_bytes_decode(data: Seq<u8>, pos: int, value: nat)
    requires
        stands_at(data, pos, le_bytes(value)),
    ensures
        varint_end(data, pos) == Some(pos + le_bytes(value).len()),
        le_groups(data, pos, le_bytes(value).len()) == value,
    decreases value,
{
    let part = le_bytes(value);
    assert(data[pos] == part[0]);
    if value < 128 {
        assert(le_groups(data, pos + 1, 0) == 0);
    } else {
        let rest = le_bytes(value / 128);
        assert forall|i: int| 0 <= i < rest.len() implies data[pos + 1 + i] == rest[i] by {
            assert(data[pos + (i + 1)] == part[i + 1]);
        }
        lemma_le_bytes_decode(data, pos + 1, value / 128);
    }
}

/// Where the leading bytes of an encoded distance stand, every byte has
/// the high bit set and together they hold `value`.
proof fn lemma_offset_prefix_decode(data: Seq<u8>, pos: int, value: nat)
    requires
        stands_at(data, pos, offset_prefix(value)),
    ensures
        offset_prefix(value).len() >= 1,
        forall|j: int| pos <= j < pos + offset_prefix(value).len() ==> data[j] >= 128,
        be_biased(data, pos, offset_prefix(value).len()) == value,
    decreases value,
{
    let part = offset_prefix(value);
    if value < 128 {
        assert(data[pos + 0] == part[0]);
    } else {
        let head = offset_prefix((value / 128 - 1) as nat);
        assert forall|i: int| 0 <= i < head.len() implies data[pos + i] == head[i] by {
            assert(data[pos + i] == part[i]);
        }
        lemma_offset_prefix_decode(data, pos, (value / 128 - 1) as nat);
        assert(data[pos + head.len()] == part[head.len() as int]);
        assert forall|j: int| pos <= j < pos + part.len() implies data[j] >= 128 by {
            if j == pos + head.len() {
            }
        }
    }
}

/// Decoding a plain length where its encoding stands gives the value back.
pub proof fn lemma_plain_varint_round_trip(data: Seq<u8>, pos: int, value: u128)
    requires
        data.len() <= usize::MAX,
        stands_at(data, pos, le_bytes(value as nat)),
    ensures
        plain_varint(data, pos) == Ok::<(usize, u128), PackError>(
            (le_bytes(value as nat).len() as usize, value),
        ),
{
    lemma_le_bytes_decode(data, pos, value as nat);
    let v = le_groups(data, pos, le_bytes(value as nat).len());
    assert(1 * v == v);
}

/// Decoding an entry header where its encoding stands gives the tag and
/// the size back.
pub proof fn lemma_header_varint_round_trip(data: Seq<u8>, pos: int, tag: u8, size: u128)
    requires
        tag < 8,
        data.len() <= usize::MAX,
        stands_at(data, pos, header_bytes(tag, size as nat)),
    ensures
        entry_header(data, pos) == Ok::<(usize, u8, u128), PackError>(
            (header_bytes(tag, size as nat).len() as usize, tag, size),
        ),
{
    let part = header_bytes(tag, size as nat);
    assert(data[pos + 0] == part[0]);
    if size >= 16 {
        let rest = le_bytes((size / 16) as nat);
        assert forall|i: int| 0 <= i < rest.len() implies data[pos + 1 + i] == rest[i] by {
            assert(data[pos + (i + 1)] == part[i + 1]);
        }
        lemma_le_bytes_decode(data, pos + 1, (size / 16) as nat);
    }
}

/// Decoding a distance where its encoding stands gives the distance back.
pub proof fn lemma_offset_varint_round_trip(data: Seq<u8>, pos: int, distance: u128)
    requires
        data.len() <= usize::MAX,
        stands_at(data, pos, offset_bytes(distance as nat)),
    ensures
        offset_varint(data, pos) == Ok::<(usize, u128), PackError>(
            (offset_bytes(distance as nat).len() as usize, distance),
        ),
{
    let part = offset_bytes(distance as nat);
    if distance < 128 {
        assert(data[pos + 0] == part[0]);
    } else {
        let high = (distance / 128 - 1) as nat;
        let head = offset_prefix(high);
        assert forall|i: int| 0 <= i < head.len() implies data[pos + i] == head[i] by {
            assert(data[pos + i] == part[i]);
        }
        lemma_offset_prefix_decode(data, pos, high);
        assert(data[pos + head.len()] == part[head.len() as int]);
        lemma_varint_end_skip(data, pos, pos + head.len());
    }
}

/// An encoded plain length below 128 to the power `k` takes at most `k`
/// bytes.
proof fn lemma_le_bytes_len(value: nat, k: nat)
    requires
        k >= 1,
        value < pow128(k),
    ensures
        1 <= le_bytes(value).len() <= k,
    decreases value,
{
    if value >= 128 {
        assert(pow128(1) == 128) by {
            reveal_with_fuel(pow128, 2);
        }
        assert(k >= 2);
        lemma_le_bytes_len(value / 128, (k - 1) as nat);
    }
}

/// The leading bytes of an encoded distance, for a value below 128 to the
/// power `k`, are at most `k`.
proof fn lemma_offset_prefix_len(value: nat, k: nat)
    requires
        k >= 1,
        value < pow128(k),
    ensures
        1 <= offset_prefix(value).len() <= k,
    decreases value,
{
    if value >= 128 {
        assert(pow128(1) == 128) by {
            reveal_with_fuel(pow128, 2);
        }
        assert(k >= 2);
        lemma_offset_prefix_len((value / 128 - 1) as nat, (k - 1) as nat);
    }
}

/// No number of 128 bits reaches 128 to the power 19.
proof fn lemma_u128_below_pow128_19(value: u128)
    ensures
        value < pow128(19),
{
    reveal_with_fuel(pow128, 20);
}

/// Decoding an encoded plain length gives the value back, and takes all of
/// the encoding.
pub proof fn lemma_plain_varint_decodes_encoding(value: u128)
    ensures
        plain_varint(le_bytes(value as nat), 0) == Ok::<(usize, u128), PackError>(
            (le_bytes(value as nat).len() as usize, value),
        ),
{
    lemma_u128_below_pow128_19(value);
    lemma_le_bytes_len(value as nat, 19);
    lemma_plain_varint_round_trip(le_bytes(value as nat), 0, value);
}

/// Decoding an encoded entry header gives the type tag and the size back,
/// and takes all of the encoding.
pub proof fn lemma_header_varint_decodes_encoding(tag: u8, size: u128)
    requires
        tag < 8,
    ensures
        entry_header(header_bytes(tag, size as nat), 0) == Ok::<(usize, u8, u128), PackError>(
            (header_bytes(tag, size as nat).len() as usize, tag, size),
        ),
{
    lemma_u128_below_pow128_19((size / 16) as u128);
    lemma_le_bytes_len((size / 16) as nat, 19);
    lemma_header_varint_round_trip(header_bytes(tag, size as nat), 0, tag, size);
}

/// Decoding an encoded distance gives the distance back, the bias of its
/// leading bytes included, and takes all of the encoding.
pub proof fn lemma_offset_varint_decodes_encoding(distance: u128)
    ensures
        offset_varint(offset_bytes(distance as nat), 0) == Ok::<(usize, u128), PackError>(
            (offset_bytes(distance as nat).len() as usize, distance),
        ),
{
    if distance >= 128 {
        lemma_u128_below_pow128_19((distance / 128 - 1) as u128);
        lemma_offset_prefix_len((distance / 128 - 1) as nat, 19);
    }
    lemma_offset_varint_round_trip(offset_bytes(distance as nat), 0, distance);
}

/// Reads groups from `pos` on and adds them to `init` in units of `unit`.
fn read_groups(data: &[u8], pos: usize, init: u128, unit: u128) -> (r: Result<
    (usize, u128),
    PackError,
>)
    requires
        pos <= data.len(),
        unit > 0,
    ensures
        r == scaled_varint(data@, pos as int, init as nat, unit as nat),
        r matches Ok((n, _)) ==> 1 <= n && pos + n <= data.len(),
{
    let mut i: usize = pos;
    let mut value: u128 = init;
    let mut fits: bool = true;
    let mut scale: Option<u128> = Some(unit);
    proof {
        let none = le_groups(data@, pos as int, 0);
        let one = pow128(0);
        assert(none == 0 && one == 1);
        assert(unit * none == 0 && unit * one == unit) by (nonlinear_arith)
            requires
                none == 0,
                one == 1,
        ;
    }
    loop
        invariant
            pos <= i <= data.len(),
            unit > 0,
            forall|j: int| pos <= j < i ==> data@[j] >= 128,
            fits ==> value == init + unit * le_groups(data@, pos as int, (i - pos) as nat),
            !fits ==> init + unit * le_groups(data@, pos as int, (i - pos) as nat) > u128::MAX,
            match scale {
                Some(s) => s == unit * pow128((i - pos) as nat),
                None => unit * pow128((i - pos) as nat) > u128::MAX,
            },
        decreases data.len() - i,
    {
        proof {
            lemma_varint_end_skip(data@, pos as int, i as int);
        }
        if i >= data.len() {
            return Err(PackError::TruncatedInput);
        }
        let byte: u8 = data[i];
        let group: u128 = (byte & 0x7f) as u128;
        let ghost k = (i - pos) as nat;
        let ghost before = le_groups(data@, pos as int, k);
        let ghost weight = pow128(k);
        proof {
            assert(byte & 0x7f == byte % 128) by (bit_vector);
            assert((byte & 0x80 == 0) == (byte < 128)) by (bit_vector);
            lemma_le_groups_push(data@, pos as int, k);
            lemma_pow128_positive(k);
            assert(le_groups(data@, pos as int, k + 1) == before + weight * group);
            assert(unit * (before + weight * group) == unit * before + (unit * weight) * group)
                by (nonlinear_arith);
            assert((unit * weight) * group >= 0) by (nonlinear_arith)
                requires
                    unit >= 0,
                    weight >= 0,
                    group >= 0,
            ;
            assert(group > 0 ==> (unit * weight) * group >= unit * weight) by (nonlinear_arith)
                requires
                    unit * weight >= 0,
            ;
            assert(group == 0 ==> (unit * weight) * group == 0) by (nonlinear_arith);
            assert(unit * pow128(k + 1) == (unit * weight) * 128) by (nonlinear_arith)
                requires
                    pow128(k + 1) == 128 * weight,
            ;
        }
        if fits && group != 0 {
            match scale {
                None => {
                    fits = false;
                },
                Some(s) => {
                    match group.checked_mul(s) {
                        None => {
                            assert(group * s == (unit * weight) * group) by (nonlinear_arith)
                                requires
                                    s == unit * weight,
                            ;
                            fits = false;
                        },
                        Some(term) => {
                            assert(term == (unit * weight) * group) by (nonlinear_arith)
                                requires
                                    term == group * s,
                                    s == unit * weight,
                            ;
                            match value.checked_add(term) {
                                None => {
                                    fits = false;
                                },
                                Some(sum) => {
                                    value = sum;
                                },
                            }
                        },
                    }
                },
            }
        }
        scale =
        match scale {
            Some(s) => s.checked_mul(128),
            None => None,
        };
        i = i + 1;
        if byte & 0x80 == 0 {
            proof {
                assert(varint_end(data@, i - 1) == Some(i as int));
            }
            if fits {
                return Ok((i - pos, value));
            } else {
                return Err(PackError::Overflow);
            }
        }
    }
}

/// Decodes a plain length at `pos`: seven-bit groups, lowest first, until a
/// byte with a clear high bit. Returns the count of bytes read and the value.
pub fn delta_buf_length(buf: &[u8], pos: usize) -> (r: Result<(usize, u128), PackError>)
    ensures
        r == plain_varint(buf@, pos as int),
        r matches Ok((n, _)) ==> 1 <= n && pos + n <= buf.len(),
{
    if pos > buf.len() {
        return Err(PackError::TruncatedInput);
    }
    read_groups(buf, pos, 0, 1)
}

/// Decodes the header of a pack entry at `pos`. Returns the count of bytes
/// read, the type tag and the declared size.
pub fn pack_item(pack_data: &[u8], pos: usize) -> (r: Result<(usize, u8, u128), PackError>)
    ensures
        r == entry_header(pack_data@, pos as int),
        r matches Ok((n, _, _)) ==> 1 <= n && pos + n <= pack_data.len(),
{
    if pos >= pack_data.len() {
        return Err(PackError::TruncatedInput);
    }
    let first: u8 = pack_data[pos];
    let tag: u8 = (first >> 4) & 7;
    let low: u8 = first & 15;
    proof {
        assert((first >> 4) & 7 == (first / 16) % 8) by (bit_vector);
        assert(first & 15 == first % 16) by (bit_vector);
        assert((first & 0x80 == 0) == (first < 128)) by (bit_vector);
    }
    if first & 0x80 == 0 {
        return Ok((1, tag, low as u128));
    }
    match read_groups(pack_data, pos + 1, low as u128, 16) {
        Ok((n, size)) => Ok((n + 1, tag, size)),
        Err(e) => Err(e),
    }
}

/// Decodes at `pos` the distance from an offset delta back to its base.
/// Returns the count of bytes read and the distance.
pub fn delta_offset(pack_data: &[u8], pos: usize) -> (r: Result<(usize, u128), PackError>)
    ensures
        r == offset_varint(pack_data@, pos as int),
        r matches Ok((n, _)) ==> 1 <= n && pos + n <= pack_data.len(),
{
    if pos > pack_data.len() {
        return Err(PackError::TruncatedInput);
    }
    let mut i: usize = pos;
    let mut value: u128 = 0;
    let mut fits: bool = true;
    loop
        invariant
            pos <= i <= pack_data.len(),
            forall|j: int| pos <= j < i ==> pack_data@[j] >= 128,
            fits ==> value == be_biased(pack_data@, pos as int, (i - pos) as nat),
            !fits ==> be_biased(pack_data@, pos as int, (i - pos) as nat) > u128::MAX,
        decreases pack_data.len() - i,
    {
        proof {
            lemma_varint_end_skip(pack_data@, pos as int, i as int);
        }
        if i >= pack_data.len() {
            return Err(PackError::TruncatedInput);
        }
        let byte: u8 = pack_data[i];
        let group: u128 = (byte & 0x7f) as u128;
        proof {
            assert(byte & 0x7f == byte % 128) by (bit_vector);
            assert((byte & 0x80 == 0) == (byte < 128)) by (bit_vector);
        }
        if i == pos {
            value = group;
        } else if fits {
            // (value + 1) * 128 + group, as far as it fits
            let shifted: Option<u128> = match value.checked_add(1) {
                Some(next) => next.checked_mul(128),
                None => None,
            };
            match shifted {
                Some(high) => {
                    // the low seven bits of `high` are clear, so the sum fits
                    value = high + group;
                },
                None => {
                    fits = false;
                },
            }
        }
        i = i + 1;
        if byte & 0x80 == 0 {
            proof {
                assert(varint_end(pack_data@, i - 1) == Some(i as int));
            }
            if fits {
                return Ok((i - pos, value));
            } else {
                return Err(PackError::Overflow);
            }
        }
    }
}

/// Encodes a plain length.
pub fn encode_plain_varint(value: u128) -> (bytes: Vec<u8>)
    ensures
        bytes@ == le_bytes(value as nat),
{
    let mut bytes: Vec<u8> = Vec::new();
    let mut rest: u128 = value;
    while rest >= 128
        invariant
            bytes@ + le_bytes(rest as nat) == le_bytes(value as nat),
        decreases rest,
    {
        let ghost before = bytes@;
        bytes.push((128 + rest % 128) as u8);
        proof {
            let group = seq![(128 + rest % 128) as u8];
            assert(bytes@ == before + group);
            assert(before + (group + le_bytes((rest / 128) as nat)) == (before + group) + le_bytes(
                (rest / 128) as nat,
            ));
        }
        rest = rest / 128;
    }
    bytes.push(rest as u8);
    bytes
}

/// Encodes the header of a pack entry with the type tag `tag` and the size
/// `size`.
pub fn encode_header_varint(tag: u8, size: u128) -> (bytes: Vec<u8>)
    requires
        tag < 8,
    ensures
        bytes@ == header_bytes(tag, size as nat),
{
    let low: u8 = (size % 16) as u8;
    if size < 16 {
        let mut bytes: Vec<u8> = Vec::new();
        bytes.push(tag * 16 + low);
        bytes
    } else {
        let mut bytes: Vec<u8> = Vec::new();
        bytes.push(128 + tag * 16 + low);
        let mut rest = encode_plain_varint(size / 16);
        bytes.append(&mut rest);
        bytes
    }
}

/// Appends the leading bytes of the encoding of a distance.
fn push_offset_prefix(out: &mut Vec<u8>, value: u128)
    ensures
        final(out)@ == old(out)@ + offset_prefix(value as nat),
    decreases value,
{
    if value >= 128 {
        push_offset_prefix(out, value / 128 - 1);
    }
    out.push((128 + value % 128) as u8);
}

/// Encodes the distance from an offset delta back to its base.
pub fn encode_offset_varint(distance: u128) -> (bytes: Vec<u8>)
    ensures
        bytes@ == offset_bytes(distance as nat),
{
    let mut bytes: Vec<u8> = Vec::new();
    if distance >= 128 {
        push_offset_prefix(&mut bytes, distance / 128 - 1);
    }
    bytes.push((distance % 128) as u8);
    bytes
}

} // verus!
