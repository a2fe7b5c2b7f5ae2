//! The line framing of the transfer protocol.
//!
//! A packet opens with its length in four hexadecimal digits; the length
//! counts those four digits too. A length of zero is a flush packet, which
//! has no payload and ends a section. The answer to a request for a pack
//! carries the pack in packets of band 1; the bands 2 and 3 carry messages.

use crate::digest::{hex_digit, hex_digit_value, hex_value, to_hex_digit};
use crate::error::PackError;
use vstd::prelude::*;
use vstd::string::StringSliceAdditionalSpecFns;

verus! {

/// The length of a packet's length field.
pub const LENGTH_FIELD: usize = 4;

/// The length of a hash in hexadecimal.
pub const HEX_HASH_LEN: usize = 40;

/// The greatest length that a packet can declare.
pub const MAX_PACKET_LEN: usize = 0xffff;

/// The length that the packet at `pos` declares: zero for a flush packet,
/// else the length of the packet, its length field included.
pub open spec fn packet_at(data: Seq<u8>, pos: int) -> Result<usize, PackError> {
    if pos < 0 || pos + LENGTH_FIELD > data.len() {
        Err(PackError::TruncatedInput)
    } else {
        match (
            hex_value(data[pos]),
            hex_value(data[pos + 1]),
            hex_value(data[pos + 2]),
            hex_value(data[pos + 3]),
        ) {
            (Some(a), Some(b), Some(c), Some(d)) => {
                let len = a * 4096 + b * 256 + c * 16 + d;
                if len == 0 {
                    Ok(0)
                } else if len < LENGTH_FIELD {
                    Err(PackError::MalformedHeader)
                } else if pos + len > data.len() {
                    Err(PackError::TruncatedInput)
                } else {
                    Ok(len as usize)
                }
            },
            _ => Err(PackError::MalformedHeader),
        }
    }
}

/// How far the packet of declared length `len` reaches: a flush packet is
/// its length field.
pub open spec fn packet_span(len: usize) -> int {
    if len == 0 {
        LENGTH_FIELD as int
    } else {
        len as int
    }
}

/// A packet with the payload `payload`.
pub open spec fn packet(payload: Seq<u8>) -> Seq<u8> {
    let len = payload.len() + LENGTH_FIELD;
    seq![
        hex_digit(len / 4096),
        hex_digit(len / 256 % 16),
        hex_digit(len / 16 % 16),
        hex_digit(len % 16),
    ] + payload
}

/// A flush packet.
pub open spec fn flush_packet() -> Seq<u8> {
    "0000".spec_bytes()
}

/// The hash, in hexadecimal, that the first reference of an advertisement
/// points to, for the packets from `pos` on. Flush packets and packets that
/// open with `#` are passed over; the first other packet is the reference,
/// and opens with the hash.
pub open spec fn advertised_head(data: Seq<u8>, pos: int) -> Result<Seq<u8>, PackError>
    decreases data.len() - pos,
{
    match packet_at(data, pos) {
        Err(e) => Err(e),
        Ok(len) => if len == 0 {
            advertised_head(data, pos + LENGTH_FIELD)
        } else if len > LENGTH_FIELD && data[pos + LENGTH_FIELD] == 35 {
            advertised_head(data, pos + len)
        } else if len < LENGTH_FIELD + HEX_HASH_LEN {
            Err(PackError::MalformedHeader)
        } else {
            Ok(data.subrange(pos + LENGTH_FIELD, pos + LENGTH_FIELD + HEX_HASH_LEN))
        },
    }
}

/// `head` before what `rest` holds, or the error of `rest`.
pub open spec fn after(head: Seq<u8>, rest: Result<Seq<u8>, PackError>) -> Result<
    Seq<u8>,
    PackError,
> {
    match rest {
        Ok(bytes) => Ok(head + bytes),
        Err(e) => Err(e),
    }
}

/// The bytes of band 1 in the packets from `pos` on, up to the first flush
/// packet. A packet's first byte is its band; packets of band 2 and 3 are
/// passed over.
pub open spec fn band_data(data: Seq<u8>, pos: int) -> Result<Seq<u8>, PackError>
    decreases data.len() - pos,
{
    match packet_at(data, pos) {
        Err(e) => Err(e),
        Ok(len) => if len == 0 {
            Ok(Seq::empty())
        } else if len == LENGTH_FIELD {
            Err(PackError::MalformedHeader)
        } else {
            let band = data[pos + LENGTH_FIELD];
            if band == 1 {
                after(data.subrange(pos + LENGTH_FIELD + 1, pos + len), band_data(data, pos + len))
            } else if band == 2 || band == 3 {
                band_data(data, pos + len)
            } else {
                Err(PackError::UnknownTypeTag)
            }
        },
    }
}

/// The pack that the answer `data` to a request carries: the bytes of
/// band 1 in the packets after the first, which acknowledges the request.
pub open spec fn pack_of_response(data: Seq<u8>) -> Result<Seq<u8>, PackError> {
    match packet_at(data, 0) {
        Err(e) => Err(e),
        Ok(len) => band_data(data, packet_span(len)),
    }
}

/// What a request for the object `head` and all it reaches says after the
/// hash.
pub open spec fn want_options() -> Seq<u8> {
    " multi_ack_detailed side-band-64k thin-pack ofs-delta agent=git/1.8.2\n".spec_bytes()
}

/// The request for the object `head` and all it reaches: a packet that
/// wants it, a flush packet, and a packet that says `done`.
pub open spec fn upload_request_bytes(head: Seq<u8>) -> Seq<u8> {
    packet("want ".spec_bytes() + head + want_options()) + flush_packet() + packet(
        "done\n".spec_bytes(),
    )
}

/// The four hexadecimal digits of a length below 65536 write the length.
proof fn lemma_length_digits(len: u32)
    requires
        len <= 0xffff,
    ensures
        len / 4096 < 16,
        (len / 4096) * 4096 + (len / 256 % 16) * 256 + (len / 16 % 16) * 16 + len % 16 == len,
{
    assert(len <= 0xffff ==> len / 4096 < 16 && (len / 4096) * 4096 + (len / 256 % 16) * 256 + (
    len / 16 % 16) * 16 + len % 16 == len) by (bit_vector);
}

/// A hexadecimal digit has the value it was made for.
proof fn lemma_hex_digit_value(nibble: int)
    requires
        0 <= nibble < 16,
    ensures
        hex_value(hex_digit(nibble)) == Some(nibble as nat),
{
}

/// Reading a packet that was framed gives its length, and its payload
/// stands after the length field.
pub proof fn lemma_packet_round_trip(payload: Seq<u8>, rest: Seq<u8>)
    requires
        payload.len() + LENGTH_FIELD <= MAX_PACKET_LEN,
    ensures
        packet_at(packet(payload) + rest, 0) == Ok::<usize, PackError>(
            (payload.len() + LENGTH_FIELD) as usize,
        ),
        (packet(payload) + rest).subrange(
            LENGTH_FIELD as int,
            LENGTH_FIELD + payload.len(),
        ) == payload,
{
    let len = (payload.len() + LENGTH_FIELD) as u32;
    let data = packet(payload) + rest;
    let a = (len / 4096) as int;
    let b = (len / 256 % 16) as int;
    let c = (len / 16 % 16) as int;
    let d = (len % 16) as int;
    lemma_length_digits(len);
    lemma_hex_digit_value(a);
    lemma_hex_digit_value(b);
    lemma_hex_digit_value(c);
    lemma_hex_digit_value(d);
    assert(data[0] == hex_digit(a));
    assert(data[1] == hex_digit(b));
    assert(data[2] == hex_digit(c));
    assert(data[3] == hex_digit(d));
    assert(data.subrange(LENGTH_FIELD as int, LENGTH_FIELD + payload.len()) =~= payload);
}

/// Reads the length that the packet at `pos` declares: zero for a flush
/// packet, else the length of the packet, its length field included.
pub fn read_packet(data: &[u8], pos: usize) -> (r: Result<usize, PackError>)
    ensures
        r == packet_at(data@, pos as int),
        r matches Ok(len) ==> pos + packet_span(len) <= data.len() && (len == 0 || len
            >= LENGTH_FIELD),
{
    if pos > data.len() || data.len() - pos < LENGTH_FIELD {
        return Err(PackError::TruncatedInput);
    }
    let a = hex_digit_value(data[pos]);
    let b = hex_digit_value(data[pos + 1]);
    let c = hex_digit_value(data[pos + 2]);
    let d = hex_digit_value(data[pos + 3]);
    match (a, b, c, d) {
        (Some(a), Some(b), Some(c), Some(d)) => {
            let len: usize = a as usize * 4096 + b as usize * 256 + c as usize * 16 + d as usize;
            if len == 0 {
                Ok(0)
            } else if len < LENGTH_FIELD {
                Err(PackError::MalformedHeader)
            } else if len > data.len() - pos {
                Err(PackError::TruncatedInput)
            } else {
                Ok(len)
            }
        },
        _ => Err(PackError::MalformedHeader),
    }
}

/// Frames `payload` as a packet. `None` when the payload is too long for
/// the length field.
pub fn encode_packet(payload: &[u8]) -> (r: Option<Vec<u8>>)
    ensures
        match r {
            Some(bytes) => bytes@ == packet(payload@) && payload.len() + LENGTH_FIELD
                <= MAX_PACKET_LEN,
            None => payload.len() + LENGTH_FIELD > MAX_PACKET_LEN,
        },
{
    if payload.len() > MAX_PACKET_LEN - LENGTH_FIELD {
        return None;
    }
    let len: usize = payload.len() + LENGTH_FIELD;
    let mut bytes: Vec<u8> = Vec::new();
    bytes.push(to_hex_digit((len / 4096) as u8));
    bytes.push(to_hex_digit((len / 256 % 16) as u8));
    bytes.push(to_hex_digit((len / 16 % 16) as u8));
    bytes.push(to_hex_digit((len % 16) as u8));
    let ghost head = bytes@;
    bytes.extend_from_slice(payload);
    assert(bytes@ =~= head + payload@);
    assert(bytes@ =~= packet(payload@));
    Some(bytes)
}

/// Finds in an advertisement of references the hash, in hexadecimal, that
/// the first reference points to.
pub fn parse_advertisement(advert: &[u8]) -> (r: Result<Vec<u8>, PackError>)
    ensures
        match r {
            Ok(head) => advertised_head(advert@, 0) == Ok::<Seq<u8>, PackError>(head@),
            Err(e) => advertised_head(advert@, 0) == Err::<Seq<u8>, PackError>(e),
        },
{
    let mut pos: usize = 0;
    loop
        invariant
            pos <= advert.len(),
            advertised_head(advert@, 0) == advertised_head(advert@, pos as int),
        decreases advert.len() - pos,
    {
        let len: usize = match read_packet(advert, pos) {
            Ok(len) => len,
            Err(e) => {
                return Err(e);
            },
        };
        if len == 0 {
            pos = pos + LENGTH_FIELD;
        } else if len > LENGTH_FIELD && advert[pos + LENGTH_FIELD] == 35 {
            pos = pos + len;
        } else if len < LENGTH_FIELD + HEX_HASH_LEN {
            return Err(PackError::MalformedHeader);
        } else {
            let hash = &advert[pos + LENGTH_FIELD..pos + LENGTH_FIELD + HEX_HASH_LEN];
            let mut head: Vec<u8> = Vec::new();
            head.extend_from_slice(hash);
            assert(head@ =~= hash@);
            return Ok(head);
        }
    }
}

/// Builds the request for the object `head`, a hash in hexadecimal, and
/// all it reaches. `None` when `head` is too long for a packet.
pub fn upload_request(head: &[u8]) -> (r: Option<Vec<u8>>)
    ensures
        r matches Some(body) ==> body@ == upload_request_bytes(head@),
        r is None <==> "want ".spec_bytes().len() + head.len() + want_options().len()
            + LENGTH_FIELD > MAX_PACKET_LEN,
{
    let want_word = "want ".as_bytes();
    let options = " multi_ack_detailed side-band-64k thin-pack ofs-delta agent=git/1.8.2\n".as_bytes();
    proof {
        broadcast use vstd::string::group_string_axioms;

        reveal_strlit("want ");
        reveal_strlit(" multi_ack_detailed side-band-64k thin-pack ofs-delta agent=git/1.8.2\n");
        reveal_strlit("done\n");
        assert(vstd::string::is_ascii("want "));
        assert(vstd::string::is_ascii(
            " multi_ack_detailed side-band-64k thin-pack ofs-delta agent=git/1.8.2\n",
        ));
        assert(vstd::string::is_ascii("done\n"));
    }
    if head.len() > MAX_PACKET_LEN - LENGTH_FIELD - want_word.len() - options.len() {
        return None;
    }
    let mut want: Vec<u8> = Vec::new();
    want.extend_from_slice(want_word);
    want.extend_from_slice(head);
    want.extend_from_slice(options);
    assert(want@ =~= "want ".spec_bytes() + head@ + want_options());
    let mut body: Vec<u8> = match encode_packet(want.as_slice()) {
        Some(bytes) => bytes,
        None => {
            return None;
        },
    };
    let ghost first = body@;
    body.extend_from_slice("0000".as_bytes());
    let mut done: Vec<u8> = match encode_packet("done\n".as_bytes()) {
        Some(bytes) => bytes,
        None => {
            return None;
        },
    };
    let ghost last = done@;
    body.append(&mut done);
    assert(body@ =~= first + flush_packet() + last);
    Some(body)
}

/// Takes the pack out of the answer to a request: passes over the first
/// packet and gathers the bytes of band 1 up to the first flush packet.
pub fn extract_pack(response: &[u8]) -> (r: Result<Vec<u8>, PackError>)
    ensures
        match r {
            Ok(pack) => pack_of_response(response@) == Ok::<Seq<u8>, PackError>(pack@),
            Err(e) => pack_of_response(response@) == Err::<Seq<u8>, PackError>(e),
        },
{
    let first: usize = match read_packet(response, 0) {
        Ok(len) => len,
        Err(e) => {
            return Err(e);
        },
    };
    let mut pos: usize = if first == 0 {
        LENGTH_FIELD
    } else {
        first
    };
    let mut pack: Vec<u8> = Vec::new();
    proof {
        match band_data(response@, pos as int) {
            Ok(rest) => {
                assert(pack@ + rest =~= rest);
            },
            Err(e) => {},
        }
    }
    loop
        invariant
            pos <= response.len(),
            pack_of_response(response@) == after(pack@, band_data(response@, pos as int)),
        decreases response.len() - pos,
    {
        let len: usize = match read_packet(response, pos) {
            Ok(len) => len,
            Err(e) => {
                return Err(e);
            },
        };
        if len == 0 {
            assert(pack@ + Seq::<u8>::empty() =~= pack@);
            return Ok(pack);
        }
        if len == LENGTH_FIELD {
            return Err(PackError::MalformedHeader);
        }
        let band: u8 = response[pos + LENGTH_FIELD];
        if band == 1 {
            let chunk = &response[pos + LENGTH_FIELD + 1..pos + len];
            proof {
                match band_data(response@, pos + len) {
                    Ok(rest) => {
                        assert(pack@ + (chunk@ + rest) =~= (pack@ + chunk@) + rest);
                    },
                    Err(e) => {},
                }
            }
            let ghost before = pack@;
            pack.extend_from_slice(chunk);
            assert(pack@ =~= before + chunk@);
        } else if band != 2 && band != 3 {
            return Err(PackError::UnknownTypeTag);
        }
        pos = pos + len;
    }
}

} // verus!
