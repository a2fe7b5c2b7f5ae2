//! Content hashes and their rendering in hexadecimal.

use sha1::{Digest, Sha1};
use vstd::prelude::*;

verus! {

/// The SHA-1 digest of `data`.
pub uninterp spec fn sha1_digest(data: Seq<u8>) -> Seq<u8>;

/// Hashes `data` with `sha1::Sha1`: `new`, one `update` with all of `data`,
/// then `finalize`. The contract only gives the 20 bytes that come out a
/// name; that they are the SHA-1 of `data` rests on the `sha1` crate.
#[verifier::external_body]
pub(crate) fn sha1(data: &[u8]) -> (digest: [u8; 20])
    ensures
        digest@ == sha1_digest(data@),
{
    let mut hasher = Sha1::new();
    hasher.update(data);
    hasher.finalize().into()
}

/// The ASCII code of the lowercase hexadecimal digit for `nibble`.
pub open spec fn hex_digit(nibble: int) -> u8 {
    if nibble < 10 {
        (48 + nibble) as u8
    } else {
        (87 + nibble) as u8
    }
}

/// The value of the hexadecimal digit with the ASCII code `c`, in either
/// case.
pub open spec fn hex_value(c: u8) -> Option<nat> {
    if 48 <= c <= 57 {
        Some((c - 48) as nat)
    } else if 97 <= c <= 102 {
        Some((c - 87) as nat)
    } else if 65 <= c <= 70 {
        Some((c - 55) as nat)
    } else {
        None
    }
}

/// The bytes that `text` writes in hexadecimal, two digits for each byte,
/// the high half first; `None` when `text` has an odd length or holds
/// anything but hexadecimal digits.
pub open spec fn unhex(text: Seq<u8>) -> Option<Seq<u8>>
    decreases text.len(),
{
    if text.len() == 0 {
        Some(Seq::empty())
    } else if text.len() == 1 {
        None
    } else {
        let n = text.len() as int;
        match (hex_value(text[n - 2]), hex_value(text[n - 1]), unhex(text.subrange(0, n - 2))) {
            (Some(high), Some(low), Some(bytes)) => Some(bytes.push((high * 16 + low) as u8)),
            _ => None,
        }
    }
}

/// `bytes` in lowercase hexadecimal, two ASCII digits for each byte, the
/// high half first.
pub open spec fn hex(bytes: Seq<u8>) -> Seq<u8> {
    Seq::new(
        2 * bytes.len(),
        |i: int|
            if i % 2 == 0 {
                hex_digit(bytes[i / 2] as int / 16)
            } else {
                hex_digit(bytes[i / 2] as int % 16)
            },
    )
}

/// The lowercase hexadecimal digit for `nibble`.
pub fn to_hex_digit(nibble: u8) -> (c: u8)
    requires
        nibble < 16,
    ensures
        c == hex_digit(nibble as int),
{
    if nibble < 10 {
        48 + nibble
    } else {
        87 + nibble
    }
}

/// Renders `bytes` in lowercase hexadecimal.
pub fn to_hex(bytes: &[u8]) -> (text: Vec<u8>)
    ensures
        text@ == hex(bytes@),
{
    let mut text: Vec<u8> = Vec::new();
    let mut i: usize = 0;
    while i < bytes.len()
        invariant
            i <= bytes.len(),
            text.len() == 2 * i,
            forall|j: int| 0 <= j < text.len() ==> text@[j] == hex(bytes@)[j],
        decreases bytes.len() - i,
    {
        let byte: u8 = bytes[i];
        proof {
            assert(byte >> 4 == byte / 16) by (bit_vector);
            assert(byte & 0x0f == byte % 16) by (bit_vector);
        }
        text.push(to_hex_digit(byte >> 4));
        text.push(to_hex_digit(byte & 0x0f));
        i = i + 1;
    }
    text
}

/// Text of odd length writes no bytes.
proof fn lemma_unhex_odd(text: Seq<u8>)
    requires
        text.len() % 2 == 1,
    ensures
        unhex(text) is None,
    decreases text.len(),
{
    if text.len() > 1 {
        lemma_unhex_odd(text.subrange(0, text.len() - 2));
    }
}

/// Text whose first `n` digits write no bytes writes none.
proof fn lemma_unhex_prefix(text: Seq<u8>, n: int)
    requires
        0 <= n <= text.len(),
        n % 2 == 0,
        text.len() % 2 == 0,
        unhex(text.subrange(0, n)) is None,
    ensures
        unhex(text) is None,
    decreases text.len() - n,
{
    if n < text.len() {
        let longer = text.subrange(0, n + 2);
        assert(longer.subrange(0, n) == text.subrange(0, n));
        lemma_unhex_prefix(text, n + 2);
    } else {
        assert(text.subrange(0, n) == text);
    }
}

/// Reading what was rendered in hexadecimal gives the bytes back.
pub proof fn lemma_hex_round_trip(bytes: Seq<u8>)
    ensures
        unhex(hex(bytes)) == Some(bytes),
    decreases bytes.len(),
{
    let text = hex(bytes);
    if bytes.len() == 0 {
        assert(unhex(text) == Some(Seq::<u8>::empty()));
        assert(bytes =~= Seq::<u8>::empty());
    } else {
        let n = text.len() as int;
        let rest = bytes.drop_last();
        let last = bytes.last();
        lemma_hex_round_trip(rest);
        assert(text.subrange(0, n - 2) =~= hex(rest));
        assert(text[n - 2] == hex_digit(last as int / 16));
        assert(text[n - 1] == hex_digit(last as int % 16));
        assert(hex_value(hex_digit(last as int / 16)) == Some((last as int / 16) as nat));
        assert(hex_value(hex_digit(last as int % 16)) == Some((last as int % 16) as nat));
        assert(rest.push(last) =~= bytes);
    }
}

/// The value of a hexadecimal digit.
pub fn hex_digit_value(c: u8) -> (v: Option<u8>)
    ensures
        match v {
            Some(n) => hex_value(c) == Some(n as nat) && n < 16,
            None => hex_value(c) is None,
        },
{
    if 48 <= c && c <= 57 {
        Some(c - 48)
    } else if 97 <= c && c <= 102 {
        Some(c - 87)
    } else if 65 <= c && c <= 70 {
        Some(c - 55)
    } else {
        None
    }
}

/// Reads the bytes that `text` writes in hexadecimal.
pub fn from_hex(text: &[u8]) -> (r: Option<Vec<u8>>)
    ensures
        match r {
            Some(bytes) => unhex(text@) == Some(bytes@),
            None => unhex(text@) is None,
        },
{
    if text.len() % 2 == 1 {
        proof {
            lemma_unhex_odd(text@);
        }
        return None;
    }
    let mut bytes: Vec<u8> = Vec::new();
    let mut i: usize = 0;
    proof {
        assert(text@.subrange(0, 0) =~= Seq::<u8>::empty());
    }
    while i < text.len()
        invariant
            i <= text.len(),
            i % 2 == 0,
            text.len() % 2 == 0,
            unhex(text@.subrange(0, i as int)) == Some(bytes@),
        decreases text.len() - i,
    {
        let ghost longer = text@.subrange(0, i + 2);
        proof {
            assert(longer.subrange(0, i as int) == text@.subrange(0, i as int));
        }
        let pair = (hex_digit_value(text[i]), hex_digit_value(text[i + 1]));
        match pair {
            (Some(high), Some(low)) => {
                bytes.push(high * 16 + low);
            },
            _ => {
                proof {
                    lemma_unhex_prefix(text@, i + 2);
                }
                return None;
            },
        }
        i = i + 2;
    }
    proof {
        assert(text@.subrange(0, i as int) == text@);
    }
    Some(bytes)
}

} // verus!
