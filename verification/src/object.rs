//! Objects: their kinds, their framing and their identity.
//!
//! An object is a kind and a content. Framed, it is the kind's name, a
//! space, the content's length in decimal, a zero byte and the content. Its
//! identity is the SHA-1 of the framed bytes; stored, it is the framed bytes
//! as a zlib stream.

use crate::digest::{hex, sha1, sha1_digest, to_hex};
use crate::error::PackError;
use crate::zlib::{deflate, inflate, zlib_deflated, zlib_inflated};
use vstd::prelude::*;

verus! {

/// The kind of an object.
#[derive(Clone, Copy, Debug, PartialEq, Eq, Structural)]
pub enum ObjectKind {
    Commit,
    Tree,
    Blob,
    Tag,
}

/// The ASCII codes of `commit`.
pub open spec fn commit_name() -> Seq<u8> {
    seq![99u8, 111u8, 109u8, 109u8, 105u8, 116u8]
}

/// The ASCII codes of `tree`.
pub open spec fn tree_name() -> Seq<u8> {
    seq![116u8, 114u8, 101u8, 101u8]
}

/// The ASCII codes of `blob`.
pub open spec fn blob_name() -> Seq<u8> {
    seq![98u8, 108u8, 111u8, 98u8]
}

/// The ASCII codes of `tag`.
pub open spec fn tag_name() -> Seq<u8> {
    seq![116u8, 97u8, 103u8]
}

/// The kind that a pack entry's type tag stands for.
pub open spec fn kind_of_tag(tag: u8) -> Option<ObjectKind> {
    if tag == 1 {
        Some(ObjectKind::Commit)
    } else if tag == 2 {
        Some(ObjectKind::Tree)
    } else if tag == 3 {
        Some(ObjectKind::Blob)
    } else if tag == 4 {
        Some(ObjectKind::Tag)
    } else {
        None
    }
}

/// The kind that a name in an object's header stands for.
pub open spec fn kind_of_name(name: Seq<u8>) -> Option<ObjectKind> {
    if name == commit_name() {
        Some(ObjectKind::Commit)
    } else if name == tree_name() {
        Some(ObjectKind::Tree)
    } else if name == blob_name() {
        Some(ObjectKind::Blob)
    } else if name == tag_name() {
        Some(ObjectKind::Tag)
    } else {
        None
    }
}

impl ObjectKind {
    /// The kind's name as it stands in an object's header.
    pub open spec fn name(self) -> Seq<u8> {
        match self {
            ObjectKind::Commit => commit_name(),
            ObjectKind::Tree => tree_name(),
            ObjectKind::Blob => blob_name(),
            ObjectKind::Tag => tag_name(),
        }
    }

    /// The kind's name as it stands in an object's header.
    pub fn name_bytes(self) -> (name: Vec<u8>)
        ensures
            name@ == self.name(),
    {
        let mut name: Vec<u8> = Vec::new();
        match self {
            ObjectKind::Commit => {
                name.push(99);
                name.push(111);
                name.push(109);
                name.push(109);
                name.push(105);
                name.push(116);
            },
            ObjectKind::Tree => {
                name.push(116);
                name.push(114);
                name.push(101);
                name.push(101);
            },
            ObjectKind::Blob => {
                name.push(98);
                name.push(108);
                name.push(111);
                name.push(98);
            },
            ObjectKind::Tag => {
                name.push(116);
                name.push(97);
                name.push(103);
            },
        }
        name
    }

    /// The kind named by `name`, if it names one.
    pub fn from_name(name: &[u8]) -> (kind: Option<ObjectKind>)
        ensures
            kind == kind_of_name(name@),
    {
        if bytes_equal(name, ObjectKind::Commit.name_bytes().as_slice()) {
            Some(ObjectKind::Commit)
        } else if bytes_equal(name, ObjectKind::Tree.name_bytes().as_slice()) {
            Some(ObjectKind::Tree)
        } else if bytes_equal(name, ObjectKind::Blob.name_bytes().as_slice()) {
            Some(ObjectKind::Blob)
        } else if bytes_equal(name, ObjectKind::Tag.name_bytes().as_slice()) {
            Some(ObjectKind::Tag)
        } else {
            None
        }
    }

    /// The kind that the type tag `tag` of a pack entry stands for.
    pub fn from_tag(tag: u8) -> (kind: Option<ObjectKind>)
        ensures
            kind == kind_of_tag(tag),
    {
        if tag == 1 {
            Some(ObjectKind::Commit)
        } else if tag == 2 {
            Some(ObjectKind::Tree)
        } else if tag == 3 {
            Some(ObjectKind::Blob)
        } else if tag == 4 {
            Some(ObjectKind::Tag)
        } else {
            None
        }
    }
}

/// Whether two byte strings are the same.
pub fn bytes_equal(a: &[u8], b: &[u8]) -> (same: bool)
    ensures
        same == (a@ == b@),
{
    if a.len() != b.len() {
        return false;
    }
    let mut i: usize = 0;
    while i < a.len()
        invariant
            i <= a.len(),
            a.len() == b.len(),
            forall|j: int| 0 <= j < i ==> a@[j] == b@[j],
        decreases a.len() - i,
    {
        if a[i] != b[i] {
            return false;
        }
        i = i + 1;
    }
    assert(a@ =~= b@);
    true
}

/// `n` in decimal, as ASCII digits without leading zeros.
pub open spec fn decimal(n: nat) -> Seq<u8>
    decreases n,
{
    if n < 10 {
        seq![(48 + n) as u8]
    } else {
        decimal(n / 10).push((48 + n % 10) as u8)
    }
}

/// The number that the ASCII digits `digits` write in decimal; `None` when
/// `digits` is empty or holds anything but digits.
pub open spec fn decimal_value(digits: Seq<u8>) -> Option<nat>
    decreases digits.len(),
{
    if digits.len() == 0 {
        None
    } else {
        let last = digits.last();
        if last < 48 || last > 57 {
            None
        } else if digits.len() == 1 {
            Some((last - 48) as nat)
        } else {
            match decimal_value(digits.drop_last()) {
                Some(high) => Some(10 * high + (last - 48) as nat),
                None => None,
            }
        }
    }
}

/// The position of the first `byte` in `data` at or after `from`.
pub open spec fn first_index(data: Seq<u8>, from: int, byte: u8) -> Option<int>
    decreases data.len() - from,
{
    if from < 0 || from >= data.len() {
        None
    } else if data[from] == byte {
        Some(from)
    } else {
        first_index(data, from + 1, byte)
    }
}

/// The framed form of an object: the kind's name, a space, the content's
/// length in decimal, a zero byte, the content.
pub open spec fn framed(kind: ObjectKind, content: Seq<u8>) -> Seq<u8> {
    kind.name() + seq![32u8] + decimal(content.len()) + seq![0u8] + content
}

/// The identity of an object: the SHA-1 of its framed form.
pub open spec fn object_id(kind: ObjectKind, content: Seq<u8>) -> Seq<u8> {
    sha1_digest(framed(kind, content))
}

/// The object that `data` frames.
///
/// The header ends at the first zero byte. The kind's name is what stands
/// before the header's first space, the declared length what stands after
/// it. The content is the declared count of bytes after the header; bytes
/// beyond it are left alone.
pub open spec fn unframed(data: Seq<u8>) -> Result<(ObjectKind, Seq<u8>), PackError> {
    match first_index(data, 0, 0) {
        None => Err(PackError::TruncatedInput),
        Some(nul) => match first_index(data.subrange(0, nul), 0, 32) {
            None => Err(PackError::MalformedHeader),
            Some(space) => match kind_of_name(data.subrange(0, space)) {
                None => Err(PackError::UnknownTypeTag),
                Some(kind) => match decimal_value(data.subrange(space + 1, nul)) {
                    None => Err(PackError::MalformedHeader),
                    Some(declared) => if declared > u128::MAX {
                        Err(PackError::Overflow)
                    } else if declared > data.len() - nul - 1 {
                        Err(
                            PackError::LengthMismatch {
                                expected: declared as u128,
                                actual: (data.len() - nul - 1) as u128,
                            },
                        )
                    } else {
                        Ok((kind, data.subrange(nul + 1, nul + 1 + declared)))
                    },
                },
            },
        },
    }
}

/// Where a byte is found, it is at or after `from` and inside `data`.
pub proof fn lemma_first_index_bounds(data: Seq<u8>, from: int, byte: u8)
    ensures
        first_index(data, from, byte) matches Some(at) ==> from <= at < data.len() && data[at]
            == byte,
    decreases data.len() - from,
{
    if 0 <= from < data.len() && data[from] != byte {
        lemma_first_index_bounds(data, from + 1, byte);
    }
}

/// The first `byte` at or after `from` is at `at` when nothing before `at`
/// is `byte` and `at` holds it.
pub proof fn lemma_first_index_at(data: Seq<u8>, from: int, at: int, byte: u8)
    requires
        0 <= from <= at < data.len(),
        data[at] == byte,
        forall|j: int| from <= j < at ==> data[j] != byte,
    ensures
        first_index(data, from, byte) == Some(at),
    decreases at - from,
{
    if from < at {
        lemma_first_index_at(data, from + 1, at, byte);
    }
}

/// A number in decimal is written in digits only.
proof fn lemma_decimal_digits(n: nat)
    ensures
        decimal(n).len() >= 1,
        forall|j: int| 0 <= j < decimal(n).len() ==> 48 <= #[trigger] decimal(n)[j] <= 57,
    decreases n,
{
    if n >= 10 {
        lemma_decimal_digits(n / 10);
    }
}

/// Reading a number written in decimal gives the number back.
pub proof fn lemma_decimal_round_trip(n: nat)
    ensures
        decimal_value(decimal(n)) == Some(n),
    decreases n,
{
    if n >= 10 {
        lemma_decimal_round_trip(n / 10);
        lemma_decimal_digits(n / 10);
        let digits = decimal(n);
        assert(digits.drop_last() == decimal(n / 10));
        assert(digits.last() == (48 + n % 10) as u8);
    }
}

/// A kind's name is three to six lowercase letters, and names its kind.
proof fn lemma_kind_names(kind: ObjectKind)
    ensures
        3 <= kind.name().len() <= 6,
        forall|j: int| 0 <= j < kind.name().len() ==> 97 <= #[trigger] kind.name()[j] <= 122,
        kind_of_name(kind.name()) == Some(kind),
{
    assert(commit_name().len() == 6 && tree_name().len() == 4 && blob_name().len() == 4
        && tag_name().len() == 3);
    assert(commit_name()[0] == 99 && tree_name()[0] == 116 && blob_name()[0] == 98);
}

/// Taking apart what framing built gives the object back, and with it the
/// same identity: an object keeps its hash however often it is framed and
/// taken apart again.
pub proof fn lemma_frame_round_trip(kind: ObjectKind, content: Seq<u8>)
    requires
        content.len() <= usize::MAX,
    ensures
        unframed(framed(kind, content)) == Ok::<(ObjectKind, Seq<u8>), PackError>((kind, content)),
        unframed(framed(kind, content)) matches Ok((k, c)) && object_id(k, c) == object_id(
            kind,
            content,
        ),
{
    let name = kind.name();
    let digits = decimal(content.len());
    let data = framed(kind, content);
    let space = name.len() as int;
    let nul = space + 1 + digits.len();
    lemma_kind_names(kind);
    lemma_decimal_digits(content.len());
    lemma_decimal_round_trip(content.len());
    assert forall|j: int| 0 <= j < nul implies data[j] != 0 by {
        if j < space {
            assert(data[j] == name[j]);
        } else if j > space {
            assert(data[j] == digits[j - space - 1]);
        }
    }
    assert(data[nul] == 0);
    lemma_first_index_at(data, 0, nul, 0);
    let header = data.subrange(0, nul);
    assert forall|j: int| 0 <= j < space implies header[j] != 32 by {
        assert(header[j] == name[j]);
    }
    assert(header[space] == 32);
    lemma_first_index_at(header, 0, space, 32);
    assert(data.subrange(0, space) == name);
    assert(data.subrange(space + 1, nul) == digits);
    assert(data.len() - nul - 1 == content.len());
    assert(data.subrange(nul + 1, nul + 1 + content.len()) == content);
}

/// Appends `n` in decimal to `out`.
fn push_decimal(out: &mut Vec<u8>, n: usize)
    ensures
        final(out)@ == old(out)@ + decimal(n as nat),
    decreases n,
{
    if n >= 10 {
        push_decimal(out, n / 10);
    }
    out.push(48 + (n % 10) as u8);
}

/// Reads the decimal number that `digits` writes.
fn parse_decimal(digits: &[u8]) -> (r: Option<Option<u128>>)
    ensures
        match r {
            None => decimal_value(digits@) is None,
            Some(None) => decimal_value(digits@) matches Some(v) && v > u128::MAX,
            Some(Some(n)) => decimal_value(digits@) == Some(n as nat),
        },
{
    if digits.len() == 0 {
        return None;
    }
    let mut i: usize = 0;
    let mut value: u128 = 0;
    let mut fits: bool = true;
    while i < digits.len()
        invariant
            i <= digits.len(),
            i > 0 ==> (decimal_value(digits@.subrange(0, i as int)) matches Some(v) && (if fits {
                v == value
            } else {
                v > u128::MAX
            })),
            i == 0 ==> fits && value == 0,
        decreases digits.len() - i,
    {
        let byte: u8 = digits[i];
        let ghost prefix = digits@.subrange(0, i + 1);
        proof {
            assert(prefix.drop_last() == digits@.subrange(0, i as int));
            assert(prefix.last() == byte);
        }
        if byte < 48 || byte > 57 {
            proof {
                lemma_decimal_value_prefix(digits@, i + 1);
            }
            return None;
        }
        if fits {
            let next: Option<u128> = match value.checked_mul(10) {
                Some(high) => high.checked_add((byte - 48) as u128),
                None => None,
            };
            match next {
                Some(sum) => {
                    value = sum;
                },
                None => {
                    fits = false;
                },
            }
        }
        i = i + 1;
    }
    assert(digits@.subrange(0, i as int) == digits@);
    if fits {
        Some(Some(value))
    } else {
        Some(None)
    }
}

/// Digits that do not write a number do not do so with more after them.
proof fn lemma_decimal_value_prefix(digits: Seq<u8>, n: int)
    requires
        0 < n <= digits.len(),
        decimal_value(digits.subrange(0, n)) is None,
    ensures
        decimal_value(digits) is None,
    decreases digits.len() - n,
{
    if n < digits.len() {
        let longer = digits.subrange(0, n + 1);
        assert(longer.drop_last() == digits.subrange(0, n));
        lemma_decimal_value_prefix(digits, n + 1);
    } else {
        assert(digits.subrange(0, n) == digits);
    }
}

/// Finds the first `byte` in `data` at or after `from`.
pub fn find_byte(data: &[u8], from: usize, byte: u8) -> (r: Option<usize>)
    ensures
        match r {
            Some(at) => first_index(data@, from as int, byte) == Some(at as int) && from <= at
                < data.len(),
            None => first_index(data@, from as int, byte) is None,
        },
{
    let mut i: usize = from;
    while i < data.len()
        invariant
            from <= i,
            first_index(data@, from as int, byte) == first_index(data@, i as int, byte),
        decreases data.len() - i,
    {
        if data[i] == byte {
            return Some(i);
        }
        i = i + 1;
    }
    None
}

/// Frames an object: the kind's name, a space, the content's length in
/// decimal, a zero byte, the content.
pub fn frame_object(kind: ObjectKind, content: &[u8]) -> (bytes: Vec<u8>)
    ensures
        bytes@ == framed(kind, content@),
{
    let mut bytes: Vec<u8> = kind.name_bytes();
    bytes.push(32);
    push_decimal(&mut bytes, content.len());
    bytes.push(0);
    let ghost header = bytes@;
    bytes.extend_from_slice(content);
    assert(bytes@ == header + content@);
    bytes
}

/// Takes a framed object apart into its kind and its content.
pub fn unframe_object(data: &[u8]) -> (r: Result<(ObjectKind, Vec<u8>), PackError>)
    ensures
        match r {
            Ok((kind, content)) => unframed(data@) == Ok::<(ObjectKind, Seq<u8>), PackError>(
                (kind, content@),
            ),
            Err(e) => unframed(data@) == Err::<(ObjectKind, Seq<u8>), PackError>(e),
        },
{
    let nul: usize = match find_byte(data, 0, 0) {
        Some(at) => at,
        None => {
            return Err(PackError::TruncatedInput);
        },
    };
    let header = &data[0..nul];
    let space: usize = match find_byte(header, 0, 32) {
        Some(at) => at,
        None => {
            return Err(PackError::MalformedHeader);
        },
    };
    let name = &data[0..space];
    let kind: ObjectKind = match ObjectKind::from_name(name) {
        Some(kind) => kind,
        None => {
            return Err(PackError::UnknownTypeTag);
        },
    };
    let declared: u128 = match parse_decimal(&data[space + 1..nul]) {
        None => {
            return Err(PackError::MalformedHeader);
        },
        Some(None) => {
            return Err(PackError::Overflow);
        },
        Some(Some(n)) => n,
    };
    let available: usize = data.len() - nul - 1;
    if declared > available as u128 {
        return Err(PackError::LengthMismatch { expected: declared, actual: available as u128 });
    }
    let content = &data[nul + 1..nul + 1 + declared as usize];
    let mut out: Vec<u8> = Vec::new();
    out.extend_from_slice(content);
    assert(out@ == content@);
    Ok((kind, out))
}

/// Computes the identity of an object.
pub fn hash_object(kind: ObjectKind, content: &[u8]) -> (id: [u8; 20])
    ensures
        id@ == object_id(kind, content@),
{
    let bytes = frame_object(kind, content);
    sha1(bytes.as_slice())
}

/// Encodes an object for storage: its framed form as a zlib stream. `None`
/// when the compressor reports an error.
pub fn encode_object(kind: ObjectKind, content: &[u8]) -> (stored: Option<Vec<u8>>)
    ensures
        match stored {
            Some(bytes) => zlib_deflated(framed(kind, content@)) == Some(bytes@),
            None => zlib_deflated(framed(kind, content@)) is None,
        },
{
    let bytes = frame_object(kind, content);
    deflate(bytes.as_slice())
}

/// What decoding a stored object gives once its bytes were inflated with
/// the outcome `inflated`.
pub open spec fn decoded(inflated: Option<(Seq<u8>, nat)>) -> Result<
    (ObjectKind, Seq<u8>),
    PackError,
> {
    match inflated {
        None => Err(PackError::DecompressionFailure),
        Some((bytes, _)) => unframed(bytes),
    }
}

/// Decodes a stored object: inflates `stored` and takes the framed bytes
/// apart.
pub fn decode_object(stored: &[u8]) -> (r: Result<(ObjectKind, Vec<u8>), PackError>)
    ensures
        match r {
            Ok((kind, content)) => decoded(zlib_inflated(stored@)) == Ok::<
                (ObjectKind, Seq<u8>),
                PackError,
            >((kind, content@)),
            Err(e) => decoded(zlib_inflated(stored@)) == Err::<(ObjectKind, Seq<u8>), PackError>(
                e,
            ),
        },
{
    match inflate(stored) {
        None => Err(PackError::DecompressionFailure),
        Some((bytes, _)) => unframe_object(bytes.as_slice()),
    }
}

/// What reading the object stored under the identity `id` gives once its
/// bytes were inflated with the outcome `inflated`: the object, if it has
/// that identity.
pub open spec fn read_as(inflated: Option<(Seq<u8>, nat)>, id: Seq<u8>) -> Result<
    (ObjectKind, Seq<u8>),
    PackError,
> {
    match decoded(inflated) {
        Err(e) => Err(e),
        Ok((kind, content)) => if object_id(kind, content) == id {
            Ok((kind, content))
        } else {
            Err(PackError::HashMismatch)
        },
    }
}

/// Reads the object stored under the identity `id`: decodes `stored` and
/// computes the identity of what came out anew. An object with another
/// identity is an error.
pub fn read_object(stored: &[u8], id: &[u8]) -> (r: Result<(ObjectKind, Vec<u8>), PackError>)
    ensures
        match r {
            Ok((kind, content)) => read_as(zlib_inflated(stored@), id@) == Ok::<
                (ObjectKind, Seq<u8>),
                PackError,
            >((kind, content@)),
            Err(e) => read_as(zlib_inflated(stored@), id@) == Err::<
                (ObjectKind, Seq<u8>),
                PackError,
            >(e),
        },
{
    let (kind, content) = match decode_object(stored) {
        Ok(object) => object,
        Err(e) => {
            return Err(e);
        },
    };
    let found = hash_object(kind, content.as_slice());
    if bytes_equal(found.as_slice(), id) {
        Ok((kind, content))
    } else {
        Err(PackError::HashMismatch)
    }
}

/// Where an object with the identity `id` is stored: a directory named by
/// the first two hexadecimal digits of `id`, and in it a file named by the
/// other thirty-eight.
pub open spec fn loose_path(id: Seq<u8>) -> (Seq<u8>, Seq<u8>) {
    (hex(id).subrange(0, 2), hex(id).subrange(2, 40))
}

/// Names the directory and the file in which the object with the identity
/// `id` is stored.
pub fn object_path(id: &[u8; 20]) -> (path: (Vec<u8>, Vec<u8>))
    ensures
        (path.0@, path.1@) == loose_path(id@),
{
    let digits = to_hex(id.as_slice());
    let mut directory: Vec<u8> = Vec::new();
    directory.extend_from_slice(&digits[0..2]);
    let mut file: Vec<u8> = Vec::new();
    file.extend_from_slice(&digits[2..40]);
    assert(directory@ =~= hex(id@).subrange(0, 2));
    assert(file@ =~= hex(id@).subrange(2, 40));
    (directory, file)
}

} // verus!
