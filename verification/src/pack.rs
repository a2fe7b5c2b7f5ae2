//! Decoding a packfile.
//!
//! A pack is a header of twelve bytes (a magic word, a version and the count
//! of entries, four bytes each) and then the entries, one after the other.
//! An entry is a header, for a delta a reference to its base, and a zlib
//! stream. Entries are decoded in the order of the stream; a delta finds its
//! base among the objects decoded before it.

use crate::delta::{apply_delta, dedelta_buf};
use crate::digest::sha1;
use crate::error::PackError;
use crate::object::{frame_object, kind_of_tag, object_id, ObjectKind};
use crate::table::{hash_index, offset_index, ordered, Decoded, PackObject, PackTable};
use crate::transport::{extract_pack, pack_of_response};
use crate::varint::{
    delta_offset, entry_header, lemma_entry_header_bounds, lemma_offset_varint_bounds,
    offset_varint, pack_item,
};
use crate::zlib::{inflate, zlib_inflated};
use vstd::prelude::*;

verus! {

/// The length of a pack's header.
pub const PACK_HEADER_LEN: usize = 12;

/// The length of a hash.
pub const HASH_LEN: usize = 20;

/// What the header of a pack entry says the entry holds.
#[derive(Clone, Copy, Debug, PartialEq, Eq, Structural)]
pub enum EntryKind {
    /// A whole object of the given kind.
    Full { kind: ObjectKind },
    /// A delta whose base is the entry that starts `distance` bytes before
    /// this one.
    OfsDelta { distance: u128 },
    /// A delta whose base is the object with the hash that stands in the
    /// pack's twenty bytes from `base_at` on.
    RefDelta { base_at: usize },
}

/// The header of a pack entry.
#[derive(Clone, Copy, Debug, PartialEq, Eq, Structural)]
pub struct EntryHeader {
    /// What the entry holds.
    pub kind: EntryKind,
    /// The size that the header declares for the inflated payload.
    pub declared_size: u128,
    /// The length of the header, a delta's reference to its base included.
    pub len: usize,
}

/// An error of decoding a pack, with the offset of the entry that it came
/// from; zero for the pack's own header.
#[derive(Clone, Copy, Debug, PartialEq, Eq, Structural)]
pub struct PackFailure {
    pub offset: usize,
    pub error: PackError,
}

/// The count of entries that a pack's header announces: the big-endian
/// number in its last four bytes.
pub open spec fn entry_count(pack: Seq<u8>) -> Result<u32, PackError> {
    if pack.len() < PACK_HEADER_LEN {
        Err(PackError::TruncatedInput)
    } else {
        Ok((pack[8] * 0x1000000 + pack[9] * 0x10000 + pack[10] * 0x100 + pack[11]) as u32)
    }
}

/// The header of the entry that starts at `pos`.
pub open spec fn entry_at(pack: Seq<u8>, pos: int) -> Result<EntryHeader, PackError> {
    match entry_header(pack, pos) {
        Err(e) => Err(e),
        Ok((n, tag, size)) => if tag == 6 {
            match offset_varint(pack, pos + n) {
                Err(e) => Err(e),
                Ok((m, distance)) => Ok(
                    EntryHeader {
                        kind: EntryKind::OfsDelta { distance },
                        declared_size: size,
                        len: (n + m) as usize,
                    },
                ),
            }
        } else if tag == 7 {
            if pos + n + HASH_LEN > pack.len() {
                Err(PackError::TruncatedInput)
            } else {
                Ok(
                    EntryHeader {
                        kind: EntryKind::RefDelta { base_at: (pos + n) as usize },
                        declared_size: size,
                        len: (n + HASH_LEN) as usize,
                    },
                )
            }
        } else {
            match kind_of_tag(tag) {
                Some(kind) => Ok(
                    EntryHeader { kind: EntryKind::Full { kind }, declared_size: size, len: n },
                ),
                None => Err(PackError::UnknownTypeTag),
            }
        },
    }
}

/// The index in `table` of the base of an entry of kind `kind` that starts
/// at `entry_offset`: `None` for a whole object, which has no base.
pub open spec fn base_of(table: Seq<Decoded>, pack: Seq<u8>, entry_offset: int, kind: EntryKind)
    -> Result<Option<int>, PackError> {
    match kind {
        EntryKind::Full { kind } => Ok(None),
        EntryKind::OfsDelta { distance } => match offset_index(table, 0, entry_offset - distance) {
            Some(i) => Ok(Some(i)),
            None => Err(PackError::UnresolvedBaseReference),
        },
        EntryKind::RefDelta { base_at } => if base_at + HASH_LEN > pack.len() {
            Err(PackError::TruncatedInput)
        } else {
            match hash_index(table, 0, pack.subrange(base_at as int, base_at + HASH_LEN)) {
                Some(i) => Ok(Some(i)),
                None => Err(PackError::UnresolvedBaseReference),
            }
        },
    }
}

/// The base of an offset delta is the object whose entry starts at the
/// delta's own offset less the distance, and a delta for which the table
/// holds no such object has no base: it is an error, not an empty base.
pub proof fn lemma_offset_delta_base(
    table: Seq<Decoded>,
    pack: Seq<u8>,
    entry_offset: int,
    distance: u128,
)
    ensures
        match base_of(table, pack, entry_offset, EntryKind::OfsDelta { distance }) {
            Ok(Some(i)) => 0 <= i < table.len() && table[i].offset == entry_offset - distance,
            Ok(None) => false,
            Err(e) => e == PackError::UnresolvedBaseReference && forall|j: int|
                0 <= j < table.len() ==> table[j].offset != entry_offset - distance,
        },
{
    crate::table::lemma_offset_index(table, 0, entry_offset - distance);
}

/// The kind and the content of an entry of kind `kind` whose inflated
/// payload is `payload`. A whole object is its payload; a delta is what its
/// payload builds from the base's content, and has the base's kind.
pub open spec fn rebuilt(kind: EntryKind, base: Option<Decoded>, payload: Seq<u8>) -> Result<
    (ObjectKind, Seq<u8>),
    PackError,
> {
    match kind {
        EntryKind::Full { kind } => Ok((kind, payload)),
        _ => match base {
            None => Err(PackError::UnresolvedBaseReference),
            Some(object) => match apply_delta(payload, object.data) {
                Ok(target) => Ok((object.kind, target)),
                Err(e) => Err(e),
            },
        },
    }
}

/// The object of the entry that starts at `pos`, given the objects of the
/// entries before it, and the position at which the next entry starts.
pub open spec fn decoded_entry(pack: Seq<u8>, pos: int, table: Seq<Decoded>) -> Result<
    (Decoded, int),
    PackError,
> {
    match entry_at(pack, pos) {
        Err(e) => Err(e),
        Ok(header) => match base_of(table, pack, pos, header.kind) {
            Err(e) => Err(e),
            Ok(base) => {
                let start = pos + header.len;
                match zlib_inflated(pack.subrange(start, pack.len() as int)) {
                    None => Err(PackError::DecompressionFailure),
                    Some((payload, used)) => if start + used > pack.len() {
                        Err(PackError::DecompressionFailure)
                    } else {
                        let object = match base {
                            Some(i) => Some(table[i]),
                            None => None,
                        };
                        match rebuilt(header.kind, object, payload) {
                            Err(e) => Err(e),
                            Ok((kind, data)) => Ok(
                                (
                                    Decoded {
                                        offset: pos as nat,
                                        kind,
                                        hash: object_id(kind, data),
                                        data,
                                        declared_size: header.declared_size as nat,
                                        inflated_size: payload.len(),
                                        packed_size: (header.len + used) as nat,
                                        base,
                                    },
                                    start + used,
                                ),
                            ),
                        }
                    },
                }
            },
        },
    }
}

/// The objects of `count` entries from `pos` on, after those of `table`.
pub open spec fn decoded_entries(pack: Seq<u8>, pos: int, count: nat, table: Seq<Decoded>)
    -> Result<Seq<Decoded>, PackFailure>
    decreases count,
{
    if count == 0 {
        Ok(table)
    } else {
        match decoded_entry(pack, pos, table) {
            Err(e) => Err(PackFailure { offset: pos as usize, error: e }),
            Ok((object, next)) => decoded_entries(
                pack,
                next,
                (count - 1) as nat,
                table.push(object),
            ),
        }
    }
}

/// The objects of a pack, in the order of its entries. What follows the
/// last entry that the header announces is not looked at.
pub open spec fn decoded_pack(pack: Seq<u8>) -> Result<Seq<Decoded>, PackFailure> {
    match entry_count(pack) {
        Err(e) => Err(PackFailure { offset: 0, error: e }),
        Ok(count) => decoded_entries(pack, PACK_HEADER_LEN as int, count as nat, Seq::empty()),
    }
}

/// Whether each of `objects` has the identity of its kind and content.
pub open spec fn identified(objects: Seq<Decoded>) -> bool {
    forall|i: int|
        0 <= i < objects.len() ==> (#[trigger] objects[i]).hash == object_id(
            objects[i].kind,
            objects[i].data,
        )
}

/// Whether each of `objects` that was built from a base names an object
/// before itself.
pub open spec fn based_before(objects: Seq<Decoded>) -> bool {
    forall|i: int|
        0 <= i < objects.len() ==> ((#[trigger] objects[i]).base matches Some(b) ==> 0 <= b < i)
}

/// The header of an entry takes at least one byte and ends inside the pack.
proof fn lemma_entry_at_bounds(pack: Seq<u8>, pos: int)
    requires
        pack.len() <= usize::MAX,
    ensures
        entry_at(pack, pos) matches Ok(header) ==> 1 <= header.len && pos + header.len
            <= pack.len(),
{
    lemma_entry_header_bounds(pack, pos);
    match entry_header(pack, pos) {
        Ok((n, tag, size)) => {
            lemma_offset_varint_bounds(pack, pos + n);
        },
        Err(e) => {},
    }
}

/// An entry that decodes gives an object at its own offset, with the
/// identity of its kind and content, and the next entry starts after it.
proof fn lemma_decoded_entry(pack: Seq<u8>, pos: int, table: Seq<Decoded>)
    requires
        0 <= pos,
        pack.len() <= usize::MAX,
    ensures
        decoded_entry(pack, pos, table) matches Ok((object, next)) ==> {
            &&& object.offset == pos
            &&& object.hash == object_id(object.kind, object.data)
            &&& pos < next <= pack.len()
            &&& next == pos + object.packed_size
            &&& object.base matches Some(b) ==> 0 <= b < table.len()
        },
{
    lemma_entry_at_bounds(pack, pos);
    match entry_at(pack, pos) {
        Ok(header) => match header.kind {
            EntryKind::OfsDelta { distance } => {
                crate::table::lemma_offset_index(table, 0, pos - distance);
            },
            EntryKind::RefDelta { base_at } => {
                crate::table::lemma_hash_index(
                    table,
                    0,
                    pack.subrange(base_at as int, base_at + HASH_LEN),
                );
            },
            EntryKind::Full { kind } => {},
        },
        Err(e) => {},
    }
}

/// Entries that decode add one object each to the table, in the order of
/// the stream.
proof fn lemma_decoded_entries(pack: Seq<u8>, pos: int, count: nat, table: Seq<Decoded>)
    requires
        0 <= pos,
        pack.len() <= usize::MAX,
        ordered(table),
        identified(table),
        based_before(table),
        forall|i: int| 0 <= i < table.len() ==> table[i].offset < pos,
    ensures
        decoded_entries(pack, pos, count, table) matches Ok(objects) ==> {
            &&& objects.len() == table.len() + count
            &&& ordered(objects)
            &&& identified(objects)
            &&& based_before(objects)
            &&& forall|i: int|
                table.len() <= i < objects.len() ==> pos <= (#[trigger] objects[i]).offset
                    < pack.len()
        },
    decreases count,
{
    if count > 0 {
        lemma_decoded_entry(pack, pos, table);
        match decoded_entry(pack, pos, table) {
            Err(e) => {},
            Ok((object, next)) => {
                let grown = table.push(object);
                assert forall|i: int, j: int| 0 <= i < j < grown.len() implies grown[i].offset
                    < grown[j].offset by {
                    if j < table.len() {
                        assert(grown[i] == table[i] && grown[j] == table[j]);
                    } else {
                        assert(grown[i] == table[i]);
                    }
                }
                assert forall|i: int| 0 <= i < grown.len() implies (#[trigger] grown[i]).hash
                    == object_id(grown[i].kind, grown[i].data) by {
                    if i < table.len() {
                        assert(grown[i] == table[i]);
                    }
                }
                assert forall|i: int| 0 <= i < grown.len() implies grown[i].offset < next by {
                    if i < table.len() {
                        assert(grown[i] == table[i]);
                    }
                }
                assert forall|i: int| 0 <= i < grown.len() implies ((
                #[trigger] grown[i]).base matches Some(b) ==> 0 <= b < i) by {
                    if i < table.len() {
                        assert(grown[i] == table[i]);
                    }
                }
                lemma_decoded_entries(pack, next, (count - 1) as nat, grown);
                match decoded_entries(pack, next, (count - 1) as nat, grown) {
                    Err(f) => {},
                    Ok(objects) => {
                        assert forall|i: int| table.len() <= i < objects.len() implies pos <= (
                        #[trigger] objects[i]).offset < pack.len() by {
                            if i == table.len() {
                                assert(ordered(objects));
                                if objects.len() > table.len() + 1 {
                                    assert(objects[i].offset < objects[i + 1].offset);
                                }
                                lemma_decoded_entries_keep(pack, next, (count - 1) as nat, grown);
                                assert(objects[i] == grown[i]);
                            }
                        }
                    },
                }
            },
        }
    }
}

/// Entries that decode leave the objects before them as they are.
proof fn lemma_decoded_entries_keep(pack: Seq<u8>, pos: int, count: nat, table: Seq<Decoded>)
    ensures
        decoded_entries(pack, pos, count, table) matches Ok(objects) ==> {
            &&& objects.len() >= table.len()
            &&& forall|i: int| 0 <= i < table.len() ==> objects[i] == table[i]
        },
    decreases count,
{
    if count > 0 {
        match decoded_entry(pack, pos, table) {
            Err(e) => {},
            Ok((object, next)) => {
                let grown = table.push(object);
                lemma_decoded_entries_keep(pack, next, (count - 1) as nat, grown);
                match decoded_entries(pack, next, (count - 1) as nat, grown) {
                    Err(f) => {},
                    Ok(objects) => {
                        assert forall|i: int| 0 <= i < table.len() implies objects[i]
                            == table[i] by {
                            assert(grown[i] == table[i]);
                        }
                    },
                }
            },
        }
    }
}

/// A pack that decodes gives as many objects as its header announces, in
/// the order of the stream: their offsets rise from the end of the pack's
/// header on, each has the identity of its kind and content, and each that
/// was built from a base was built from an object before it.
pub proof fn lemma_decoded_pack(pack: Seq<u8>)
    requires
        pack.len() <= usize::MAX,
    ensures
        decoded_pack(pack) matches Ok(objects) ==> {
            &&& entry_count(pack) == Ok::<u32, PackError>(objects.len() as u32)
            &&& ordered(objects)
            &&& identified(objects)
            &&& based_before(objects)
            &&& forall|i: int|
                0 <= i < objects.len() ==> PACK_HEADER_LEN <= (#[trigger] objects[i]).offset
                    < pack.len()
        },
{
    match entry_count(pack) {
        Err(e) => {},
        Ok(count) => {
            lemma_decoded_entries(pack, PACK_HEADER_LEN as int, count as nat, Seq::empty());
        },
    }
}

/// Reads the header of a pack. Returns the count of entries it announces.
/// The magic word and the version are passed over.
pub fn read_pack_header(pack: &[u8]) -> (r: Result<u32, PackError>)
    ensures
        r == entry_count(pack@),
{
    if pack.len() < PACK_HEADER_LEN {
        return Err(PackError::TruncatedInput);
    }
    let b0: u32 = pack[8] as u32;
    let b1: u32 = pack[9] as u32;
    let b2: u32 = pack[10] as u32;
    let b3: u32 = pack[11] as u32;
    Ok(b0 * 0x1000000 + b1 * 0x10000 + b2 * 0x100 + b3)
}

/// Reads the header of the entry that starts at `pos`.
pub fn read_entry_header(pack: &[u8], pos: usize) -> (r: Result<EntryHeader, PackError>)
    ensures
        r == entry_at(pack@, pos as int),
        r matches Ok(header) ==> 1 <= header.len && pos + header.len <= pack.len(),
{
    let (n, tag, size) = match pack_item(pack, pos) {
        Ok(item) => item,
        Err(e) => {
            return Err(e);
        },
    };
    if tag == 6 {
        match delta_offset(pack, pos + n) {
            Ok((m, distance)) => Ok(
                EntryHeader {
                    kind: EntryKind::OfsDelta { distance },
                    declared_size: size,
                    len: n + m,
                },
            ),
            Err(e) => Err(e),
        }
    } else if tag == 7 {
        if pack.len() - pos - n < HASH_LEN {
            Err(PackError::TruncatedInput)
        } else {
            Ok(
                EntryHeader {
                    kind: EntryKind::RefDelta { base_at: pos + n },
                    declared_size: size,
                    len: n + HASH_LEN,
                },
            )
        }
    } else {
        match ObjectKind::from_tag(tag) {
            Some(kind) => Ok(
                EntryHeader { kind: EntryKind::Full { kind }, declared_size: size, len: n },
            ),
            None => Err(PackError::UnknownTypeTag),
        }
    }
}

/// Finds in `table` the base of an entry of kind `kind` that starts at
/// `entry_offset`. A whole object has none. The base of an offset delta is
/// the object whose entry starts `distance` bytes before; the base of a
/// reference delta is the first object with the hash that the entry names.
/// A base that the table does not hold is an error.
pub fn resolve_base(table: &PackTable, pack: &[u8], entry_offset: usize, kind: EntryKind) -> (r:
    Result<Option<usize>, PackError>)
    requires
        table.wf(),
    ensures
        match r {
            Ok(Some(i)) => base_of(table@, pack@, entry_offset as int, kind) == Ok::<
                Option<int>,
                PackError,
            >(Some(i as int)) && i < table@.len(),
            Ok(None) => base_of(table@, pack@, entry_offset as int, kind) == Ok::<
                Option<int>,
                PackError,
            >(None),
            Err(e) => base_of(table@, pack@, entry_offset as int, kind) == Err::<
                Option<int>,
                PackError,
            >(e),
        },
{
    match kind {
        EntryKind::Full { kind } => Ok(None),
        EntryKind::OfsDelta { distance } => {
            if distance > entry_offset as u128 {
                proof {
                    crate::table::lemma_offset_index_none(table@, 0, entry_offset - distance);
                }
                return Err(PackError::UnresolvedBaseReference);
            }
            let base_offset: usize = entry_offset - distance as usize;
            match table.find_offset(base_offset) {
                Some(i) => Ok(Some(i)),
                None => Err(PackError::UnresolvedBaseReference),
            }
        },
        EntryKind::RefDelta { base_at } => {
            if base_at > pack.len() || pack.len() - base_at < HASH_LEN {
                return Err(PackError::TruncatedInput);
            }
            match table.find_hash(&pack[base_at..base_at + HASH_LEN]) {
                Some(i) => Ok(Some(i)),
                None => Err(PackError::UnresolvedBaseReference),
            }
        },
    }
}

/// Gives an entry of kind `kind` its kind and content from its inflated
/// payload. A whole object is its payload; a delta is replayed against the
/// content of `base` and takes over the base's kind.
pub fn rebuild(kind: EntryKind, base: Option<&PackObject>, payload: Vec<u8>) -> (r: Result<
    (ObjectKind, Vec<u8>),
    PackError,
>)
    ensures
        match r {
            Ok((kind_out, data)) => rebuilt(
                kind,
                match base {
                    Some(object) => Some(object@),
                    None => None,
                },
                payload@,
            ) == Ok::<(ObjectKind, Seq<u8>), PackError>((kind_out, data@)),
            Err(e) => rebuilt(
                kind,
                match base {
                    Some(object) => Some(object@),
                    None => None,
                },
                payload@,
            ) == Err::<(ObjectKind, Seq<u8>), PackError>(e),
        },
{
    match kind {
        EntryKind::Full { kind } => Ok((kind, payload)),
        _ => match base {
            None => Err(PackError::UnresolvedBaseReference),
            Some(object) => match dedelta_buf(payload.as_slice(), object.data.as_slice()) {
                Ok(target) => Ok((object.kind, target)),
                Err(e) => Err(e),
            },
        },
    }
}

/// Decodes the entry that starts at `pos`, given the objects of the entries
/// before it. Returns the object and the position of the next entry.
pub fn decode_entry(table: &PackTable, pack: &[u8], pos: usize) -> (r: Result<
    (PackObject, usize),
    PackError,
>)
    requires
        table.wf(),
    ensures
        match r {
            Ok((object, next)) => decoded_entry(pack@, pos as int, table@) == Ok::<
                (Decoded, int),
                PackError,
            >((object@, next as int)) && pos < next <= pack.len() && object.offset == pos,
            Err(e) => decoded_entry(pack@, pos as int, table@) == Err::<(Decoded, int), PackError>(
                e,
            ),
        },
{
    let header: EntryHeader = match read_entry_header(pack, pos) {
        Ok(header) => header,
        Err(e) => {
            return Err(e);
        },
    };
    let base: Option<usize> = match resolve_base(table, pack, pos, header.kind) {
        Ok(base) => base,
        Err(e) => {
            return Err(e);
        },
    };
    let start: usize = pos + header.len;
    let (payload, used) = match inflate(&pack[start..pack.len()]) {
        Some(outcome) => outcome,
        None => {
            return Err(PackError::DecompressionFailure);
        },
    };
    if used > (pack.len() - start) as u64 {
        return Err(PackError::DecompressionFailure);
    }
    let inflated_size: usize = payload.len();
    let base_object: Option<&PackObject> = match base {
        Some(i) => Some(table.get(i)),
        None => None,
    };
    let (kind, data) = match rebuild(header.kind, base_object, payload) {
        Ok(object) => object,
        Err(e) => {
            return Err(e);
        },
    };
    let framed = frame_object(kind, data.as_slice());
    let hash: [u8; 20] = sha1(framed.as_slice());
    let object = PackObject {
        offset: pos,
        kind,
        hash,
        data,
        declared_size: header.declared_size,
        inflated_size,
        packed_size: header.len + used as usize,
        base,
    };
    Ok((object, start + used as usize))
}

/// Decodes a pack into the table of its objects.
///
/// The count in the pack's header says how many entries are decoded; what
/// follows the last of them, such as the pack's checksum, is not looked at.
/// The first entry that cannot be decoded ends the pass with its error.
pub fn parse_pack(pack_data: &[u8]) -> (r: Result<PackTable, PackFailure>)
    ensures
        match r {
            Ok(table) => decoded_pack(pack_data@) == Ok::<Seq<Decoded>, PackFailure>(table@)
                && table.wf(),
            Err(failure) => decoded_pack(pack_data@) == Err::<Seq<Decoded>, PackFailure>(failure),
        },
        r matches Ok(table) ==> entry_count(pack_data@) == Ok::<u32, PackError>(
            table@.len() as u32,
        ) && identified(table@) && based_before(table@),
{
    proof {
        assert(pack_data@.len() == pack_data.len());
        lemma_decoded_pack(pack_data@);
    }
    let count: u32 = match read_pack_header(pack_data) {
        Ok(count) => count,
        Err(e) => {
            return Err(PackFailure { offset: 0, error: e });
        },
    };
    let mut table = PackTable::new();
    let mut pos: usize = PACK_HEADER_LEN;
    let mut left: u32 = count;
    while left > 0
        invariant
            table.wf(),
            pos <= pack_data.len(),
            forall|i: int| 0 <= i < table@.len() ==> table@[i].offset < pos,
            decoded_pack(pack_data@) == decoded_entries(
                pack_data@,
                pos as int,
                left as nat,
                table@,
            ),
        decreases left,
    {
        match decode_entry(&table, pack_data, pos) {
            Err(e) => {
                return Err(PackFailure { offset: pos, error: e });
            },
            Ok((object, next)) => {
                let recorded: bool = table.insert(object);
                assert(recorded);
                pos = next;
                left = left - 1;
            },
        }
    }
    Ok(table)
}

/// What a clone gives for the advertised head `head` and the answer
/// `response` to the request for it: the head and the objects of the pack
/// that the answer carries. An error of the answer's framing is reported at
/// offset zero.
pub open spec fn cloned(head: Seq<u8>, response: Seq<u8>) -> Result<
    (Seq<u8>, Seq<Decoded>),
    PackFailure,
> {
    match pack_of_response(response) {
        Err(e) => Err(PackFailure { offset: 0, error: e }),
        Ok(pack) => match decoded_pack(pack) {
            Err(failure) => Err(failure),
            Ok(objects) => Ok((head, objects)),
        },
    }
}

/// Finishes a clone: takes the pack out of the answer `response` to the
/// request for the advertised head `head`, decodes it, and returns the head
/// with the table of the pack's objects.
pub fn clone(head: Vec<u8>, response: &[u8]) -> (r: Result<(Vec<u8>, PackTable), PackFailure>)
    ensures
        match r {
            Ok((head_out, table)) => cloned(head@, response@) == Ok::<
                (Seq<u8>, Seq<Decoded>),
                PackFailure,
            >((head_out@, table@)) && table.wf(),
            Err(failure) => cloned(head@, response@) == Err::<
                (Seq<u8>, Seq<Decoded>),
                PackFailure,
            >(failure),
        },
{
    let pack: Vec<u8> = match extract_pack(response) {
        Ok(pack) => pack,
        Err(e) => {
            return Err(PackFailure { offset: 0, error: e });
        },
    };
    match parse_pack(pack.as_slice()) {
        Ok(table) => Ok((head, table)),
        Err(failure) => Err(failure),
    }
}

} // verus!
