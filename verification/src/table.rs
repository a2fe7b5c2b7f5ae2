//! The table of the objects decoded from a pack so far.
//!
//! Objects are kept in the order of their entries in the pack, so their
//! offsets rise. An object is found by the offset of its entry or by its
//! hash; both lookups read the same entries.

use crate::object::{bytes_equal, ObjectKind};
use vstd::prelude::*;

verus! {

/// An object decoded from a pack.
#[derive(Clone, Debug, PartialEq, Eq)]
pub struct PackObject {
    /// Where the object's entry starts in the pack.
    pub offset: usize,
    /// The object's kind: for a delta, the kind of its base.
    pub kind: ObjectKind,
    /// The object's identity.
    pub hash: [u8; 20],
    /// The object's content: for a delta, the rebuilt target.
    pub data: Vec<u8>,
    /// The size that the entry's header declares for its payload.
    pub declared_size: u128,
    /// The length that the entry's payload has once inflated.
    pub inflated_size: usize,
    /// The count of bytes that the entry takes in the pack, header and
    /// compressed payload together.
    pub packed_size: usize,
    /// For a delta, the index in the table of the object it was built from.
    pub base: Option<usize>,
}

/// What a `PackObject` holds, as plain values.
pub struct Decoded {
    pub offset: nat,
    pub kind: ObjectKind,
    pub hash: Seq<u8>,
    pub data: Seq<u8>,
    pub declared_size: nat,
    pub inflated_size: nat,
    pub packed_size: nat,
    pub base: Option<int>,
}

impl View for PackObject {
    type V = Decoded;

    open spec fn view(&self) -> Decoded {
        Decoded {
            offset: self.offset as nat,
            kind: self.kind,
            hash: self.hash@,
            data: self.data@,
            declared_size: self.declared_size as nat,
            inflated_size: self.inflated_size as nat,
            packed_size: self.packed_size as nat,
            base: match self.base {
                Some(i) => Some(i as int),
                None => None,
            },
        }
    }
}

impl PackObject {
    /// Whether the entry's payload has the size that its header declares.
    pub fn size_matches(&self) -> (same: bool)
        ensures
            same == (self@.declared_size == self@.inflated_size),
    {
        self.declared_size == self.inflated_size as u128
    }
}

/// Whether the offsets of `objects` rise from each to the next.
pub open spec fn ordered(objects: Seq<Decoded>) -> bool {
    forall|i: int, j: int| 0 <= i < j < objects.len() ==> objects[i].offset < objects[j].offset
}

/// The index of the first of `objects`, from `from` on, whose entry starts
/// at `offset`.
pub open spec fn offset_index(objects: Seq<Decoded>, from: int, offset: int) -> Option<int>
    decreases objects.len() - from,
{
    if from < 0 || from >= objects.len() {
        None
    } else if objects[from].offset == offset {
        Some(from)
    } else {
        offset_index(objects, from + 1, offset)
    }
}

/// The index of the first of `objects`, from `from` on, whose hash is
/// `hash`.
pub open spec fn hash_index(objects: Seq<Decoded>, from: int, hash: Seq<u8>) -> Option<int>
    decreases objects.len() - from,
{
    if from < 0 || from >= objects.len() {
        None
    } else if objects[from].hash == hash {
        Some(from)
    } else {
        hash_index(objects, from + 1, hash)
    }
}

/// An object is found at an offset exactly when the table holds one whose
/// entry starts there, and the object found is such a one.
pub proof fn lemma_offset_index(objects: Seq<Decoded>, from: int, offset: int)
    requires
        0 <= from,
    ensures
        match offset_index(objects, from, offset) {
            Some(i) => from <= i < objects.len() && objects[i].offset == offset,
            None => forall|j: int| from <= j < objects.len() ==> objects[j].offset != offset,
        },
    decreases objects.len() - from,
{
    if from < objects.len() && objects[from].offset != offset {
        lemma_offset_index(objects, from + 1, offset);
    }
}

/// An object is found by a hash exactly when the table holds one with that
/// hash, and the object found is the first such.
pub proof fn lemma_hash_index(objects: Seq<Decoded>, from: int, hash: Seq<u8>)
    requires
        0 <= from,
    ensures
        match hash_index(objects, from, hash) {
            Some(i) => from <= i < objects.len() && objects[i].hash == hash && forall|j: int|
                from <= j < i ==> objects[j].hash != hash,
            None => forall|j: int| from <= j < objects.len() ==> objects[j].hash != hash,
        },
    decreases objects.len() - from,
{
    if from < objects.len() && objects[from].hash != hash {
        lemma_hash_index(objects, from + 1, hash);
    }
}

/// The first object at an offset is at `at` when `at` holds it and nothing
/// between `from` and `at` does.
pub proof fn lemma_offset_index_at(objects: Seq<Decoded>, from: int, at: int, offset: int)
    requires
        0 <= from <= at < objects.len(),
        objects[at].offset == offset,
        forall|j: int| from <= j < at ==> objects[j].offset != offset,
    ensures
        offset_index(objects, from, offset) == Some(at),
    decreases at - from,
{
    if from < at {
        lemma_offset_index_at(objects, from + 1, at, offset);
    }
}

/// No object is found at an offset that none from `from` on has.
pub proof fn lemma_offset_index_none(objects: Seq<Decoded>, from: int, offset: int)
    requires
        0 <= from,
        forall|j: int| from <= j < objects.len() ==> objects[j].offset != offset,
    ensures
        offset_index(objects, from, offset) is None,
    decreases objects.len() - from,
{
    if from < objects.len() {
        lemma_offset_index_none(objects, from + 1, offset);
    }
}

/// The objects decoded from a pack so far, in the order of their entries.
#[derive(Debug)]
pub struct PackTable {
    entries: Vec<PackObject>,
}

impl View for PackTable {
    type V = Seq<Decoded>;

    closed spec fn view(&self) -> Seq<Decoded> {
        Seq::new(self.entries@.len(), |i: int| self.entries@[i]@)
    }
}

impl PackTable {
    /// Whether the table is well formed: the offsets of its objects rise.
    pub open spec fn wf(&self) -> bool {
        ordered(self@)
    }

    /// An empty table.
    pub fn new() -> (table: PackTable)
        ensures
            table@ == Seq::<Decoded>::empty(),
            table.wf(),
    {
        PackTable { entries: Vec::new() }
    }

    /// The count of objects in the table.
    pub fn len(&self) -> (n: usize)
        ensures
            n == self@.len(),
    {
        self.entries.len()
    }

    /// The object at index `i`.
    pub fn get(&self, i: usize) -> (object: &PackObject)
        requires
            i < self@.len(),
        ensures
            object@ == self@[i as int],
    {
        &self.entries[i]
    }

    /// Records `object` after the objects that the table holds, if its entry
    /// starts after theirs. Returns whether it was recorded; the table is
    /// unchanged when it was not.
    pub fn insert(&mut self, object: PackObject) -> (recorded: bool)
        requires
            old(self).wf(),
        ensures
            final(self).wf(),
            recorded == (old(self)@.len() == 0 || old(self)@.last().offset < object@.offset),
            recorded ==> final(self)@ == old(self)@.push(object@),
            !recorded ==> final(self)@ == old(self)@,
    {
        let n: usize = self.entries.len();
        if n > 0 && self.entries[n - 1].offset >= object.offset {
            return false;
        }
        let ghost before = self@;
        self.entries.push(object);
        assert(self@ =~= before.push(object@));
        true
    }

    /// Finds the object whose entry starts at `offset`.
    pub fn find_offset(&self, offset: usize) -> (found: Option<usize>)
        requires
            self.wf(),
        ensures
            match found {
                Some(i) => offset_index(self@, 0, offset as int) == Some(i as int) && i
                    < self@.len(),
                None => offset_index(self@, 0, offset as int) is None,
            },
    {
        let mut low: usize = 0;
        let mut high: usize = self.entries.len();
        while low < high
            invariant
                low <= high <= self@.len(),
                self@.len() == self.entries@.len(),
                self.wf(),
                forall|j: int| 0 <= j < low ==> self@[j].offset < offset,
                forall|j: int| high <= j < self@.len() ==> self@[j].offset > offset,
            decreases high - low,
        {
            let mid: usize = low + (high - low) / 2;
            let at: usize = self.entries[mid].offset;
            assert(self@[mid as int].offset == at);
            if at == offset {
                proof {
                    lemma_offset_index_at(self@, 0, mid as int, offset as int);
                }
                return Some(mid);
            } else if at < offset {
                low = mid + 1;
            } else {
                high = mid;
            }
        }
        proof {
            lemma_offset_index_none(self@, 0, offset as int);
        }
        None
    }

    /// Finds the first object whose hash is `hash`.
    pub fn find_hash(&self, hash: &[u8]) -> (found: Option<usize>)
        ensures
            match found {
                Some(i) => hash_index(self@, 0, hash@) == Some(i as int) && i < self@.len(),
                None => hash_index(self@, 0, hash@) is None,
            },
    {
        let mut i: usize = 0;
        while i < self.entries.len()
            invariant
                i <= self@.len(),
                self@.len() == self.entries@.len(),
                hash_index(self@, 0, hash@) == hash_index(self@, i as int, hash@),
            decreases self.entries.len() - i,
        {
            assert(self@[i as int].hash == self.entries@[i as int].hash@);
            if bytes_equal(self.entries[i].hash.as_slice(), hash) {
                return Some(i);
            }
            i = i + 1;
        }
        None
    }
}

} // verus!
