//! Tree objects.
//!
//! The content of a tree is the concatenation of its entries in the order
//! of their names, byte by byte. An entry is written as its mode, a space,
//! its name, a zero byte and the twenty bytes of the hash it points to.

use crate::error::PackError;
use crate::object::{
    find_byte, first_index, hash_object, lemma_first_index_at, lemma_first_index_bounds,
    object_id, ObjectKind,
};
use vstd::prelude::*;
use vstd::string::StringSliceAdditionalSpecFns;

verus! {

/// An entry of a tree.
#[derive(Clone, Debug, PartialEq, Eq)]
pub struct TreeEntry {
    /// The mode, in the ASCII digits of its octal form.
    pub mode: Vec<u8>,
    /// The name.
    pub name: Vec<u8>,
    /// The hash of the object that the entry points to.
    pub hash: [u8; 20],
}

/// What a `TreeEntry` holds, as plain values.
pub struct TreeEntryView {
    pub mode: Seq<u8>,
    pub name: Seq<u8>,
    pub hash: Seq<u8>,
}

impl View for TreeEntry {
    type V = TreeEntryView;

    open spec fn view(&self) -> TreeEntryView {
        TreeEntryView { mode: self.mode@, name: self.name@, hash: self.hash@ }
    }
}

/// The entries of a vector as plain values.
pub open spec fn views(entries: Seq<TreeEntry>) -> Seq<TreeEntryView> {
    Seq::new(entries.len(), |i: int| entries[i]@)
}

/// Whether `a` comes before `b`, or is `b`, in the order of byte strings:
/// the first byte that differs decides, and a string comes before those
/// that it starts.
pub open spec fn lex_le(a: Seq<u8>, b: Seq<u8>) -> bool
    decreases a.len(),
{
    if a.len() == 0 {
        true
    } else if b.len() == 0 {
        false
    } else if a[0] != b[0] {
        a[0] < b[0]
    } else {
        lex_le(a.drop_first(), b.drop_first())
    }
}

/// Whether the names of `entries` rise, or stay, from each to the next.
pub open spec fn sorted(entries: Seq<TreeEntryView>) -> bool {
    forall|i: int, j: int| 0 <= i < j < entries.len() ==> lex_le(entries[i].name, entries[j].name)
}

/// Whether no two of `entries` have the same name.
pub open spec fn names_distinct(entries: Seq<TreeEntryView>) -> bool {
    forall|i: int, j: int| 0 <= i < j < entries.len() ==> entries[i].name != entries[j].name
}

/// Where an entry named `name` goes among `entries`: after the last entry
/// whose name does not come after `name`.
pub open spec fn insert_position(entries: Seq<TreeEntryView>, name: Seq<u8>) -> int
    decreases entries.len(),
{
    if entries.len() == 0 {
        0
    } else if lex_le(entries.last().name, name) {
        entries.len() as int
    } else {
        insert_position(entries.drop_last(), name)
    }
}

/// `entries` in the order of their names; entries of one name keep the
/// order they came in.
pub open spec fn sorted_by_name(entries: Seq<TreeEntryView>) -> Seq<TreeEntryView>
    decreases entries.len(),
{
    if entries.len() == 0 {
        Seq::empty()
    } else {
        let before = sorted_by_name(entries.drop_last());
        before.insert(insert_position(before, entries.last().name), entries.last())
    }
}

/// An entry as it is written in a tree: mode, space, name, zero byte, hash.
pub open spec fn entry_bytes(entry: TreeEntryView) -> Seq<u8> {
    entry.mode + seq![32u8] + entry.name + seq![0u8] + entry.hash
}

/// The entries written one after the other, in the order given.
pub open spec fn entries_bytes(entries: Seq<TreeEntryView>) -> Seq<u8>
    decreases entries.len(),
{
    if entries.len() == 0 {
        Seq::empty()
    } else {
        entries_bytes(entries.drop_last()) + entry_bytes(entries.last())
    }
}

/// The content of the tree that holds `entries`.
pub open spec fn tree_content(entries: Seq<TreeEntryView>) -> Seq<u8> {
    entries_bytes(sorted_by_name(entries))
}

/// The mode of a file: `100755` when it may be executed, else `100644`.
pub open spec fn file_mode(executable: bool) -> Seq<u8> {
    if executable {
        "100755".spec_bytes()
    } else {
        "100644".spec_bytes()
    }
}

/// Whether the permission bits `permissions` let the owner, the group or
/// anyone else execute the file.
pub open spec fn may_execute(permissions: u32) -> bool {
    permissions & 0o111 != 0
}

/// The mode of a directory.
pub open spec fn directory_mode() -> Seq<u8> {
    "40000".spec_bytes()
}

/// Whether `prefix` stands at the start of `data`.
pub open spec fn starts_with(data: Seq<u8>, prefix: Seq<u8>) -> bool {
    prefix.len() <= data.len() && data.subrange(0, prefix.len() as int) == prefix
}

/// The kind of object that an entry of mode `mode` points to: a tree when
/// the mode starts as that of a directory, else a blob.
pub open spec fn kind_of_mode(mode: Seq<u8>) -> ObjectKind {
    if starts_with(mode, directory_mode()) {
        ObjectKind::Tree
    } else {
        ObjectKind::Blob
    }
}

/// `head` before what `rest` holds, or the error of `rest`.
pub open spec fn prepend(head: Seq<TreeEntryView>, rest: Result<Seq<TreeEntryView>, PackError>)
    -> Result<Seq<TreeEntryView>, PackError> {
    match rest {
        Ok(entries) => Ok(head + entries),
        Err(e) => Err(e),
    }
}

/// The entries written in `content` from `pos` on. Each is a mode, a space,
/// a name, a zero byte and twenty bytes of hash; the mode ends at the first
/// space, the name at the first zero byte.
pub open spec fn parsed_entries(content: Seq<u8>, pos: int) -> Result<
    Seq<TreeEntryView>,
    PackError,
>
    decreases content.len() - pos,
{
    if pos < 0 || pos >= content.len() {
        Ok(Seq::empty())
    } else {
        match first_index(content, pos, 0) {
            None => Err(PackError::TruncatedInput),
            Some(nul) => match first_index(content.subrange(pos, nul), 0, 32) {
                None => Err(PackError::MalformedHeader),
                Some(space) => if nul + 1 + 20 > content.len() {
                    Err(PackError::TruncatedInput)
                } else {
                    proof {
                        lemma_first_index_bounds(content, pos, 0);
                    }
                    prepend(
                        seq![
                            TreeEntryView {
                                mode: content.subrange(pos, pos + space),
                                name: content.subrange(pos + space + 1, nul),
                                hash: content.subrange(nul + 1, nul + 21),
                            },
                        ],
                        parsed_entries(content, nul + 21),
                    )
                },
            },
        }
    }
}

/// Every name comes before itself or is itself.
pub proof fn lemma_lex_le_reflexive(a: Seq<u8>)
    ensures
        lex_le(a, a),
    decreases a.len(),
{
    if a.len() > 0 {
        lemma_lex_le_reflexive(a.drop_first());
    }
}

/// Of two names, one comes before the other or is the same.
pub proof fn lemma_lex_le_total(a: Seq<u8>, b: Seq<u8>)
    ensures
        lex_le(a, b) || lex_le(b, a),
    decreases a.len(),
{
    if a.len() > 0 && b.len() > 0 && a[0] == b[0] {
        lemma_lex_le_total(a.drop_first(), b.drop_first());
    }
}

/// Two names that each come before the other, or are the same, are the
/// same.
pub proof fn lemma_lex_le_antisymmetric(a: Seq<u8>, b: Seq<u8>)
    requires
        lex_le(a, b),
        lex_le(b, a),
    ensures
        a == b,
    decreases a.len(),
{
    if a.len() > 0 && b.len() > 0 {
        lemma_lex_le_antisymmetric(a.drop_first(), b.drop_first());
        assert(a =~= seq![a[0]] + a.drop_first());
        assert(b =~= seq![b[0]] + b.drop_first());
    } else {
        assert(a =~= b);
    }
}

/// The order of names is transitive.
pub proof fn lemma_lex_le_transitive(a: Seq<u8>, b: Seq<u8>, c: Seq<u8>)
    requires
        lex_le(a, b),
        lex_le(b, c),
    ensures
        lex_le(a, c),
    decreases a.len(),
{
    if a.len() > 0 && b.len() > 0 && c.len() > 0 && a[0] == b[0] && b[0] == c[0] {
        lemma_lex_le_transitive(a.drop_first(), b.drop_first(), c.drop_first());
    }
}

/// The insert position is inside the sequence or at its end; the names from
/// it on come after `name`, and the name before it does not.
proof fn lemma_insert_position(entries: Seq<TreeEntryView>, name: Seq<u8>)
    ensures
        0 <= insert_position(entries, name) <= entries.len(),
        forall|j: int|
            insert_position(entries, name) <= j < entries.len() ==> !lex_le(
                #[trigger] entries[j].name,
                name,
            ),
        insert_position(entries, name) > 0 ==> lex_le(
            entries[insert_position(entries, name) - 1].name,
            name,
        ),
    decreases entries.len(),
{
    if entries.len() > 0 && !lex_le(entries.last().name, name) {
        let shorter = entries.drop_last();
        lemma_insert_position(shorter, name);
        let p = insert_position(shorter, name);
        assert forall|j: int| p <= j < entries.len() implies !lex_le(
            #[trigger] entries[j].name,
            name,
        ) by {
            if j < shorter.len() {
                assert(entries[j] == shorter[j]);
            }
        }
        if p > 0 {
            assert(entries[p - 1] == shorter[p - 1]);
        }
    }
}

/// Putting an entry at its insert position keeps a sorted sequence sorted.
proof fn lemma_insert_keeps_sorted(entries: Seq<TreeEntryView>, entry: TreeEntryView)
    requires
        sorted(entries),
    ensures
        sorted(entries.insert(insert_position(entries, entry.name), entry)),
{
    let p = insert_position(entries, entry.name);
    lemma_insert_position(entries, entry.name);
    let grown = entries.insert(p, entry);
    assert forall|i: int, j: int| 0 <= i < j < grown.len() implies lex_le(
        grown[i].name,
        grown[j].name,
    ) by {
        if j < p {
            assert(grown[i] == entries[i] && grown[j] == entries[j]);
        } else if j == p {
            assert(grown[i] == entries[i]);
            assert(grown[j] == entry);
            if i < p - 1 {
                lemma_lex_le_transitive(entries[i].name, entries[p - 1].name, entry.name);
            }
        } else if i == p {
            assert(grown[j] == entries[j - 1]);
            assert(!lex_le(entries[j - 1].name, entry.name));
            lemma_lex_le_total(entry.name, entries[j - 1].name);
        } else if i < p {
            assert(grown[i] == entries[i] && grown[j] == entries[j - 1]);
        } else {
            assert(grown[i] == entries[i - 1] && grown[j] == entries[j - 1]);
        }
    }
}

/// What sorting gives is sorted.
pub proof fn lemma_sorted_by_name_is_sorted(entries: Seq<TreeEntryView>)
    ensures
        sorted(sorted_by_name(entries)),
    decreases entries.len(),
{
    if entries.len() > 0 {
        lemma_sorted_by_name_is_sorted(entries.drop_last());
        lemma_insert_keeps_sorted(sorted_by_name(entries.drop_last()), entries.last());
    }
}

/// Sorting neither adds nor drops an entry.
pub proof fn lemma_sorted_by_name_keeps_entries(entries: Seq<TreeEntryView>)
    ensures
        sorted_by_name(entries).len() == entries.len(),
        forall|x: TreeEntryView| sorted_by_name(entries).contains(x) <==> entries.contains(x),
    decreases entries.len(),
{
    if entries.len() > 0 {
        let shorter = entries.drop_last();
        let last = entries.last();
        let before = sorted_by_name(shorter);
        let p = insert_position(before, last.name);
        lemma_sorted_by_name_keeps_entries(shorter);
        lemma_insert_position(before, last.name);
        let after = before.insert(p, last);
        assert forall|x: TreeEntryView| after.contains(x) <==> entries.contains(x) by {
            if after.contains(x) {
                let i = choose|i: int| 0 <= i < after.len() && after[i] == x;
                if i < p {
                    assert(before[i] == x);
                    assert(before.contains(x));
                } else if i > p {
                    assert(before[i - 1] == x);
                    assert(before.contains(x));
                }
                if before.contains(x) {
                    assert(shorter.contains(x));
                    let k = choose|k: int| 0 <= k < shorter.len() && shorter[k] == x;
                    assert(entries[k] == x);
                } else {
                    assert(entries[entries.len() - 1] == x);
                }
            }
            if entries.contains(x) {
                let k = choose|k: int| 0 <= k < entries.len() && entries[k] == x;
                if k < shorter.len() {
                    assert(shorter[k] == x);
                    assert(shorter.contains(x));
                    let i = choose|i: int| 0 <= i < before.len() && before[i] == x;
                    if i < p {
                        assert(after[i] == x);
                    } else {
                        assert(after[i + 1] == x);
                    }
                } else {
                    assert(after[p] == x);
                }
            }
        }
    }
}

/// Sorting entries of distinct names gives entries of distinct names.
proof fn lemma_sorted_by_name_keeps_distinct(entries: Seq<TreeEntryView>)
    requires
        names_distinct(entries),
    ensures
        names_distinct(sorted_by_name(entries)),
    decreases entries.len(),
{
    if entries.len() > 0 {
        let shorter = entries.drop_last();
        let last = entries.last();
        let before = sorted_by_name(shorter);
        let p = insert_position(before, last.name);
        assert(names_distinct(shorter)) by {
            assert forall|i: int, j: int| 0 <= i < j < shorter.len() implies shorter[i].name
                != shorter[j].name by {
                assert(shorter[i] == entries[i] && shorter[j] == entries[j]);
            }
        }
        lemma_sorted_by_name_keeps_distinct(shorter);
        lemma_sorted_by_name_keeps_entries(shorter);
        lemma_insert_position(before, last.name);
        let after = before.insert(p, last);
        assert forall|i: int| 0 <= i < before.len() implies before[i].name != last.name by {
            assert(before.contains(before[i]));
            assert(shorter.contains(before[i]));
            let k = choose|k: int| 0 <= k < shorter.len() && shorter[k] == before[i];
            assert(entries[k] == before[i]);
        }
        assert forall|i: int, j: int| 0 <= i < j < after.len() implies after[i].name
            != after[j].name by {
            let a = if i < p {
                i
            } else {
                i - 1
            };
            let b = if j < p {
                j
            } else {
                j - 1
            };
            if i != p {
                assert(after[i] == before[a]);
            }
            if j != p {
                assert(after[j] == before[b]);
            }
        }
    }
}

/// Two sorted sequences of distinct names that hold the same entries are
/// the same sequence.
proof fn lemma_sorted_unique(a: Seq<TreeEntryView>, b: Seq<TreeEntryView>)
    requires
        sorted(a),
        sorted(b),
        names_distinct(a),
        names_distinct(b),
        forall|x: TreeEntryView| a.contains(x) <==> b.contains(x),
    ensures
        a == b,
    decreases a.len(),
{
    if a.len() == 0 {
        if b.len() > 0 {
            assert(b.contains(b[0]));
        }
        assert(a =~= b);
    } else {
        assert(a.contains(a[0]));
        let k = choose|k: int| 0 <= k < b.len() && b[k] == a[0];
        assert(b.contains(b[0]));
        let m = choose|m: int| 0 <= m < a.len() && a[m] == b[0];
        lemma_lex_le_reflexive(a[0].name);
        lemma_lex_le_reflexive(b[0].name);
        assert(lex_le(a[0].name, a[m].name));
        assert(lex_le(b[0].name, b[k].name));
        lemma_lex_le_antisymmetric(a[0].name, b[0].name);
        assert(m == 0);
        let a_rest = a.drop_first();
        let b_rest = b.drop_first();
        assert forall|x: TreeEntryView| a_rest.contains(x) <==> b_rest.contains(x) by {
            if a_rest.contains(x) {
                let i = choose|i: int| 0 <= i < a_rest.len() && a_rest[i] == x;
                assert(a[i + 1] == x);
                assert(a.contains(x));
                let j = choose|j: int| 0 <= j < b.len() && b[j] == x;
                assert(j != 0);
                assert(b_rest[j - 1] == x);
            }
            if b_rest.contains(x) {
                let i = choose|i: int| 0 <= i < b_rest.len() && b_rest[i] == x;
                assert(b[i + 1] == x);
                assert(b.contains(x));
                let j = choose|j: int| 0 <= j < a.len() && a[j] == x;
                assert(j != 0);
                assert(a_rest[j - 1] == x);
            }
        }
        assert(sorted(a_rest)) by {
            assert forall|i: int, j: int| 0 <= i < j < a_rest.len() implies lex_le(
                a_rest[i].name,
                a_rest[j].name,
            ) by {
                assert(a_rest[i] == a[i + 1] && a_rest[j] == a[j + 1]);
            }
        }
        assert(sorted(b_rest)) by {
            assert forall|i: int, j: int| 0 <= i < j < b_rest.len() implies lex_le(
                b_rest[i].name,
                b_rest[j].name,
            ) by {
                assert(b_rest[i] == b[i + 1] && b_rest[j] == b[j + 1]);
            }
        }
        assert(names_distinct(a_rest)) by {
            assert forall|i: int, j: int| 0 <= i < j < a_rest.len() implies a_rest[i].name
                != a_rest[j].name by {
                assert(a_rest[i] == a[i + 1] && a_rest[j] == a[j + 1]);
            }
        }
        assert(names_distinct(b_rest)) by {
            assert forall|i: int, j: int| 0 <= i < j < b_rest.len() implies b_rest[i].name
                != b_rest[j].name by {
                assert(b_rest[i] == b[i + 1] && b_rest[j] == b[j + 1]);
            }
        }
        lemma_sorted_unique(a_rest, b_rest);
        assert(a =~= seq![a[0]] + a_rest);
        assert(b =~= seq![b[0]] + b_rest);
    }
}

/// Sorting entries that are sorted changes nothing.
pub proof fn lemma_sorting_sorted_is_noop(entries: Seq<TreeEntryView>)
    requires
        sorted(entries),
    ensures
        sorted_by_name(entries) == entries,
    decreases entries.len(),
{
    if entries.len() > 0 {
        let shorter = entries.drop_last();
        assert(sorted(shorter)) by {
            assert forall|i: int, j: int| 0 <= i < j < shorter.len() implies lex_le(
                shorter[i].name,
                shorter[j].name,
            ) by {
                assert(shorter[i] == entries[i] && shorter[j] == entries[j]);
            }
        }
        lemma_sorting_sorted_is_noop(shorter);
        if shorter.len() > 0 {
            assert(shorter.last() == entries[shorter.len() - 1]);
        }
        assert(insert_position(shorter, entries.last().name) == shorter.len());
        assert(shorter.insert(shorter.len() as int, entries.last()) =~= entries);
    } else {
        assert(entries =~= Seq::<TreeEntryView>::empty());
    }
}

/// Sorting twice gives what sorting once gives.
pub proof fn lemma_sorting_is_idempotent(entries: Seq<TreeEntryView>)
    ensures
        sorted_by_name(sorted_by_name(entries)) == sorted_by_name(entries),
{
    lemma_sorted_by_name_is_sorted(entries);
    lemma_sorting_sorted_is_noop(sorted_by_name(entries));
}

/// Two lists of entries of distinct names that hold the same entries, in
/// whatever order, make the same tree: the same content and the same
/// identity.
pub proof fn lemma_tree_is_canonical(a: Seq<TreeEntryView>, b: Seq<TreeEntryView>)
    requires
        names_distinct(a),
        names_distinct(b),
        forall|x: TreeEntryView| a.contains(x) <==> b.contains(x),
    ensures
        sorted_by_name(a) == sorted_by_name(b),
        tree_content(a) == tree_content(b),
        object_id(ObjectKind::Tree, tree_content(a)) == object_id(
            ObjectKind::Tree,
            tree_content(b),
        ),
{
    lemma_sorted_by_name_is_sorted(a);
    lemma_sorted_by_name_is_sorted(b);
    lemma_sorted_by_name_keeps_distinct(a);
    lemma_sorted_by_name_keeps_distinct(b);
    lemma_sorted_by_name_keeps_entries(a);
    lemma_sorted_by_name_keeps_entries(b);
    assert forall|x: TreeEntryView|
        sorted_by_name(a).contains(x) <==> sorted_by_name(b).contains(x) by {
        assert(sorted_by_name(a).contains(x) <==> a.contains(x));
        assert(sorted_by_name(b).contains(x) <==> b.contains(x));
        assert(a.contains(x) <==> b.contains(x));
    }
    lemma_sorted_unique(sorted_by_name(a), sorted_by_name(b));
}

/// Whether `entry` can be read back from what is written of it: its mode
/// holds no space, neither mode nor name holds a zero byte, and its hash
/// has twenty bytes.
pub open spec fn readable(entry: TreeEntryView) -> bool {
    &&& forall|i: int| 0 <= i < entry.mode.len() ==> entry.mode[i] != 32 && entry.mode[i] != 0
    &&& forall|i: int| 0 <= i < entry.name.len() ==> entry.name[i] != 0
    &&& entry.hash.len() == 20
}

/// What is written of entries is what is written of the first, then what is
/// written of the others.
proof fn lemma_entries_bytes_front(entries: Seq<TreeEntryView>)
    requires
        entries.len() > 0,
    ensures
        entries_bytes(entries) == entry_bytes(entries[0]) + entries_bytes(entries.drop_first()),
    decreases entries.len(),
{
    let rest = entries.drop_first();
    if entries.len() == 1 {
        assert(entries.drop_last().len() == 0);
        assert(rest.len() == 0);
        assert(entries.last() == entries[0]);
        assert(entries_bytes(entries.drop_last()) =~= Seq::<u8>::empty());
        assert(entries_bytes(rest) =~= Seq::<u8>::empty());
        assert(entries_bytes(entries) =~= entry_bytes(entries[0]));
        assert(entry_bytes(entries[0]) + entries_bytes(rest) =~= entry_bytes(entries[0]));
    } else {
        let shorter = entries.drop_last();
        lemma_entries_bytes_front(shorter);
        assert(shorter.drop_first() =~= rest.drop_last());
        assert(shorter[0] == entries[0]);
        assert(rest.last() == entries.last());
        assert((entry_bytes(entries[0]) + entries_bytes(rest.drop_last())) + entry_bytes(
            entries.last(),
        ) =~= entry_bytes(entries[0]) + (entries_bytes(rest.drop_last()) + entry_bytes(
            entries.last(),
        )));
    }
}

/// Where what is written of readable entries ends `content`, reading from
/// there gives the entries.
proof fn lemma_parse_written(content: Seq<u8>, pos: int, entries: Seq<TreeEntryView>)
    requires
        0 <= pos <= content.len(),
        content.subrange(pos, content.len() as int) == entries_bytes(entries),
        forall|i: int| 0 <= i < entries.len() ==> readable(#[trigger] entries[i]),
    ensures
        parsed_entries(content, pos) == Ok::<Seq<TreeEntryView>, PackError>(entries),
    decreases entries.len(),
{
    let tail = content.subrange(pos, content.len() as int);
    if entries.len() == 0 {
        assert(tail.len() == 0);
        assert(entries =~= Seq::<TreeEntryView>::empty());
    } else {
        let entry = entries[0];
        let rest = entries.drop_first();
        let written = entry_bytes(entry);
        lemma_entries_bytes_front(entries);
        assert(readable(entry));
        let space = entry.mode.len() as int;
        let nul = pos + space + 1 + entry.name.len();
        let others = entries_bytes(rest);
        assert(tail == written + others);
        assert(tail.len() == written.len() + others.len());
        assert(written.len() == space + 1 + entry.name.len() + 1 + 20);
        assert forall|j: int| 0 <= j < written.len() implies content[pos + j] == written[j] by {
            assert(tail[j] == content[pos + j]);
            assert((written + others)[j] == written[j]);
        }
        assert forall|j: int| pos <= j < nul implies content[j] != 0 by {
            let k = j - pos;
            assert(content[pos + k] == written[k]);
            if k < space {
                assert(written[k] == entry.mode[k]);
            } else if k > space {
                assert(written[k] == entry.name[k - space - 1]);
            }
        }
        assert(content[nul] == 0) by {
            assert(content[pos + (nul - pos)] == written[nul - pos]);
        }
        lemma_first_index_at(content, pos, nul, 0);
        let header = content.subrange(pos, nul);
        assert forall|j: int| 0 <= j < space implies header[j] != 32 by {
            assert(content[pos + j] == written[j]);
            assert(written[j] == entry.mode[j]);
        }
        assert(header[space] == 32) by {
            assert(content[pos + space] == written[space]);
        }
        lemma_first_index_at(header, 0, space, 32);
        assert(content.subrange(pos, pos + space) =~= entry.mode) by {
            assert forall|j: int| 0 <= j < space implies content[pos + j] == entry.mode[j] by {
                assert(content[pos + j] == written[j]);
            }
        }
        assert(content.subrange(pos + space + 1, nul) =~= entry.name) by {
            assert forall|j: int| 0 <= j < entry.name.len() implies content[pos + space + 1 + j]
                == entry.name[j] by {
                assert(content[pos + (space + 1 + j)] == written[space + 1 + j]);
            }
        }
        assert(content.subrange(nul + 1, nul + 21) =~= entry.hash) by {
            assert forall|j: int| 0 <= j < 20 implies content[nul + 1 + j] == entry.hash[j] by {
                assert(content[pos + (nul + 1 + j - pos)] == written[nul + 1 + j - pos]);
            }
        }
        assert(content.subrange(nul + 21, content.len() as int) =~= others) by {
            assert forall|j: int| 0 <= j < others.len() implies content[nul + 21 + j]
                == others[j] by {
                assert(tail[written.len() + j] == content[pos + (written.len() + j)]);
                assert((written + others)[written.len() + j] == others[j]);
            }
        }
        assert forall|i: int| 0 <= i < rest.len() implies readable(#[trigger] rest[i]) by {
            assert(rest[i] == entries[i + 1]);
        }
        lemma_parse_written(content, nul + 21, rest);
        assert(seq![entry] + rest =~= entries);
    }
}

/// Reading what was written of readable entries gives the entries back, in
/// the order they were written in.
pub proof fn lemma_tree_round_trip(entries: Seq<TreeEntryView>)
    requires
        forall|i: int| 0 <= i < entries.len() ==> readable(#[trigger] entries[i]),
    ensures
        parsed_entries(entries_bytes(entries), 0) == Ok::<Seq<TreeEntryView>, PackError>(entries),
{
    let content = entries_bytes(entries);
    assert(content.subrange(0, content.len() as int) =~= content);
    lemma_parse_written(content, 0, entries);
}

/// Whether the name `a` comes before the name `b` or is the same.
pub fn name_le(a: &[u8], b: &[u8]) -> (le: bool)
    ensures
        le == lex_le(a@, b@),
{
    let mut i: usize = 0;
    proof {
        assert(a@.skip(0) == a@);
        assert(b@.skip(0) == b@);
    }
    loop
        invariant
            i <= a.len(),
            i <= b.len(),
            lex_le(a@, b@) == lex_le(a@.skip(i as int), b@.skip(i as int)),
        decreases a.len() - i,
    {
        if i >= a.len() {
            return true;
        }
        if i >= b.len() {
            return false;
        }
        proof {
            assert(a@.skip(i as int)[0] == a@[i as int]);
            assert(b@.skip(i as int)[0] == b@[i as int]);
            assert(a@.skip(i as int).drop_first() == a@.skip(i + 1));
            assert(b@.skip(i as int).drop_first() == b@.skip(i + 1));
        }
        if a[i] != b[i] {
            return a[i] < b[i];
        }
        i = i + 1;
    }
}

/// The insert position among `entries` is that among its first `p`, when
/// the names from `p` on all come after `name`.
proof fn lemma_insert_position_prefix(entries: Seq<TreeEntryView>, name: Seq<u8>, p: int)
    requires
        0 <= p <= entries.len(),
        forall|j: int| p <= j < entries.len() ==> !lex_le(entries[j].name, name),
    ensures
        insert_position(entries, name) == insert_position(entries.subrange(0, p), name),
    decreases entries.len() - p,
{
    if p < entries.len() {
        let shorter = entries.drop_last();
        assert(shorter.subrange(0, p) == entries.subrange(0, p));
        lemma_insert_position_prefix(shorter, name, p);
    } else {
        assert(entries.subrange(0, p) == entries);
    }
}

/// Puts `entries` in the order of their names. Entries of one name keep
/// the order they came in.
pub fn sort_entries(entries: Vec<TreeEntry>) -> (out: Vec<TreeEntry>)
    ensures
        views(out@) == sorted_by_name(views(entries@)),
{
    let ghost all = entries@;
    let mut rest: Vec<TreeEntry> = entries;
    let mut out: Vec<TreeEntry> = Vec::new();
    let ghost mut done: int = 0;
    proof {
        assert(views(all.subrange(0, 0)) =~= Seq::<TreeEntryView>::empty());
        assert(views(out@) =~= Seq::<TreeEntryView>::empty());
        assert(rest@ =~= all.subrange(0, all.len() as int));
    }
    while rest.len() > 0
        invariant
            0 <= done <= all.len(),
            rest@ == all.subrange(done, all.len() as int),
            views(out@) == sorted_by_name(views(all.subrange(0, done))),
        decreases rest.len(),
    {
        let entry: TreeEntry = rest.remove(0);
        let ghost before = views(out@);
        let mut p: usize = out.len();
        while p > 0 && !name_le(out[p - 1].name.as_slice(), entry.name.as_slice())
            invariant
                p <= out.len(),
                before == views(out@),
                forall|j: int| p <= j < before.len() ==> !lex_le(before[j].name, entry@.name),
            decreases p,
        {
            p = p - 1;
        }
        proof {
            lemma_insert_position_prefix(before, entry@.name, p as int);
            let head = before.subrange(0, p as int);
            if p > 0 {
                assert(head.last() == before[p - 1]);
            }
            assert(insert_position(before, entry@.name) == p);
            let prefix = views(all.subrange(0, done + 1));
            assert(entry == all[done]);
            assert(prefix.last() == entry@);
            assert(prefix.drop_last() =~= views(all.subrange(0, done)));
        }
        out.insert(p, entry);
        proof {
            assert(views(out@) =~= before.insert(p as int, all[done]@));
            assert(rest@ =~= all.subrange(done + 1, all.len() as int));
            done = done + 1;
        }
    }
    proof {
        assert(all.subrange(0, done) == all);
    }
    out
}

/// Appends `entry` as it is written in a tree.
fn push_entry(out: &mut Vec<u8>, entry: &TreeEntry)
    ensures
        final(out)@ == old(out)@ + entry_bytes(entry@),
{
    let ghost start = out@;
    out.extend_from_slice(entry.mode.as_slice());
    out.push(32);
    out.extend_from_slice(entry.name.as_slice());
    out.push(0);
    out.extend_from_slice(entry.hash.as_slice());
    assert(out@ =~= start + entry_bytes(entry@));
}

/// Writes `entries` one after the other, in the order given.
pub fn serialize_entries(entries: &Vec<TreeEntry>) -> (bytes: Vec<u8>)
    ensures
        bytes@ == entries_bytes(views(entries@)),
{
    let mut bytes: Vec<u8> = Vec::new();
    let mut i: usize = 0;
    proof {
        assert(views(entries@).subrange(0, 0) =~= Seq::<TreeEntryView>::empty());
    }
    while i < entries.len()
        invariant
            i <= entries.len(),
            bytes@ == entries_bytes(views(entries@).subrange(0, i as int)),
        decreases entries.len() - i,
    {
        proof {
            let next = views(entries@).subrange(0, i + 1);
            assert(next.drop_last() =~= views(entries@).subrange(0, i as int));
            assert(next.last() == entries@[i as int]@);
        }
        push_entry(&mut bytes, &entries[i]);
        i = i + 1;
    }
    proof {
        assert(views(entries@).subrange(0, i as int) =~= views(entries@));
    }
    bytes
}

/// Builds the tree that holds `entries`: returns its content, the entries
/// written in the order of their names, and its identity.
pub fn write_tree(entries: Vec<TreeEntry>) -> (tree: (Vec<u8>, [u8; 20]))
    ensures
        tree.0@ == tree_content(views(entries@)),
        tree.1@ == object_id(ObjectKind::Tree, tree_content(views(entries@))),
{
    let ordered = sort_entries(entries);
    let content = serialize_entries(&ordered);
    let id = hash_object(ObjectKind::Tree, content.as_slice());
    (content, id)
}

/// Copies `bytes` into a vector of its own.
fn to_vec(bytes: &[u8]) -> (out: Vec<u8>)
    ensures
        out@ == bytes@,
{
    let mut out: Vec<u8> = Vec::new();
    out.extend_from_slice(bytes);
    assert(out@ =~= bytes@);
    out
}

/// Copies the twenty bytes of `bytes` into an array.
fn to_hash(bytes: &[u8]) -> (hash: [u8; 20])
    requires
        bytes.len() == 20,
    ensures
        hash@ == bytes@,
{
    let mut hash: [u8; 20] = [0u8; 20];
    let mut i: usize = 0;
    while i < 20
        invariant
            i <= 20,
            bytes.len() == 20,
            forall|j: int| 0 <= j < i ==> hash@[j] == bytes@[j],
        decreases 20 - i,
    {
        hash[i] = bytes[i];
        i = i + 1;
    }
    assert(hash@ =~= bytes@);
    hash
}

/// The entry of a tree for a file named `name` that holds `content` and
/// has the permission bits `permissions`: its mode says whether the file
/// may be executed, its hash is the identity of the blob that holds
/// `content`.
pub fn write_blob(name: &[u8], content: &[u8], permissions: u32) -> (entry: TreeEntry)
    ensures
        entry@ == (TreeEntryView {
            mode: file_mode(may_execute(permissions)),
            name: name@,
            hash: object_id(ObjectKind::Blob, content@),
        }),
{
    let mode = if permissions & 0o111 != 0 {
        to_vec("100755".as_bytes())
    } else {
        to_vec("100644".as_bytes())
    };
    TreeEntry { mode, name: to_vec(name), hash: hash_object(ObjectKind::Blob, content) }
}

/// The entry of a tree for a directory named `name` whose own tree has the
/// identity `hash`.
pub fn directory_entry(name: &[u8], hash: [u8; 20]) -> (entry: TreeEntry)
    ensures
        entry@ == (TreeEntryView { mode: directory_mode(), name: name@, hash: hash@ }),
{
    TreeEntry { mode: to_vec("40000".as_bytes()), name: to_vec(name), hash }
}

/// The kind of object that `entry` points to, told by its mode.
pub fn entry_kind(entry: &TreeEntry) -> (kind: ObjectKind)
    ensures
        kind == kind_of_mode(entry@.mode),
{
    let prefix = "40000".as_bytes();
    let mode = entry.mode.as_slice();
    if prefix.len() <= mode.len() && crate::object::bytes_equal(
        &mode[0..prefix.len()],
        prefix,
    ) {
        ObjectKind::Tree
    } else {
        ObjectKind::Blob
    }
}

/// Reads the entries of a tree from its content, in the order they are
/// written in.
pub fn parse_tree(content: &[u8]) -> (r: Result<Vec<TreeEntry>, PackError>)
    ensures
        match r {
            Ok(entries) => parsed_entries(content@, 0) == Ok::<Seq<TreeEntryView>, PackError>(
                views(entries@),
            ),
            Err(e) => parsed_entries(content@, 0) == Err::<Seq<TreeEntryView>, PackError>(e),
        },
{
    let mut entries: Vec<TreeEntry> = Vec::new();
    let mut pos: usize = 0;
    proof {
        assert(views(entries@) =~= Seq::<TreeEntryView>::empty());
        match parsed_entries(content@, 0) {
            Ok(all) => {
                assert(Seq::<TreeEntryView>::empty() + all =~= all);
            },
            Err(e) => {},
        }
    }
    while pos < content.len()
        invariant
            pos <= content.len(),
            parsed_entries(content@, 0) == prepend(
                views(entries@),
                parsed_entries(content@, pos as int),
            ),
        decreases content.len() - pos,
    {
        let nul: usize = match find_byte(content, pos, 0) {
            Some(at) => at,
            None => {
                return Err(PackError::TruncatedInput);
            },
        };
        let space: usize = match find_byte(&content[pos..nul], 0, 32) {
            Some(at) => at,
            None => {
                return Err(PackError::MalformedHeader);
            },
        };
        if content.len() - nul - 1 < 20 {
            return Err(PackError::TruncatedInput);
        }
        let entry = TreeEntry {
            mode: to_vec(&content[pos..pos + space]),
            name: to_vec(&content[pos + space + 1..nul]),
            hash: to_hash(&content[nul + 1..nul + 21]),
        };
        proof {
            let before = views(entries@);
            let one = seq![entry@];
            match parsed_entries(content@, nul + 21) {
                Ok(rest) => {
                    assert(before + (one + rest) =~= before.push(entry@) + rest);
                },
                Err(e) => {},
            }
        }
        let ghost before = views(entries@);
        entries.push(entry);
        proof {
            assert(views(entries@) =~= before.push(entries@.last()@));
        }
        pos = nul + 21;
    }
    proof {
        assert(views(entries@) + Seq::<TreeEntryView>::empty() =~= views(entries@));
    }
    Ok(entries)
}

} // verus!
