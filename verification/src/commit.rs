//! Commit objects.
//!
//! The content of a commit names its tree and its parent by their hashes
//! in hexadecimal, then its author and its committer, and after an empty
//! line holds the message.

use crate::object::{hash_object, object_id, ObjectKind};
use vstd::prelude::*;
use vstd::string::StringSliceAdditionalSpecFns;

verus! {

/// The content of a commit: a line each for the tree, the parent, the
/// author and the committer, an empty line, the message and a line end.
pub open spec fn commit_content(
    tree: Seq<u8>,
    parent: Seq<u8>,
    author: Seq<u8>,
    committer: Seq<u8>,
    message: Seq<u8>,
) -> Seq<u8> {
    "tree ".spec_bytes() + tree + "\n".spec_bytes() + "parent ".spec_bytes() + parent
        + "\n".spec_bytes() + "author ".spec_bytes() + author + "\n".spec_bytes()
        + "committer ".spec_bytes() + committer + "\n\n".spec_bytes() + message
        + "\n".spec_bytes()
}

/// Builds a commit: returns its content and its identity. `tree` and
/// `parent` are hashes in hexadecimal; `author` and `committer` are a name,
/// an address, a time and a time zone, as they stand after the line's first
/// word.
pub fn write_commit(
    tree: &[u8],
    parent: &[u8],
    author: &[u8],
    committer: &[u8],
    message: &[u8],
) -> (commit: (Vec<u8>, [u8; 20]))
    ensures
        commit.0@ == commit_content(tree@, parent@, author@, committer@, message@),
        commit.1@ == object_id(
            ObjectKind::Commit,
            commit_content(tree@, parent@, author@, committer@, message@),
        ),
{
    let mut content: Vec<u8> = Vec::new();
    content.extend_from_slice("tree ".as_bytes());
    content.extend_from_slice(tree);
    content.extend_from_slice("\n".as_bytes());
    content.extend_from_slice("parent ".as_bytes());
    content.extend_from_slice(parent);
    content.extend_from_slice("\n".as_bytes());
    content.extend_from_slice("author ".as_bytes());
    content.extend_from_slice(author);
    content.extend_from_slice("\n".as_bytes());
    content.extend_from_slice("committer ".as_bytes());
    content.extend_from_slice(committer);
    content.extend_from_slice("\n\n".as_bytes());
    content.extend_from_slice(message);
    content.extend_from_slice("\n".as_bytes());
    assert(content@ =~= commit_content(tree@, parent@, author@, committer@, message@));
    let id = hash_object(ObjectKind::Commit, content.as_slice());
    (content, id)
}

} // verus!
