use vstd::prelude::*;
use vstd::seq_lib::to_multiset_contains;
use vstd::utf8::valid_utf8;
use crate::bytes::is_utf8;
use crate::digest::{sha1_of, Digest};
use crate::error::GitError;
use crate::kind::ObjectType;
use crate::locate::object_path;
use crate::number::{format_radix, octal_text};
use crate::object::{encoding, lemma_encoding_injective, Object, ObjectView};
use crate::ignore::{ignored, lemma_unignored, unignored, ListedView};
use crate::sorting::{lemma_sort_ignores_order, lemma_sorted_by_name, names_decide, sort_by_name, sorted_by_name};
use crate::tree::{payload, views, TreeFile, TreeFileView};
use crate::zlib::deflated;

verus! {

/// An object made ready for the store: its address and the bytes to keep
/// under it.
#[derive(Clone, Debug)]
pub struct StoredObject {
    pub sha: Digest,
    pub bytes: Vec<u8>,
}

/// The blob that holds the bytes of a file.
pub open spec fn blob_of(content: Seq<u8>) -> ObjectView {
    ObjectView { object_type: ObjectType::Blob, size: content.len() as usize, content }
}

/// The tree that holds the given entries, sorted by name.
pub open spec fn tree_of(files: Seq<TreeFileView>) -> ObjectView {
    ObjectView {
        object_type: ObjectType::Tree,
        size: payload(sorted_by_name(files)).len() as usize,
        content: payload(sorted_by_name(files)),
    }
}

/// What readying an object answers once the compressor has spoken: the
/// address is the digest of the canonical bytes, the bytes to keep are the
/// compressor's stream.
pub open spec fn readied(o: ObjectView, r: Result<StoredObject, GitError>) -> bool {
    match r {
        Ok(s) => s.sha@ == sha1_of(encoding(o)) && deflated(encoding(o)) == Some(s.bytes@),
        Err(e) => e == GitError::IOError && deflated(encoding(o)) is None,
    }
}

/// Readies an object for the store.
pub fn ready(object: &Object) -> (r: Result<StoredObject, GitError>)
    ensures
        readied(object@, r),
{
    let sha = object.hash();
    match object.compress() {
        Ok(bytes) => Ok(StoredObject { sha, bytes }),
        Err(e) => Err(e),
    }
}

/// Readies the content of a file as a blob. Content that is not UTF-8 text
/// is refused.
pub fn p_hash_object(content: Vec<u8>) -> (r: Result<StoredObject, GitError>)
    ensures
        valid_utf8(content@) ==> readied(blob_of(content@), r),
        !valid_utf8(content@) ==> r == Err::<StoredObject, GitError>(GitError::UnsupportedContent),
{
    if !is_utf8(content.as_slice()) {
        return Err(GitError::UnsupportedContent);
    }
    let object = Object { object_type: ObjectType::Blob, size: content.len(), content };
    ready(&object)
}

/// Whether a child's name can stand in a tree: it must be UTF-8 text.
pub fn entry_name(name: &[u8]) -> (r: Result<(), GitError>)
    ensures
        match r {
            Ok(_) => valid_utf8(name@),
            Err(e) => e == GitError::InvalidFilename && !valid_utf8(name@),
        },
{
    if is_utf8(name) {
        Ok(())
    } else {
        Err(GitError::InvalidFilename)
    }
}

/// The entry of a tree for a child named `name` with the file system's
/// mode `mode` and the address `sha`: the mode is kept as unpadded octal
/// text. A name that is not UTF-8 text is refused.
pub fn tree_entry(name: Vec<u8>, mode: u32, sha: Digest) -> (r: Result<TreeFile, GitError>)
    ensures
        match r {
            Ok(f) => valid_utf8(name@) && f@ == (TreeFileView {
                mode: octal_text(mode as nat),
                name: name@,
                sha: sha@,
            }),
            Err(e) => e == GitError::InvalidFilename && !valid_utf8(name@),
        },
{
    match entry_name(name.as_slice()) {
        Ok(_) => Ok(TreeFile { mode: format_radix(mode as u64, 8), name, sha }),
        Err(e) => Err(e),
    }
}

/// Readies the tree of a directory from the entries of its children, in
/// whatever order they come: they are sorted by name first.
pub fn p_write_tree(files: Vec<TreeFile>) -> (r: Result<StoredObject, GitError>)
    ensures
        readied(tree_of(views(files@)), r),
{
    let mut files = files;
    sort_by_name(&mut files);
    let object = Object::new_tree(files);
    ready(&object)
}

/// What is to be written for an object whose bytes to keep are `bytes`:
/// nothing where the store already has a file at its address.
pub open spec fn to_write(present: bool, bytes: Seq<u8>) -> Option<Seq<u8>> {
    if present {
        None
    } else {
        Some(bytes)
    }
}

/// The files of a store, each path with its bytes, once `write` has been
/// carried out at `path`.
pub open spec fn after_write(
    files: Map<Seq<Seq<u8>>, Seq<u8>>,
    path: Seq<Seq<u8>>,
    write: Option<Seq<u8>>,
) -> Map<Seq<Seq<u8>>, Seq<u8>> {
    match write {
        Some(bytes) => files.insert(path, bytes),
        None => files,
    }
}

/// Decides what the store does with a readied object: where a file is
/// already present at its address nothing is written, else its bytes are.
/// Either way the object's address is the answer, and neither is an error.
pub fn deposit(stored: StoredObject, present: bool) -> (r: (Digest, Option<Vec<u8>>))
    ensures
        r.0@ == stored.sha@,
        match r.1 {
            Some(bytes) => to_write(present, stored.bytes@) == Some(bytes@),
            None => to_write(present, stored.bytes@) is None,
        },
{
    if present {
        (stored.sha, None)
    } else {
        (stored.sha, Some(stored.bytes))
    }
}

/// Writing an object a second time changes nothing: after the first write
/// the store has a file at the object's address, so the second writes
/// nothing and leaves every file as it was. A store that had the file
/// before is not touched at all.
pub proof fn lemma_write_twice(
    files: Map<Seq<Seq<u8>>, Seq<u8>>,
    root: Seq<Seq<u8>>,
    o: ObjectView,
    bytes: Seq<u8>,
)
    ensures
        ({
            let path = object_path(root, sha1_of(encoding(o)));
            let once = after_write(files, path, to_write(files.dom().contains(path), bytes));
            let twice = after_write(once, path, to_write(once.dom().contains(path), bytes));
            &&& once.dom().contains(path)
            &&& twice == once
            &&& files.dom().contains(path) ==> once == files
        }),
{
}

/// The address is a matter of the encoded bytes alone: objects with the
/// same encoding are the same object, have the same address, the same place
/// in the store of a repository and the same bytes to keep there, so that
/// readying one a second time changes nothing.
pub proof fn lemma_address_is_of_encoding(a: ObjectView, b: ObjectView, root: Seq<Seq<u8>>)
    requires
        encoding(a) == encoding(b),
    ensures
        a == b,
        sha1_of(encoding(a)) == sha1_of(encoding(b)),
        object_path(root, sha1_of(encoding(a))) == object_path(root, sha1_of(encoding(b))),
        deflated(encoding(a)) == deflated(encoding(b)),
{
    lemma_encoding_injective(a, b);
}

/// The tree of a directory does not depend on the order in which its
/// children are listed: the same entries, no two different ones under one
/// name, give the same tree and so the same address.
pub proof fn lemma_tree_ignores_order(a: Seq<TreeFileView>, b: Seq<TreeFileView>)
    requires
        a.to_multiset() == b.to_multiset(),
        names_decide(a),
    ensures
        tree_of(a) == tree_of(b),
        sha1_of(encoding(tree_of(a))) == sha1_of(encoding(tree_of(b))),
{
    lemma_sort_ignores_order(a, b);
}

/// `name` is the name of a listed child that is not ignored.
pub open spec fn names_unignored(
    name: Seq<u8>,
    children: Seq<ListedView>,
    patterns: Seq<Seq<Seq<u8>>>,
) -> bool {
    exists|c: ListedView|
        #![trigger children.contains(c)]
        children.contains(c) && c.name == name && !ignored(c.name, c.path, patterns)
}

/// A tree built from the entries of the children that are not ignored has
/// a record for none that is: each of its records bears the name of a
/// listed child that is not ignored.
pub proof fn lemma_tree_leaves_out_ignored(
    children: Seq<ListedView>,
    patterns: Seq<Seq<Seq<u8>>>,
    files: Seq<TreeFileView>,
)
    requires
        files.len() == unignored(children, patterns).len(),
        forall|i: int|
            0 <= i < files.len() ==> (#[trigger] files[i]).name == unignored(
                children,
                patterns,
            )[i].name,
    ensures
        forall|j: int|
            0 <= j < sorted_by_name(files).len() ==> names_unignored(
                (#[trigger] sorted_by_name(files)[j]).name,
                children,
                patterns,
            ),
{
    let kept = unignored(children, patterns);
    let sorted = sorted_by_name(files);
    lemma_sorted_by_name(files);
    lemma_unignored(children, patterns);
    assert forall|j: int| 0 <= j < sorted.len() implies names_unignored(
        (#[trigger] sorted[j]).name,
        children,
        patterns,
    ) by {
        assert(sorted.contains(sorted[j]));
        to_multiset_contains(sorted, sorted[j]);
        to_multiset_contains(files, sorted[j]);
        let i = choose|i: int| 0 <= i < files.len() && files[i] == sorted[j];
        assert(kept.contains(kept[i]));
        assert(children.contains(kept[i]));
    }
}

/// A directory without entries gives the tree with an empty payload.
pub proof fn lemma_empty_tree()
    ensures
        tree_of(Seq::<TreeFileView>::empty()) == (ObjectView {
            object_type: ObjectType::Tree,
            size: 0,
            content: Seq::<u8>::empty(),
        }),
{
    assert(payload(sorted_by_name(Seq::<TreeFileView>::empty())) =~= Seq::<u8>::empty());
}

} // verus!
