use vstd::prelude::*;
use crate::bytes::{bytes_eq, copy_range};
use crate::digest::{hex_ascii, Digest};
use crate::error::GitError;

verus! {

/// An absolute, canonical path as the names of its components, outermost
/// first. The file system's root is the path without components.
#[derive(Clone, Debug)]
pub struct RepoPath {
    pub parts: Vec<Vec<u8>>,
}

impl View for RepoPath {
    type V = Seq<Seq<u8>>;

    open spec fn view(&self) -> Seq<Seq<u8>> {
        self.parts@.map_values(|part: Vec<u8>| part@)
    }
}

/// The name of the metadata directory, `.git`.
pub open spec fn metadata_name() -> Seq<u8> {
    seq![46u8, 103u8, 105u8, 116u8]
}

/// The name of the directory of objects inside the metadata directory,
/// `objects`.
pub open spec fn objects_name() -> Seq<u8> {
    seq![111u8, 98u8, 106u8, 101u8, 99u8, 116u8, 115u8]
}

/// The name of the metadata directory.
pub fn metadata_dir() -> (r: Vec<u8>)
    ensures
        r@ == metadata_name(),
{
    let r = vec![46u8, 103u8, 105u8, 116u8];
    assert(r@ =~= metadata_name());
    r
}

/// The name of the directory of objects.
pub fn objects_dir() -> (r: Vec<u8>)
    ensures
        r@ == objects_name(),
{
    let r = vec![111u8, 98u8, 106u8, 101u8, 99u8, 116u8, 115u8];
    assert(r@ =~= objects_name());
    r
}

/// One child of a directory as a listing shows it: its name, and whether
/// it is itself a directory.
#[derive(Clone, Debug)]
pub struct Child {
    pub name: Vec<u8>,
    pub is_dir: bool,
}

/// Whether a child is the metadata directory: a directory of that name. A
/// file of that name is none.
pub open spec fn is_metadata(child: Child) -> bool {
    child.is_dir && child.name@ == metadata_name()
}

/// Whether a directory with these children holds the metadata directory.
pub open spec fn holds_metadata(children: Seq<Child>) -> bool {
    exists|i: int| 0 <= i < children.len() && is_metadata(#[trigger] children[i])
}

/// The repository root as seen from `dir`, where `marked` holds the
/// directories that have the metadata directory among their children: the
/// nearest of `dir` and its ancestors that is marked.
pub open spec fn root_of(dir: Seq<Seq<u8>>, marked: Set<Seq<Seq<u8>>>) -> Option<Seq<Seq<u8>>>
    decreases dir.len(),
{
    if marked.contains(dir) {
        Some(dir)
    } else if dir.len() == 0 {
        None
    } else {
        root_of(dir.drop_last(), marked)
    }
}

/// `root` is `dir` or an ancestor of it.
pub open spec fn encloses(root: Seq<Seq<u8>>, dir: Seq<Seq<u8>>) -> bool {
    root.len() <= dir.len() && dir.subrange(0, root.len() as int) == root
}

/// From a directory inside a repository the search gives the nearest
/// enclosing directory that holds the metadata directory; outside any
/// repository it gives none.
pub proof fn lemma_root_of(dir: Seq<Seq<u8>>, marked: Set<Seq<Seq<u8>>>)
    ensures
        match root_of(dir, marked) {
            Some(root) => {
                &&& encloses(root, dir)
                &&& marked.contains(root)
                &&& forall|other: Seq<Seq<u8>>|
                    encloses(other, dir) && marked.contains(other) ==> other.len() <= root.len()
            },
            None => forall|other: Seq<Seq<u8>>| encloses(other, dir) ==> !marked.contains(other),
        },
    decreases dir.len(),
{
    if marked.contains(dir) {
        assert(dir.subrange(0, dir.len() as int) =~= dir);
    } else if dir.len() == 0 {
        assert forall|other: Seq<Seq<u8>>| encloses(other, dir) implies !marked.contains(other) by {
            assert(other =~= dir);
        }
    } else {
        let up = dir.drop_last();
        lemma_root_of(up, marked);
        assert forall|other: Seq<Seq<u8>>| encloses(other, dir) && other != dir implies encloses(
            other,
            up,
        ) by {
            if other.len() == dir.len() {
                assert(dir.subrange(0, dir.len() as int) =~= dir);
            }
            assert(up.subrange(0, other.len() as int) =~= dir.subrange(0, other.len() as int));
        }
        match root_of(up, marked) {
            Some(root) => {
                assert(dir.subrange(0, root.len() as int) =~= up.subrange(0, root.len() as int));
            },
            None => {},
        }
    }
}

/// What the search does after it has seen the children of one directory.
#[derive(Clone, Debug)]
pub enum RootSearch {
    /// The directory is the repository root.
    Found(RepoPath),
    /// The search goes on in the directory's parent.
    Ascend(RepoPath),
}

/// One step of the search for the repository root: `dir` is the root where
/// a directory among its children bears the metadata name; else the search goes to its parent,
/// and fails where it has none.
pub fn get_repo_root(dir: RepoPath, children: &Vec<Child>) -> (r: Result<RootSearch, GitError>)
    ensures
        match r {
            Ok(RootSearch::Found(root)) => holds_metadata(children@) && root@ == dir@,
            Ok(RootSearch::Ascend(parent)) => !holds_metadata(children@) && dir@.len() > 0
                && parent@ == dir@.drop_last(),
            Err(e) => e == GitError::RepositoryNotFound && !holds_metadata(children@) && dir@.len()
                == 0,
        },
{
    let marker = metadata_dir();
    let mut i: usize = 0;
    while i < children.len()
        invariant
            i <= children.len(),
            marker@ == metadata_name(),
            forall|j: int| 0 <= j < i ==> !is_metadata(#[trigger] children@[j]),
        decreases children.len() - i,
    {
        if children[i].is_dir && bytes_eq(children[i].name.as_slice(), marker.as_slice()) {
            return Ok(RootSearch::Found(dir));
        }
        i += 1;
    }
    let mut dir = dir;
    let ghost before = dir@;
    match dir.parts.pop() {
        Some(_) => {
            assert(dir@ =~= before.drop_last());
            Ok(RootSearch::Ascend(dir))
        },
        None => Err(GitError::RepositoryNotFound),
    }
}

/// A step of the search agrees with `root_of`: where the directory is
/// marked it is the root, else the root is that of its parent, and a
/// directory without parent has none.
pub proof fn lemma_step_follows_root_of(
    dir: Seq<Seq<u8>>,
    marked: Set<Seq<Seq<u8>>>,
    children: Seq<Child>,
)
    requires
        marked.contains(dir) <==> holds_metadata(children),
    ensures
        holds_metadata(children) ==> root_of(dir, marked) == Some(dir),
        !holds_metadata(children) && dir.len() > 0 ==> root_of(dir, marked) == root_of(
            dir.drop_last(),
            marked,
        ),
        !holds_metadata(children) && dir.len() == 0 ==> root_of(dir, marked) is None,
{
}

/// Where the object addressed by `sha` is stored under the repository at
/// `root`: in the metadata directory's directory of objects, in the
/// directory named by the first two hexadecimal digits of the digest, in
/// the file named by the other thirty-eight.
pub open spec fn object_path(root: Seq<Seq<u8>>, sha: Seq<u8>) -> Seq<Seq<u8>> {
    root + seq![
        metadata_name(),
        objects_name(),
        hex_ascii(sha).subrange(0, 2),
        hex_ascii(sha).subrange(2, 40),
    ]
}

/// The path of the stored object with address `sha`.
pub fn sha_to_path(root: &RepoPath, sha: &Digest) -> (r: RepoPath)
    ensures
        r@ == object_path(root@, sha@),
{
    let mut parts: Vec<Vec<u8>> = Vec::new();
    let mut i: usize = 0;
    while i < root.parts.len()
        invariant
            i <= root.parts.len(),
            parts@.len() == i,
            forall|j: int| 0 <= j < i ==> (#[trigger] parts@[j])@ == root.parts@[j]@,
        decreases root.parts.len() - i,
    {
        let part = copy_range(root.parts[i].as_slice(), 0, root.parts[i].len());
        assert(part@ =~= root.parts@[i as int]@);
        parts.push(part);
        i += 1;
    }
    let hex = sha.hex_bytes();
    parts.push(metadata_dir());
    parts.push(objects_dir());
    parts.push(copy_range(hex.as_slice(), 0, 2));
    parts.push(copy_range(hex.as_slice(), 2, 40));
    let r = RepoPath { parts };
    assert(r@ =~= object_path(root@, sha@));
    r
}

} // verus!
