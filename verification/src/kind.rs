use vstd::prelude::*;
use crate::bytes::bytes_eq;
use crate::error::GitError;

verus! {

/// The closed set of object kinds.
#[derive(Clone, Copy, Debug, PartialEq, Eq, Structural)]
pub enum ObjectType {
    Blob,
    Tree,
    Commit,
}

impl ObjectType {
    /// The kind's name as it stands in an object header: the ASCII codes of
    /// `blob`, `tree` and `commit`.
    pub open spec fn name(self) -> Seq<u8> {
        match self {
            ObjectType::Blob => seq![98u8, 108u8, 111u8, 98u8],
            ObjectType::Tree => seq![116u8, 114u8, 101u8, 101u8],
            ObjectType::Commit => seq![99u8, 111u8, 109u8, 109u8, 105u8, 116u8],
        }
    }

    /// The kind that a header name stands for, if it stands for one.
    pub open spec fn named(name: Seq<u8>) -> Option<ObjectType> {
        if name == ObjectType::Blob.name() {
            Some(ObjectType::Blob)
        } else if name == ObjectType::Tree.name() {
            Some(ObjectType::Tree)
        } else if name == ObjectType::Commit.name() {
            Some(ObjectType::Commit)
        } else {
            None
        }
    }

    /// Each kind is the one that its own name stands for, and no name holds
    /// a separator or a terminator.
    pub proof fn lemma_name_round_trip(self)
        ensures
            ObjectType::named(self.name()) == Some(self),
            forall|i: int| 0 <= i < self.name().len() ==> 97 <= #[trigger] self.name()[i] <= 122,
    {
        assert(ObjectType::Blob.name()[0] == 98);
        assert(ObjectType::Tree.name()[0] == 116);
        assert(ObjectType::Commit.name()[0] == 99);
    }

    /// The header name of this kind.
    pub fn to_bytes(&self) -> (r: Vec<u8>)
        ensures
            r@ == self.name(),
    {
        let r = match self {
            ObjectType::Blob => vec![98u8, 108u8, 111u8, 98u8],
            ObjectType::Tree => vec![116u8, 114u8, 101u8, 101u8],
            ObjectType::Commit => vec![99u8, 111u8, 109u8, 109u8, 105u8, 116u8],
        };
        assert(r@ =~= self.name());
        r
    }

    /// Reads a header name; fails on a name that is no kind's.
    pub fn try_from(name: &[u8]) -> (r: Result<ObjectType, GitError>)
        ensures
            r == match ObjectType::named(name@) {
                Some(k) => Ok::<ObjectType, GitError>(k),
                None => Err(GitError::UnknownObjectKind),
            },
    {
        let blob = ObjectType::Blob.to_bytes();
        let tree = ObjectType::Tree.to_bytes();
        let commit = ObjectType::Commit.to_bytes();
        if bytes_eq(name, blob.as_slice()) {
            Ok(ObjectType::Blob)
        } else if bytes_eq(name, tree.as_slice()) {
            Ok(ObjectType::Tree)
        } else if bytes_eq(name, commit.as_slice()) {
            Ok(ObjectType::Commit)
        } else {
            Err(GitError::UnknownObjectKind)
        }
    }
}

} // verus!
