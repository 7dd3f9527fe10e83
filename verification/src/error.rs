use vstd::prelude::*;

verus! {

/// Every way an operation of the store can fail.
#[derive(Clone, Copy, Debug, PartialEq, Eq, Structural)]
pub enum GitError {
    /// No metadata directory was found in the start directory or any ancestor.
    RepositoryNotFound,
    /// No object is stored under the requested digest.
    ObjectNotFound,
    /// Stored bytes cannot be inflated, lack the header terminator, or hold
    /// a tree record that is cut short or malformed; of a stored object, a
    /// malformed header too.
    CorruptObject,
    /// The object header is not `<kind> <size>` with a decimal size. The
    /// codec reports it so; the store reports it as a corrupt object.
    MalformedHeader,
    /// The object header names a kind other than blob, tree or commit.
    UnknownObjectKind,
    /// File content is not UTF-8 text.
    UnsupportedContent,
    /// A file name is not UTF-8 text.
    InvalidFilename,
    /// Text given as a digest is not forty hexadecimal digits.
    InvalidDigest,
    /// A tree listing was asked of an object that is not a tree.
    NotATree,
    /// The file system refused an operation.
    IOError,
}

} // verus!
