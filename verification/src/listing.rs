use vstd::prelude::*;
use crate::bytes::{append_bytes, copy_range, is_continuation, SPACE};
use crate::digest::hex_ascii;
use crate::error::GitError;
use crate::kind::ObjectType;
use crate::number::ZERO;
use crate::object::{Object, ObjectView};
use crate::tree::{parse_tree, parsed, views, TreeFile, TreeFileView};

verus! {

/// The width to which a listing pads the mode.
pub const MODE_WIDTH: usize = 6;

/// The number of characters of UTF-8 text: its bytes that start one.
pub open spec fn char_count(s: Seq<u8>) -> nat
    decreases s.len(),
{
    if s.len() == 0 {
        0
    } else if is_continuation(s.last()) {
        char_count(s.drop_last())
    } else {
        char_count(s.drop_last()) + 1
    }
}

/// A mode as a listing shows it: with zeros in front up to six characters.
pub open spec fn padded_mode(mode: Seq<u8>) -> Seq<u8> {
    if char_count(mode) >= 6 {
        mode
    } else {
        Seq::new((6 - char_count(mode)) as nat, |i: int| ZERO) + mode
    }
}

/// One line of a listing, without its line end: the name alone, or the
/// padded mode, the digest in hexadecimal and the name, a space between.
pub open spec fn line_of(f: TreeFileView, name_only: bool) -> Seq<u8> {
    if name_only {
        f.name
    } else {
        padded_mode(f.mode) + seq![SPACE] + hex_ascii(f.sha) + seq![SPACE] + f.name
    }
}

/// The lines of a listing: one for each entry, in the entries' order.
pub open spec fn listing(files: Seq<TreeFileView>, name_only: bool) -> Seq<Seq<u8>> {
    files.map_values(|f: TreeFileView| line_of(f, name_only))
}

/// The listing of an object: that of its entries where it is a tree.
pub open spec fn tree_listing(o: ObjectView, name_only: bool) -> Result<Seq<Seq<u8>>, GitError> {
    if o.object_type != ObjectType::Tree {
        Err(GitError::NotATree)
    } else {
        match parsed(o.content) {
            Ok(files) => Ok(listing(files, name_only)),
            Err(e) => Err(e),
        }
    }
}

/// A listing of names alone holds the entries' names, one a line, in the
/// entries' order, and nothing else.
pub proof fn lemma_names_only(files: Seq<TreeFileView>)
    ensures
        listing(files, true) == files.map_values(|f: TreeFileView| f.name),
{
    assert(listing(files, true) =~= files.map_values(|f: TreeFileView| f.name));
}

/// The number of characters of `s`.
pub fn count_chars(s: &[u8]) -> (r: usize)
    ensures
        r == char_count(s@),
{
    let mut n: usize = 0;
    let mut i: usize = 0;
    assert(s@.subrange(0, 0) =~= Seq::<u8>::empty());
    while i < s.len()
        invariant
            i <= s.len(),
            n <= i,
            n == char_count(s@.subrange(0, i as int)),
        decreases s.len() - i,
    {
        assert(s@.subrange(0, i + 1).drop_last() =~= s@.subrange(0, i as int));
        if !(s[i] >= 128 && s[i] < 192) {
            n += 1;
        }
        i += 1;
    }
    assert(s@.subrange(0, s@.len() as int) =~= s@);
    n
}

/// One line of a listing.
pub fn format_line(file: &TreeFile, name_only: bool) -> (r: Vec<u8>)
    ensures
        r@ == line_of(file@, name_only),
{
    if name_only {
        return copy_range(file.name.as_slice(), 0, file.name.len());
    }
    let mut line: Vec<u8> = Vec::new();
    let width = count_chars(file.mode.as_slice());
    let pad: usize = if width >= MODE_WIDTH {
        0
    } else {
        MODE_WIDTH - width
    };
    let mut k: usize = 0;
    while k < pad
        invariant
            k <= pad,
            line@ == Seq::new(k as nat, |i: int| ZERO),
        decreases pad - k,
    {
        line.push(ZERO);
        k += 1;
        assert(line@ =~= Seq::new(k as nat, |i: int| ZERO));
    }
    assert(line@ + file.mode@ =~= padded_mode(file.mode@));
    append_bytes(&mut line, file.mode.as_slice());
    line.push(SPACE);
    let hex = file.sha.hex_bytes();
    append_bytes(&mut line, hex.as_slice());
    line.push(SPACE);
    append_bytes(&mut line, file.name.as_slice());
    assert(line@ =~= line_of(file@, false));
    line
}

/// The lines that list the entries of a tree object, in their stored
/// order; fails on an object that is no tree and on a corrupt payload.
pub fn p_ls_tree(name_only: bool, object: &Object) -> (r: Result<Vec<Vec<u8>>, GitError>)
    ensures
        match r {
            Ok(out) => tree_listing(object@, name_only) == Ok::<Seq<Seq<u8>>, GitError>(
                out@.map_values(|l: Vec<u8>| l@),
            ),
            Err(e) => tree_listing(object@, name_only) == Err::<Seq<Seq<u8>>, GitError>(e),
        },
{
    match object.object_type {
        ObjectType::Tree => {},
        _ => {
            return Err(GitError::NotATree);
        },
    }
    let files = parse_tree(object.content.as_slice())?;
    let mut out: Vec<Vec<u8>> = Vec::new();
    let mut i: usize = 0;
    while i < files.len()
        invariant
            i <= files.len(),
            out@.len() == i,
            forall|j: int| 0 <= j < i ==> (#[trigger] out@[j])@ == line_of(files@[j]@, name_only),
        decreases files.len() - i,
    {
        out.push(format_line(&files[i], name_only));
        i += 1;
    }
    assert(out@.map_values(|l: Vec<u8>| l@) =~= listing(views(files@), name_only));
    Ok(out)
}

} // verus!
