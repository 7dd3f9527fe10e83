use vstd::prelude::*;
use vstd::slice::*;
use vstd::utf8::valid_utf8;
use crate::bytes::{append_bytes, copy_range, find_byte, is_utf8, position, NUL, SPACE};
use crate::bytes::{lemma_position_facts, lemma_position_is};
use crate::digest::Digest;
use crate::error::GitError;
use crate::kind::ObjectType;
use crate::object::{Object, ObjectView};

verus! {

/// One entry of a tree: a child object under a name.
#[derive(Clone, Debug)]
pub struct TreeFile {
    /// The file system's mode of the child, as unpadded octal text.
    pub mode: Vec<u8>,
    /// The child's file name.
    pub name: Vec<u8>,
    /// The child's address.
    pub sha: Digest,
}

/// A tree entry as a mathematical value.
pub struct TreeFileView {
    pub mode: Seq<u8>,
    pub name: Seq<u8>,
    pub sha: Seq<u8>,
}

impl View for TreeFile {
    type V = TreeFileView;

    open spec fn view(&self) -> TreeFileView {
        TreeFileView { mode: self.mode@, name: self.name@, sha: self.sha@ }
    }
}

/// The entries of a vector as mathematical values.
pub open spec fn views(files: Seq<TreeFile>) -> Seq<TreeFileView> {
    files.map_values(|f: TreeFile| f@)
}

/// The header of a tree record: mode, a space, name.
pub open spec fn record_header(f: TreeFileView) -> Seq<u8> {
    f.mode + seq![SPACE] + f.name
}

/// One tree record: its header, a NUL, the raw digest.
pub open spec fn record(f: TreeFileView) -> Seq<u8> {
    record_header(f) + seq![NUL] + f.sha
}

/// The payload of a tree: the records of its entries in the order given.
pub open spec fn payload(files: Seq<TreeFileView>) -> Seq<u8>
    decreases files.len(),
{
    if files.len() == 0 {
        Seq::<u8>::empty()
    } else {
        record(files[0]) + payload(files.drop_first())
    }
}

/// One more entry adds its record at the end of the payload.
pub proof fn lemma_payload_push(files: Seq<TreeFileView>, f: TreeFileView)
    ensures
        payload(files.push(f)) == payload(files) + record(f),
    decreases files.len(),
{
    if files.len() == 0 {
        assert(files.push(f).drop_first() =~= Seq::<TreeFileView>::empty());
        assert(payload(files.push(f).drop_first()) =~= Seq::<u8>::empty());
        assert(payload(files) =~= Seq::<u8>::empty());
        assert(payload(files.push(f)) =~= payload(files) + record(f));
    } else {
        lemma_payload_push(files.drop_first(), f);
        assert(files.push(f).drop_first() =~= files.drop_first().push(f));
        assert(payload(files.push(f)) =~= payload(files) + record(f));
    }
}

/// Entries put before the outcome of parsing what follows them.
pub open spec fn after(
    files: Seq<TreeFileView>,
    rest: Result<Seq<TreeFileView>, GitError>,
) -> Result<Seq<TreeFileView>, GitError> {
    match rest {
        Ok(more) => Ok(files + more),
        Err(e) => Err(e),
    }
}

/// The entries that a tree payload holds. Each record ends twenty bytes
/// after the first NUL; its header is UTF-8 text, cut at its first space
/// into mode and name. Bytes after the last record that hold no NUL are
/// passed over. A header that is no UTF-8 text or has no space, and a
/// record with fewer than twenty bytes after its NUL, make the payload
/// corrupt.
pub open spec fn parsed(bytes: Seq<u8>) -> Result<Seq<TreeFileView>, GitError>
    decreases bytes.len(),
    via parsed_decreases
{
    match position(bytes, NUL) {
        None => Ok(Seq::<TreeFileView>::empty()),
        Some(n) => {
            let header = bytes.subrange(0, n);
            match position(header, SPACE) {
                None => Err(GitError::CorruptObject),
                Some(s) => if !valid_utf8(header) || bytes.len() < n + 21 {
                    Err(GitError::CorruptObject)
                } else {
                    after(
                        seq![
                            TreeFileView {
                                mode: header.subrange(0, s),
                                name: header.subrange(s + 1, n),
                                sha: bytes.subrange(n + 1, n + 21),
                            },
                        ],
                        parsed(bytes.subrange(n + 21, bytes.len() as int)),
                    )
                },
            }
        },
    }
}

#[via_fn]
proof fn parsed_decreases(bytes: Seq<u8>) {
    lemma_position_facts(bytes, NUL);
}

/// An entry that a payload can hold and give back: its header is UTF-8
/// text without a NUL, its mode has no space, its digest has twenty bytes.
pub open spec fn storable(f: TreeFileView) -> bool {
    &&& valid_utf8(record_header(f))
    &&& forall|i: int| 0 <= i < f.mode.len() ==> f.mode[i] != SPACE && f.mode[i] != NUL
    &&& forall|i: int| 0 <= i < f.name.len() ==> f.name[i] != NUL
    &&& f.sha.len() == 20
}

/// Parsing the payload of storable entries gives the entries back, in
/// their order.
pub proof fn lemma_parse_payload(files: Seq<TreeFileView>)
    requires
        forall|i: int| 0 <= i < files.len() ==> storable(#[trigger] files[i]),
    ensures
        parsed(payload(files)) == Ok::<Seq<TreeFileView>, GitError>(files),
    decreases files.len(),
{
    let bytes = payload(files);
    if files.len() == 0 {
        lemma_position_facts(bytes, NUL);
        assert(parsed(bytes).unwrap() =~= files);
    } else {
        let f = files[0];
        let rest = files.drop_first();
        assert(storable(f));
        assert forall|i: int| 0 <= i < rest.len() implies storable(#[trigger] rest[i]) by {
            assert(rest[i] == files[i + 1]);
        }
        lemma_parse_payload(rest);
        let header = record_header(f);
        let n = header.len() as int;
        assert forall|j: int| 0 <= j < n implies bytes[j] != NUL by {
            if j < f.mode.len() {
                assert(bytes[j] == f.mode[j]);
            } else if j == f.mode.len() {
            } else {
                assert(bytes[j] == f.name[j - f.mode.len() - 1]);
            }
        }
        assert(bytes[n] == NUL);
        lemma_position_is(bytes, NUL, n);
        assert(bytes.subrange(0, n) =~= header);
        let s = f.mode.len() as int;
        assert forall|j: int| 0 <= j < s implies header[j] != SPACE by {
            assert(header[j] == f.mode[j]);
        }
        assert(header[s] == SPACE);
        lemma_position_is(header, SPACE, s);
        assert(header.subrange(0, s) =~= f.mode);
        assert(header.subrange(s + 1, n) =~= f.name);
        assert(bytes.subrange(n + 1, n + 21) =~= f.sha);
        assert(bytes.subrange(n + 21, bytes.len() as int) =~= payload(rest));
        assert(seq![f] + rest =~= files);
    }
}

impl Object {
    /// A tree holding `content` in the order given. The entries are meant
    /// to come sorted by name; they are not sorted here.
    pub fn new_tree(content: Vec<TreeFile>) -> (r: Object)
        ensures
            r@ == (ObjectView {
                object_type: ObjectType::Tree,
                size: payload(views(content@)).len() as usize,
                content: payload(views(content@)),
            }),
    {
        let mut result: Vec<u8> = Vec::new();
        let mut i: usize = 0;
        assert(views(content@).subrange(0, 0) =~= Seq::<TreeFileView>::empty());
        while i < content.len()
            invariant
                i <= content.len(),
                result@ == payload(views(content@).subrange(0, i as int)),
            decreases content.len() - i,
        {
            let file = &content[i];
            proof {
                lemma_payload_push(views(content@).subrange(0, i as int), file@);
                assert(views(content@).subrange(0, i as int).push(file@) =~= views(
                    content@,
                ).subrange(0, i + 1));
            }
            let ghost before = result@;
            append_bytes(&mut result, file.mode.as_slice());
            result.push(SPACE);
            append_bytes(&mut result, file.name.as_slice());
            result.push(NUL);
            append_bytes(&mut result, vstd::array::array_as_slice(&file.sha.bytes));
            assert(result@ =~= before + record(file@));
            i += 1;
        }
        assert(views(content@).subrange(0, content@.len() as int) =~= views(content@));
        Object { object_type: ObjectType::Tree, size: result.len(), content: result }
    }
}

/// Reads the entries of a tree payload.
pub fn parse_tree(content: &[u8]) -> (r: Result<Vec<TreeFile>, GitError>)
    ensures
        match r {
            Ok(files) => parsed(content@) == Ok::<Seq<TreeFileView>, GitError>(views(files@)),
            Err(e) => parsed(content@) == Err::<Seq<TreeFileView>, GitError>(e),
        },
{
    let mut files: Vec<TreeFile> = Vec::new();
    let mut off: usize = 0;
    let end = content.len();
    assert(content@.subrange(0, end as int) =~= content@);
    assert(views(files@) =~= Seq::<TreeFileView>::empty());
    assert(after(views(files@), parsed(content@)) == parsed(content@)) by {
        match parsed(content@) {
            Ok(more) => {
                assert(views(files@) + more =~= more);
            },
            Err(_) => {},
        }
    }
    loop
        invariant
            off <= end,
            end == content@.len(),
            parsed(content@) == after(views(files@), parsed(content@.subrange(off as int, end as int))),
        decreases end - off,
    {
        let rest = slice_subrange(content, off, end);
        let n = match find_byte(rest, NUL) {
            Some(n) => n,
            None => {
                assert(views(files@) + Seq::<TreeFileView>::empty() =~= views(files@));
                return Ok(files);
            },
        };
        proof {
            lemma_position_facts(rest@, NUL);
        }
        let header = slice_subrange(rest, 0, n);
        let s = match find_byte(header, SPACE) {
            Some(s) => s,
            None => {
                return Err(GitError::CorruptObject);
            },
        };
        proof {
            lemma_position_facts(header@, SPACE);
        }
        if !is_utf8(header) || end - off - n < 21 {
            return Err(GitError::CorruptObject);
        }
        let mode = copy_range(header, 0, s);
        let name = copy_range(header, s + 1, n);
        let sha = match Digest::from_slice(slice_subrange(rest, n + 1, n + 21)) {
            Ok(sha) => sha,
            Err(_) => {
                return Err(GitError::CorruptObject);
            },
        };
        let file = TreeFile { mode, name, sha };
        proof {
            let tail = parsed(rest@.subrange(n + 21, rest@.len() as int));
            assert(rest@.subrange(n + 21, rest@.len() as int) =~= content@.subrange(
                off + n + 21,
                end as int,
            ));
            assert(views(files@.push(file)) =~= views(files@).push(file@));
            match tail {
                Ok(more) => {
                    assert(views(files@) + (seq![file@] + more) =~= views(files@).push(file@)
                        + more);
                },
                Err(_) => {},
            }
        }
        files.push(file);
        off = off + n + 21;
    }
}

} // verus!
