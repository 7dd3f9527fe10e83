use vstd::prelude::*;
use vstd::slice::*;
use vstd::string::*;
use crate::bytes::{append_bytes, copy_range, find_byte, position, NUL, SPACE};
use crate::bytes::{lemma_position_facts, lemma_position_is};
use crate::digest::{sha1_of, Digest};
use crate::error::GitError;
use crate::kind::ObjectType;
use crate::number::{decimal_text, format_radix, parse_size, read_size};
use crate::number::{lemma_parse_decimal, lemma_radix_text};
use crate::zlib::{compress, compressed, decompress, deflated, inflated};

verus! {

/// A typed payload with the size that its header declares.
#[derive(Clone, Debug)]
pub struct Object {
    pub object_type: ObjectType,
    pub size: usize,
    pub content: Vec<u8>,
}

/// An object as a mathematical value.
pub struct ObjectView {
    pub object_type: ObjectType,
    pub size: usize,
    pub content: Seq<u8>,
}

impl View for Object {
    type V = ObjectView;

    open spec fn view(&self) -> ObjectView {
        ObjectView { object_type: self.object_type, size: self.size, content: self.content@ }
    }
}

/// The header of an encoded object: the kind's name, a space, the declared
/// size in decimal.
pub open spec fn header_of(o: ObjectView) -> Seq<u8> {
    o.object_type.name() + seq![SPACE] + decimal_text(o.size as nat)
}

/// The canonical bytes of an object: its header, a NUL, its content.
pub open spec fn encoding(o: ObjectView) -> Seq<u8> {
    header_of(o) + seq![NUL] + o.content
}

/// What a header says once it is cut at its first space: the declared size
/// is read before the kind is looked up.
pub open spec fn header_fields(header: Seq<u8>) -> Result<(ObjectType, usize), GitError> {
    match position(header, SPACE) {
        None => Err(GitError::MalformedHeader),
        Some(s) => match parse_size(header.subrange(s + 1, header.len() as int)) {
            None => Err(GitError::MalformedHeader),
            Some(size) => match ObjectType::named(header.subrange(0, s)) {
                None => Err(GitError::UnknownObjectKind),
                Some(object_type) => Ok((object_type, size)),
            },
        },
    }
}

/// The object that bytes encode. The header ends at the first NUL; all
/// that follows is content, whatever size the header declares.
pub open spec fn decoding(bytes: Seq<u8>) -> Result<ObjectView, GitError> {
    match position(bytes, NUL) {
        None => Err(GitError::CorruptObject),
        Some(n) => match header_fields(bytes.subrange(0, n)) {
            Err(e) => Err(e),
            Ok(f) => Ok(
                ObjectView {
                    object_type: f.0,
                    size: f.1,
                    content: bytes.subrange(n + 1, bytes.len() as int),
                },
            ),
        },
    }
}

/// What reading a stored object answers once the decompressor has spoken.
/// Bytes that do not inflate are a corrupt object. Of the failures to
/// decode, a header that names an unknown kind is reported as such; every
/// other one is a corrupt object.
pub open spec fn opening(plain: Option<Seq<u8>>) -> Result<ObjectView, GitError> {
    match plain {
        None => Err(GitError::CorruptObject),
        Some(bytes) => match decoding(bytes) {
            Ok(o) => Ok(o),
            Err(GitError::UnknownObjectKind) => Err(GitError::UnknownObjectKind),
            Err(_) => Err(GitError::CorruptObject),
        },
    }
}

/// Decoding the encoding of an object gives the object back: its kind, its
/// declared size and its content.
pub proof fn lemma_decode_encode(o: ObjectView)
    ensures
        decoding(encoding(o)) == Ok::<ObjectView, GitError>(o),
{
    let name = o.object_type.name();
    let size_text = decimal_text(o.size as nat);
    let header = header_of(o);
    let bytes = encoding(o);
    o.object_type.lemma_name_round_trip();
    lemma_radix_text(o.size as nat, 10);
    lemma_parse_decimal(o.size);
    let n = header.len() as int;
    assert forall|j: int| 0 <= j < n implies bytes[j] != NUL by {
        if j < name.len() {
            assert(bytes[j] == name[j]);
        } else if j == name.len() {
            assert(bytes[j] == SPACE);
        } else {
            assert(bytes[j] == size_text[j - name.len() - 1]);
        }
    }
    assert(bytes[n] == NUL);
    lemma_position_is(bytes, NUL, n);
    assert(bytes.subrange(0, n) =~= header);
    assert(bytes.subrange(n + 1, bytes.len() as int) =~= o.content);
    let s = name.len() as int;
    assert forall|j: int| 0 <= j < s implies header[j] != SPACE by {
        assert(header[j] == name[j]);
    }
    assert(header[s] == SPACE);
    lemma_position_is(header, SPACE, s);
    assert(header.subrange(0, s) =~= name);
    assert(header.subrange(s + 1, header.len() as int) =~= size_text);
}

/// Objects with the same encoding are the same object.
pub proof fn lemma_encoding_injective(a: ObjectView, b: ObjectView)
    requires
        encoding(a) == encoding(b),
    ensures
        a == b,
{
    lemma_decode_encode(a);
    lemma_decode_encode(b);
}

impl Object {
    /// An object of the given kind whose content is the UTF-8 bytes of
    /// `content` and whose size is their number.
    pub fn new(object_type: ObjectType, content: String) -> (r: Object)
        ensures
            r@.object_type == object_type,
            r@.content == vstd::utf8::encode_utf8(content@),
            r@.size == r@.content.len(),
    {
        let bytes = slice_to_vec(content.as_str().as_bytes());
        Object { object_type, size: bytes.len(), content: bytes }
    }

    /// A blob holding the UTF-8 bytes of `content`.
    pub fn new_blob(content: String) -> (r: Object)
        ensures
            r@.object_type == ObjectType::Blob,
            r@.content == vstd::utf8::encode_utf8(content@),
            r@.size == r@.content.len(),
    {
        Object::new(ObjectType::Blob, content)
    }

    /// The canonical bytes of this object.
    pub fn encode(&self) -> (r: Vec<u8>)
        ensures
            r@ == encoding(self@),
    {
        let mut r = self.object_type.to_bytes();
        r.push(SPACE);
        let size_text = format_radix(self.size as u64, 10);
        append_bytes(&mut r, size_text.as_slice());
        r.push(NUL);
        append_bytes(&mut r, self.content.as_slice());
        assert(r@ =~= encoding(self@));
        r
    }

    /// Reads an object from its canonical bytes.
    pub fn decode(bytes: &[u8]) -> (r: Result<Object, GitError>)
        ensures
            match r {
                Ok(o) => decoding(bytes@) == Ok::<ObjectView, GitError>(o@),
                Err(e) => decoding(bytes@) == Err::<ObjectView, GitError>(e),
            },
    {
        let n = match find_byte(bytes, NUL) {
            Some(n) => n,
            None => {
                return Err(GitError::CorruptObject);
            },
        };
        proof {
            lemma_position_facts(bytes@, NUL);
        }
        let end = bytes.len();
        let header = slice_subrange(bytes, 0, n);
        let s = match find_byte(header, SPACE) {
            Some(s) => s,
            None => {
                return Err(GitError::MalformedHeader);
            },
        };
        proof {
            lemma_position_facts(header@, SPACE);
        }
        let size = match read_size(slice_subrange(header, s + 1, n)) {
            Some(size) => size,
            None => {
                return Err(GitError::MalformedHeader);
            },
        };
        let object_type = ObjectType::try_from(slice_subrange(header, 0, s))?;
        let content = copy_range(bytes, n + 1, end);
        Ok(Object { object_type, size, content })
    }

    /// The address of this object: the digest of its canonical bytes.
    pub fn hash(&self) -> (r: Digest)
        ensures
            r@ == sha1_of(encoding(self@)),
    {
        let bytes = self.encode();
        Digest::of(bytes.as_slice())
    }

    /// The bytes to store for this object: its canonical bytes as a zlib
    /// stream.
    pub fn compress(&self) -> (r: Result<Vec<u8>, GitError>)
        ensures
            match r {
                Ok(v) => compressed(deflated(encoding(self@))) == Ok::<Seq<u8>, GitError>(v@),
                Err(e) => compressed(deflated(encoding(self@))) == Err::<Seq<u8>, GitError>(e),
            },
    {
        let bytes = self.encode();
        compress(bytes.as_slice())
    }

    /// Reads an object from stored bytes: inflates them, then decodes.
    pub fn try_from(stored: &[u8]) -> (r: Result<Object, GitError>)
        ensures
            match r {
                Ok(o) => opening(inflated(stored@)) == Ok::<ObjectView, GitError>(o@),
                Err(e) => opening(inflated(stored@)) == Err::<ObjectView, GitError>(e),
            },
    {
        match decompress(stored) {
            Ok(plain) => Object::open(plain.as_slice()),
            Err(_) => Err(GitError::CorruptObject),
        }
    }

    /// Reads an object from inflated bytes as the store reads it: an unknown
    /// kind is reported as such, every other failure to decode is a corrupt
    /// object.
    pub fn open(plain: &[u8]) -> (r: Result<Object, GitError>)
        ensures
            match r {
                Ok(o) => opening(Some(plain@)) == Ok::<ObjectView, GitError>(o@),
                Err(e) => opening(Some(plain@)) == Err::<ObjectView, GitError>(e),
            },
    {
        match Object::decode(plain) {
            Ok(o) => Ok(o),
            Err(GitError::UnknownObjectKind) => Err(GitError::UnknownObjectKind),
            Err(_) => Err(GitError::CorruptObject),
        }
    }
}

} // verus!
