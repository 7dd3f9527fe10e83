use vstd::prelude::*;
use vstd::array::*;
use vstd::slice::*;
use vstd::string::*;
use crate::error::GitError;

verus! {

/// The SHA-1 hash of a byte string. The hash is computed outside this
/// library; nothing is known of it here but its length.
pub uninterp spec fn sha1_of(data: Seq<u8>) -> Seq<u8>;

/// The lowercase hexadecimal digit for a value below sixteen.
pub open spec fn hex_digit(n: int) -> char {
    if n < 10 {
        (48 + n) as u8 as char
    } else {
        (87 + n) as u8 as char
    }
}

/// Bytes written as lowercase hexadecimal text, two digits a byte, the high
/// half first.
pub open spec fn hex_chars(b: Seq<u8>) -> Seq<char> {
    Seq::new(
        2 * b.len(),
        |i: int|
            if i % 2 == 0 {
                hex_digit(b[i / 2] as int / 16)
            } else {
                hex_digit(b[i / 2] as int % 16)
            },
    )
}

/// The ASCII codes of `hex_chars`: hexadecimal text as bytes.
pub open spec fn hex_ascii(b: Seq<u8>) -> Seq<u8> {
    Seq::new(2 * b.len(), |i: int| hex_chars(b)[i] as u8)
}

/// Hexadecimal text is ASCII, so its UTF-8 bytes are its characters' codes.
pub proof fn lemma_hex_is_ascii(b: Seq<u8>)
    ensures
        vstd::utf8::is_ascii_chars(hex_chars(b)),
        vstd::utf8::encode_utf8(hex_chars(b)) == hex_ascii(b),
{
    let chars = hex_chars(b);
    assert forall|i: int| 0 <= i < chars.len() implies '\0' <= #[trigger] chars[i] <= '\u{7f}' by {
        let n: int = if i % 2 == 0 {
            b[i / 2] as int / 16
        } else {
            b[i / 2] as int % 16
        };
        assert(0 <= n < 16);
        assert(chars[i] == hex_digit(n));
    }
    vstd::utf8::is_ascii_chars_encode_utf8(chars);
    assert(vstd::utf8::encode_utf8(chars) =~= hex_ascii(b));
}

/// The value of one hexadecimal digit given by its ASCII code, in either
/// case.
pub open spec fn hex_val(c: u8) -> Option<int> {
    if 48 <= c <= 57 {
        Some(c - 48)
    } else if 97 <= c <= 102 {
        Some(c - 87)
    } else if 65 <= c <= 70 {
        Some(c - 55)
    } else {
        None
    }
}

/// Text that reads as hexadecimal: an even number of digits.
pub open spec fn is_hex_text(t: Seq<u8>) -> bool {
    &&& t.len() % 2 == 0
    &&& forall|i: int| 0 <= i < t.len() ==> (#[trigger] hex_val(t[i])) is Some
}

/// The bytes that hexadecimal text stands for.
pub open spec fn hex_value(t: Seq<u8>) -> Seq<u8> {
    Seq::new(
        t.len() / 2,
        |i: int| (hex_val(t[2 * i]).unwrap() * 16 + hex_val(t[2 * i + 1]).unwrap()) as u8,
    )
}

/// The hexadecimal text of bytes reads back as those bytes.
pub proof fn lemma_hex_round_trip(b: Seq<u8>)
    ensures
        is_hex_text(hex_ascii(b)),
        hex_value(hex_ascii(b)) == b,
{
    let t = hex_ascii(b);
    assert forall|i: int| 0 <= i < t.len() implies (#[trigger] hex_val(t[i])) is Some by {
        lemma_hex_digit_value(b[i / 2] as int / 16);
        lemma_hex_digit_value(b[i / 2] as int % 16);
    }
    assert forall|i: int| 0 <= i < b.len() implies #[trigger] hex_value(t)[i] == b[i] by {
        lemma_hex_digit_value(b[i] as int / 16);
        lemma_hex_digit_value(b[i] as int % 16);
        assert(t[2 * i] == hex_digit(b[(2 * i) / 2] as int / 16) as u8);
        assert(t[2 * i + 1] == hex_digit(b[(2 * i + 1) / 2] as int % 16) as u8);
    }
    assert(hex_value(t) =~= b);
}

/// A hexadecimal digit stands for the value it was written for.
pub proof fn lemma_hex_digit_value(n: int)
    requires
        0 <= n < 16,
    ensures
        hex_val(hex_digit(n) as u8) == Some(n),
{
}

/// `hex::FromHexError`, the error of `hex::decode`; nothing is read of it.
#[verifier::external_type_specification]
#[verifier::external_body]
pub struct ExFromHexError(hex::FromHexError);

/// `sha1::Sha1::digest`: the twenty bytes of the SHA-1 hash of `data`. That
/// equal inputs hash alike, and that the output has twenty bytes, is all that
/// is claimed.
#[verifier::external_body]
fn sha1(data: &[u8]) -> (r: [u8; 20])
    ensures
        r@ == sha1_of(data@),
{
    <sha1::Sha1 as sha1::Digest>::digest(data).into()
}

/// `hex::encode`: each byte becomes two lowercase hexadecimal digits.
#[verifier::external_body]
fn hex_encode(bytes: &[u8]) -> (r: String)
    ensures
        r@ == hex_chars(bytes@),
{
    hex::encode(bytes)
}

/// `hex::decode`: succeeds on an even number of hexadecimal digits of
/// either case and gives one byte for each pair, the first digit being the
/// high half; fails on every other text.
#[verifier::external_body]
fn hex_decode(text: &[u8]) -> (r: Result<Vec<u8>, hex::FromHexError>)
    ensures
        match r {
            Ok(v) => is_hex_text(text@) && v@ == hex_value(text@),
            Err(_) => !is_hex_text(text@),
        },
{
    hex::decode(text)
}

/// The address of an object: the 160-bit hash of its encoded form.
#[derive(Clone, Copy, Debug)]
pub struct Digest {
    pub bytes: [u8; 20],
}

impl View for Digest {
    type V = Seq<u8>;

    open spec fn view(&self) -> Seq<u8> {
        self.bytes@
    }
}

impl Digest {
    /// The digest of `data`.
    pub fn of(data: &[u8]) -> (r: Digest)
        ensures
            r@ == sha1_of(data@),
    {
        Digest { bytes: sha1(data) }
    }

    /// The digest as forty lowercase hexadecimal digits.
    pub fn to_hex(&self) -> (r: String)
        ensures
            r@ == hex_chars(self@),
    {
        hex_encode(array_as_slice(&self.bytes))
    }

    /// The digest as the forty ASCII codes of its hexadecimal digits.
    pub fn hex_bytes(&self) -> (r: Vec<u8>)
        ensures
            r@ == hex_ascii(self@),
            r@.len() == 40,
    {
        let text = self.to_hex();
        proof {
            lemma_hex_is_ascii(self@);
        }
        slice_to_vec(text.as_str().as_bytes())
    }

    /// Reads a digest written as forty hexadecimal digits of either case.
    pub fn from_hex(text: &str) -> (r: Result<Digest, GitError>)
        ensures
            match r {
                Ok(d) => text.spec_bytes().len() == 40 && is_hex_text(text.spec_bytes())
                    && d@ == hex_value(text.spec_bytes()),
                Err(e) => e == GitError::InvalidDigest && !(text.spec_bytes().len() == 40
                    && is_hex_text(text.spec_bytes())),
            },
    {
        let raw = text.as_bytes();
        match hex_decode(raw) {
            Ok(v) => {
                assert(v@.len() == raw@.len() / 2);
                Digest::from_slice(v.as_slice())
            },
            Err(_) => Err(GitError::InvalidDigest),
        }
    }

    /// A digest from its twenty raw bytes.
    pub fn from_slice(raw: &[u8]) -> (r: Result<Digest, GitError>)
        ensures
            match r {
                Ok(d) => d@ == raw@,
                Err(e) => e == GitError::InvalidDigest && raw@.len() != 20,
            },
    {
        if raw.len() != 20 {
            return Err(GitError::InvalidDigest);
        }
        let mut bytes: [u8; 20] = [0u8; 20];
        let mut i: usize = 0;
        while i < 20
            invariant
                i <= 20,
                raw@.len() == 20,
                forall|j: int| 0 <= j < i ==> bytes@[j] == raw@[j],
            decreases 20 - i,
        {
            bytes[i] = raw[i];
            i += 1;
        }
        assert(bytes@ =~= raw@);
        Ok(Digest { bytes })
    }

    /// Whether two digests are the same address.
    pub fn same(&self, other: &Digest) -> (r: bool)
        ensures
            r == (self@ == other@),
    {
        crate::bytes::bytes_eq(array_as_slice(&self.bytes), array_as_slice(&other.bytes))
    }
}

} // verus!
