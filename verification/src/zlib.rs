use vstd::prelude::*;
use crate::error::GitError;

verus! {

/// The zlib stream that the compressor makes of `data` at its fastest
/// level, or nothing where it fails. The stream is computed outside this
/// library.
pub uninterp spec fn deflated(data: Seq<u8>) -> Option<Seq<u8>>;

/// The bytes that a zlib stream inflates to, or nothing where `data` is no
/// such stream. They are computed outside this library.
pub uninterp spec fn inflated(data: Seq<u8>) -> Option<Seq<u8>>;

/// `std::io::Error`, the error of reading a zlib stream to its end;
/// nothing is read of it.
#[verifier::external_type_specification]
#[verifier::external_body]
pub struct ExIoError(std::io::Error);

/// `flate2::read::ZlibEncoder` over `data` at `Compression::fast()`, read to
/// its end. The output depends on `data` alone; no more is claimed.
#[verifier::external_body]
fn zlib_encode(data: &[u8]) -> (r: Result<Vec<u8>, std::io::Error>)
    ensures
        match r {
            Ok(v) => deflated(data@) == Some(v@),
            Err(_) => deflated(data@) is None,
        },
{
    let mut out = Vec::new();
    let source = std::io::Cursor::new(data);
    let mut encoder = flate2::read::ZlibEncoder::new(source, flate2::Compression::fast());
    match std::io::Read::read_to_end(&mut encoder, &mut out) {
        Ok(_) => Ok(out),
        Err(e) => Err(e),
    }
}

/// `flate2::read::ZlibDecoder` over `data`, read to its end. The output
/// depends on `data` alone; no more is claimed.
#[verifier::external_body]
fn zlib_decode(data: &[u8]) -> (r: Result<Vec<u8>, std::io::Error>)
    ensures
        match r {
            Ok(v) => inflated(data@) == Some(v@),
            Err(_) => inflated(data@) is None,
        },
{
    let mut out = Vec::new();
    let mut decoder = flate2::read::ZlibDecoder::new(data);
    match std::io::Read::read_to_end(&mut decoder, &mut out) {
        Ok(_) => Ok(out),
        Err(e) => Err(e),
    }
}

/// What `compress` answers once the compressor has spoken.
pub open spec fn compressed(stream: Option<Seq<u8>>) -> Result<Seq<u8>, GitError> {
    match stream {
        Some(s) => Ok(s),
        None => Err(GitError::IOError),
    }
}

/// What `decompress` answers once the decompressor has spoken.
pub open spec fn decompressed(plain: Option<Seq<u8>>) -> Result<Seq<u8>, GitError> {
    match plain {
        Some(s) => Ok(s),
        None => Err(GitError::CorruptObject),
    }
}

/// Compresses `data` into a zlib stream.
pub fn compress(data: &[u8]) -> (r: Result<Vec<u8>, GitError>)
    ensures
        match r {
            Ok(v) => compressed(deflated(data@)) == Ok::<Seq<u8>, GitError>(v@),
            Err(e) => compressed(deflated(data@)) == Err::<Seq<u8>, GitError>(e),
        },
{
    match zlib_encode(data) {
        Ok(v) => Ok(v),
        Err(_) => Err(GitError::IOError),
    }
}

/// Inflates a zlib stream; bytes that are no such stream are a corrupt
/// object.
pub fn decompress(data: &[u8]) -> (r: Result<Vec<u8>, GitError>)
    ensures
        match r {
            Ok(v) => decompressed(inflated(data@)) == Ok::<Seq<u8>, GitError>(v@),
            Err(e) => decompressed(inflated(data@)) == Err::<Seq<u8>, GitError>(e),
        },
{
    match zlib_decode(data) {
        Ok(v) => Ok(v),
        Err(_) => Err(GitError::CorruptObject),
    }
}

} // verus!
