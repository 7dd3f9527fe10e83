use git_objects::digest::Digest;
use git_objects::error::GitError;
use git_objects::kind::ObjectType;
use git_objects::object::Object;

#[test]
fn digest_of_no_bytes() {
    assert_eq!(Digest::of(b"").to_hex(), "da39a3ee5e6b4b0d3255bfef95601890afd80709");
}

#[test]
fn address_of_the_empty_blob() {
    let blob = Object::new_blob(String::new());
    assert_eq!(blob.encode(), b"blob 0\0".to_vec());
    assert_eq!(blob.hash().to_hex(), "e69de29bb2d1d6434b8b29ae775ad8c2e48c5391");
    assert_eq!(blob.hash().to_hex(), Digest::of(b"blob 0\0").to_hex());
}

#[test]
fn address_of_the_blob_world() {
    let blob = Object::new_blob(String::from("world"));
    assert_eq!(blob.hash().to_hex(), "04fea06420ca60892f73becee3614f6d023a4b7f");
}

#[test]
fn address_is_of_the_encoding_not_of_the_content() {
    let blob = Object::new_blob(String::from("world"));
    assert_ne!(blob.hash().to_hex(), Digest::of(b"world").to_hex());
    let tree = Object { object_type: ObjectType::Tree, size: 5, content: b"world".to_vec() };
    assert_ne!(blob.hash().to_hex(), tree.hash().to_hex());
}

#[test]
fn hashing_twice_gives_one_digest() {
    let blob = Object::new_blob(String::from("some text\n"));
    let first = blob.hash();
    let second = blob.hash();
    assert!(first.same(&second));
    assert_eq!(first.bytes, second.bytes);
    assert!(!first.same(&Object::new_blob(String::from("some text")).hash()));
}

#[test]
fn hex_text_of_a_digest() {
    let mut bytes = [0u8; 20];
    for i in 0..20 {
        bytes[i] = (i * 13 + 7) as u8;
    }
    let d = Digest { bytes };
    assert_eq!(d.to_hex(), "0714212e3b4855626f7c8996a3b0bdcad7e4f1fe");
    assert_eq!(d.hex_bytes(), b"0714212e3b4855626f7c8996a3b0bdcad7e4f1fe".to_vec());
    assert_eq!(Digest::from_hex(&d.to_hex()).unwrap().bytes, bytes);
}

#[test]
fn digest_from_hex_of_either_case() {
    let lower = Digest::from_hex("da39a3ee5e6b4b0d3255bfef95601890afd80709").unwrap();
    let upper = Digest::from_hex("DA39A3EE5E6B4B0D3255BFEF95601890AFD80709").unwrap();
    let mixed = Digest::from_hex("dA39a3Ee5e6B4b0d3255bfef95601890AFD80709").unwrap();
    assert_eq!(lower.bytes[0], 0xda);
    assert_eq!(lower.bytes[1], 0x39);
    assert_eq!(lower.bytes[19], 0x09);
    assert!(lower.same(&upper));
    assert!(lower.same(&mixed));
    assert_eq!(upper.to_hex(), "da39a3ee5e6b4b0d3255bfef95601890afd80709");
}

#[test]
fn digest_from_bad_hex() {
    let err = |text: &str| Digest::from_hex(text).err();
    assert_eq!(err(""), Some(GitError::InvalidDigest));
    assert_eq!(err("da39"), Some(GitError::InvalidDigest));
    assert_eq!(err("da39a3ee5e6b4b0d3255bfef95601890afd8070"), Some(GitError::InvalidDigest));
    assert_eq!(err("da39a3ee5e6b4b0d3255bfef95601890afd807090"), Some(GitError::InvalidDigest));
    assert_eq!(err("da39a3ee5e6b4b0d3255bfef95601890afd8070900"), Some(GitError::InvalidDigest));
    assert_eq!(err("ga39a3ee5e6b4b0d3255bfef95601890afd80709"), Some(GitError::InvalidDigest));
    assert_eq!(err("da39a3ee5e6b4b0d3255bfef95601890afd8070 "), Some(GitError::InvalidDigest));
    assert_eq!(err("\u{e9}a39a3ee5e6b4b0d3255bfef95601890afd8070"), Some(GitError::InvalidDigest));
}

#[test]
fn digest_from_raw_bytes() {
    assert_eq!(Digest::from_slice(&[7u8; 20]).unwrap().bytes, [7u8; 20]);
    assert_eq!(Digest::from_slice(&[7u8; 19]).err(), Some(GitError::InvalidDigest));
    assert_eq!(Digest::from_slice(&[7u8; 21]).err(), Some(GitError::InvalidDigest));
    assert_eq!(Digest::from_slice(&[]).err(), Some(GitError::InvalidDigest));
}
