use git_objects::error::GitError;
use git_objects::kind::ObjectType;
use git_objects::object::Object;

fn object(object_type: ObjectType, size: usize, content: &[u8]) -> Object {
    Object { object_type, size, content: content.to_vec() }
}

fn same(a: &Object, b: &Object) -> bool {
    a.object_type == b.object_type && a.size == b.size && a.content == b.content
}

#[test]
fn blob_of_world_encodes_with_header() {
    let blob = Object::new_blob(String::from("world"));
    assert_eq!(blob.object_type, ObjectType::Blob);
    assert_eq!(blob.size, 5);
    assert_eq!(blob.encode(), b"blob 5\0world".to_vec());
}

#[test]
fn new_keeps_kind_and_counts_bytes() {
    let commit = Object::new(ObjectType::Commit, String::from("h\u{e9}llo"));
    assert_eq!(commit.object_type, ObjectType::Commit);
    assert_eq!(commit.size, 6);
    assert_eq!(commit.content, "h\u{e9}llo".as_bytes().to_vec());
    assert_eq!(commit.encode(), b"commit 6\0h\xc3\xa9llo".to_vec());
}

#[test]
fn empty_blob_encodes_to_header_alone() {
    assert_eq!(Object::new_blob(String::new()).encode(), b"blob 0\0".to_vec());
}

#[test]
fn kind_names() {
    assert_eq!(ObjectType::Blob.to_bytes(), b"blob".to_vec());
    assert_eq!(ObjectType::Tree.to_bytes(), b"tree".to_vec());
    assert_eq!(ObjectType::Commit.to_bytes(), b"commit".to_vec());
    assert_eq!(ObjectType::try_from(b"blob"), Ok(ObjectType::Blob));
    assert_eq!(ObjectType::try_from(b"tree"), Ok(ObjectType::Tree));
    assert_eq!(ObjectType::try_from(b"commit"), Ok(ObjectType::Commit));
    assert_eq!(ObjectType::try_from(b"tag"), Err(GitError::UnknownObjectKind));
    assert_eq!(ObjectType::try_from(b"Blob"), Err(GitError::UnknownObjectKind));
    assert_eq!(ObjectType::try_from(b""), Err(GitError::UnknownObjectKind));
    assert_eq!(ObjectType::try_from(b"blobs"), Err(GitError::UnknownObjectKind));
}

#[test]
fn decode_gives_back_what_was_encoded() {
    let cases = vec![
        object(ObjectType::Blob, 0, b""),
        object(ObjectType::Blob, 5, b"world"),
        object(ObjectType::Tree, 3, b"a\0b"),
        object(ObjectType::Commit, 12, b"tree 0\0 more"),
        object(ObjectType::Blob, 1234567, b"short"),
        object(ObjectType::Blob, usize::MAX, b"\0\0 \0"),
    ];
    for o in cases.iter() {
        let back = Object::decode(&o.encode()).unwrap();
        assert!(same(o, &back));
    }
}

#[test]
fn decode_reads_kind_size_and_content() {
    let o = Object::decode(b"tree 7\0abc\0def").unwrap();
    assert_eq!(o.object_type, ObjectType::Tree);
    assert_eq!(o.size, 7);
    assert_eq!(o.content, b"abc\0def".to_vec());
}

#[test]
fn decode_does_not_hold_content_to_the_declared_size() {
    let o = Object::decode(b"blob 99\0abc").unwrap();
    assert_eq!(o.size, 99);
    assert_eq!(o.content, b"abc".to_vec());
    let o = Object::decode(b"blob 0\0abc").unwrap();
    assert_eq!(o.size, 0);
    assert_eq!(o.content, b"abc".to_vec());
}

#[test]
fn decode_without_terminator_is_corrupt() {
    assert_eq!(Object::decode(b"blob 5world").err(), Some(GitError::CorruptObject));
    assert_eq!(Object::decode(b"").err(), Some(GitError::CorruptObject));
}

#[test]
fn decode_without_space_is_malformed() {
    assert_eq!(Object::decode(b"blob5\0world").err(), Some(GitError::MalformedHeader));
    assert_eq!(Object::decode(b"\0world").err(), Some(GitError::MalformedHeader));
}

#[test]
fn decode_with_bad_size_is_malformed() {
    assert_eq!(Object::decode(b"blob five\0world").err(), Some(GitError::MalformedHeader));
    assert_eq!(Object::decode(b"blob \0world").err(), Some(GitError::MalformedHeader));
    assert_eq!(Object::decode(b"blob -5\0world").err(), Some(GitError::MalformedHeader));
    assert_eq!(Object::decode(b"blob 5 \0world").err(), Some(GitError::MalformedHeader));
    assert_eq!(Object::decode(b"blob  5\0world").err(), Some(GitError::MalformedHeader));
    assert_eq!(Object::decode(b"blob +\0world").err(), Some(GitError::MalformedHeader));
    assert_eq!(Object::decode(b"blob 5x\0world").err(), Some(GitError::MalformedHeader));
}

#[test]
fn decode_with_size_too_large_is_malformed() {
    let text = format!("blob {}0\0", usize::MAX);
    assert_eq!(Object::decode(text.as_bytes()).err(), Some(GitError::MalformedHeader));
    let text = format!("blob {}\0", usize::MAX);
    assert_eq!(Object::decode(text.as_bytes()).unwrap().size, usize::MAX);
}

#[test]
fn decode_takes_a_plus_sign_and_leading_zeros() {
    assert_eq!(Object::decode(b"blob +5\0world").unwrap().size, 5);
    assert_eq!(Object::decode(b"blob 0005\0world").unwrap().size, 5);
}

#[test]
fn decode_with_unknown_kind() {
    assert_eq!(Object::decode(b"tag 5\0world").err(), Some(GitError::UnknownObjectKind));
    assert_eq!(Object::decode(b" 5\0world").err(), Some(GitError::UnknownObjectKind));
    assert_eq!(Object::decode(b"blob\xff 5\0world").err(), Some(GitError::UnknownObjectKind));
}

#[test]
fn decode_reads_the_size_before_the_kind() {
    assert_eq!(Object::decode(b"tag x\0world").err(), Some(GitError::MalformedHeader));
}

#[test]
fn stored_bytes_open_to_the_object() {
    let o = object(ObjectType::Blob, 11, b"hello world");
    let stored = o.compress().unwrap();
    assert_ne!(stored, o.encode());
    let back = Object::try_from(&stored).unwrap();
    assert!(same(&o, &back));
}

#[test]
fn stored_bytes_are_a_zlib_stream() {
    let stored = Object::new_blob(String::from("world")).compress().unwrap();
    assert_eq!(stored[0], 0x78);
    let plain = git_objects::zlib::decompress(&stored).unwrap();
    assert_eq!(plain, b"blob 5\0world".to_vec());
}

#[test]
fn opening_what_is_no_stream_is_corrupt() {
    assert_eq!(Object::try_from(b"blob 5\0world").err(), Some(GitError::CorruptObject));
    assert_eq!(Object::try_from(b"").err(), Some(GitError::CorruptObject));
    assert_eq!(git_objects::zlib::decompress(b"nonsense").err(), Some(GitError::CorruptObject));
}

#[test]
fn opening_a_stream_with_a_malformed_header_is_corrupt() {
    let stored = git_objects::zlib::compress(b"blob x\0world").unwrap();
    assert_eq!(Object::try_from(&stored).err(), Some(GitError::CorruptObject));
    let stored = git_objects::zlib::compress(b"blob5\0world").unwrap();
    assert_eq!(Object::try_from(&stored).err(), Some(GitError::CorruptObject));
    let stored = git_objects::zlib::compress(b"blob 5world").unwrap();
    assert_eq!(Object::try_from(&stored).err(), Some(GitError::CorruptObject));
    assert_eq!(Object::open(b"blob x\0world").err(), Some(GitError::CorruptObject));
    assert_eq!(Object::decode(b"blob x\0world").err(), Some(GitError::MalformedHeader));
    assert_eq!(Object::open(b"no terminator").err(), Some(GitError::CorruptObject));
}

#[test]
fn opening_a_stream_with_an_unknown_kind() {
    let stored = git_objects::zlib::compress(b"blub 5\0world").unwrap();
    assert_eq!(Object::try_from(&stored).err(), Some(GitError::UnknownObjectKind));
    let stored = git_objects::zlib::compress(b"tag 5\0world").unwrap();
    assert_eq!(Object::try_from(&stored).err(), Some(GitError::UnknownObjectKind));
    assert_eq!(Object::open(b"tag 5\0world").err(), Some(GitError::UnknownObjectKind));
    assert_eq!(Object::open(b"blub 5\0world").err(), Some(GitError::UnknownObjectKind));
    assert_eq!(Object::decode(b"blub 5\0world").err(), Some(GitError::UnknownObjectKind));
}

#[test]
fn opening_reads_the_size_before_the_kind() {
    assert_eq!(Object::open(b"tag x\0world").err(), Some(GitError::CorruptObject));
}
