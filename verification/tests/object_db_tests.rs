use git_rs::object_db::{
    build_object_header, decode_loose_object, encode_loose_object, hash_buffer,
    loose_object_path, parse_object_type_and_content, Error, IOdb, Object, ObjectMap,
};
use git_rs::blob::Blob;
use git_rs::object_id::ObjectId;
use git_rs::object_type::ObjectType;

#[test]
fn hash_buffer_blob() {
    let data = b"abcd";
    let expected_oid = "85df50785d62d3b05ab03d9cbf7e4a0b49449730";
    let expected_oid = ObjectId::from_str(expected_oid).unwrap();

    let actual_oid = hash_buffer(data, ObjectType::Blob);
    assert_eq!(expected_oid, actual_oid);
}

#[test]
fn write_object() {
    let data = b"abcd";
    let expected_oid = "85df50785d62d3b05ab03d9cbf7e4a0b49449730";
    let expected_oid = ObjectId::from_str(expected_oid).unwrap();
    let expected_buffer =
        b"\x78\x01\x4b\xca\xc9\x4f\x52\x30\x61\x48\x4c\x4a\x4e\x01\x00\x15\x5c\x03\x7e";

    let (actual_oid, buffer) = encode_loose_object(&data[..], ObjectType::Blob).unwrap();

    assert_eq!(expected_oid, actual_oid);
    assert_eq!(expected_buffer, &buffer[..]);
}

#[test]
fn read_object() {
    let data = b"blob 4\0abcd";
    let (object_type, content) = parse_object_type_and_content(data).unwrap();
    assert_eq!(object_type, ObjectType::Blob);
    assert_eq!(content, b"abcd");
}

#[test]
fn object_header_and_parse_errors() {
    assert_eq!(build_object_header(ObjectType::Commit, 120), b"commit 120\0".to_vec());
    assert!(matches!(parse_object_type_and_content(b"blob 5\0abcd"), Err(Error::CorruptedObject)));
    assert!(matches!(parse_object_type_and_content(b"blub 4\0abcd"), Err(Error::CorruptedObject)));
    assert!(matches!(parse_object_type_and_content(b"blob4abcd"), Err(Error::CorruptedObject)));
    assert!(matches!(parse_object_type_and_content(b"tree x\0"), Err(Error::CorruptedObject)));
    let (t, c) = parse_object_type_and_content(b"tree 0\0").unwrap();
    assert_eq!(t, ObjectType::Tree);
    assert!(c.is_empty());
}

#[test]
fn loose_object_stored_then_loaded() {
    let (id, z) = encode_loose_object(b"hello\n", ObjectType::Blob).unwrap();
    let (t, c) = decode_loose_object(&id, &z).unwrap();
    assert_eq!(t, ObjectType::Blob);
    assert_eq!(c, b"hello\n".to_vec());
    assert!(matches!(decode_loose_object(&ObjectId::zero(), &z), Err(Error::HashMismatch)));
    assert!(matches!(decode_loose_object(&id, b"not zlib"), Err(Error::CannotLoadObject(_))));
    let (dir, file) = loose_object_path(&id);
    let hex = id.to_string();
    assert_eq!(dir, hex.as_bytes()[..2].to_vec());
    assert_eq!(file, hex.as_bytes()[2..].to_vec());
}

#[test]
fn object_kinds() {
    let o = Object::Blob(Blob::new(b"x".to_vec()));
    assert_eq!(o.clone().get_blob().unwrap().data, b"x".to_vec());
    assert!(matches!(o.get_tree(), Err(Error::UnexpectedObjectType)));
}

#[test]
fn object_map_reads_back_what_it_holds() {
    let mut store = ObjectMap::new();
    let name = git_rs::object_id::ObjectId::from_str(&"1".repeat(40)).unwrap();
    assert!(matches!(store.read_object(name), Err(git_rs::object_db::Error::NotFound)));
    store.insert(name, Object::Blob(git_rs::blob::Blob::new(b"first".to_vec())));
    store.insert(name, Object::Blob(git_rs::blob::Blob::new(b"second".to_vec())));
    assert_eq!(store.read_blob(name).unwrap().data, b"second".to_vec());
    assert!(matches!(store.read_tree(name), Err(git_rs::object_db::Error::UnexpectedObjectType)));

    let written = store.write_blob(&git_rs::blob::Blob::new(b"hello".to_vec())).unwrap();
    assert_eq!(written.to_string(), "b6fc4c620b67d95f953a5c1c1230aaab5db5a1b0");
    assert_eq!(store.read_blob(written).unwrap().data, b"hello".to_vec());
    let again = store.write_blob(&git_rs::blob::Blob::new(b"hello".to_vec())).unwrap();
    assert_eq!(again, written);
    assert_eq!(store.read_blob(name).unwrap().data, b"second".to_vec());
}
