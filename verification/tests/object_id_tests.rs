use git_rs::object_id::ObjectId;
use git_rs::object_type::ObjectType;

#[test]
fn from_str() {
    let s = "85df50785d62d3b05ab03d9cbf7e4a0b49449730";
    assert!(ObjectId::from_str(s).is_ok());

    let s = "wrong format";
    assert!(ObjectId::from_str(s).is_err());
}

#[test]
fn from_bytes() {
    let bytes = &[0; 20];
    assert!(ObjectId::from_bytes(bytes).is_ok());

    let short = &[1, 2, 3, 4];
    assert!(ObjectId::from_bytes(short).is_err());

    let long = &[1; 21];
    assert!(ObjectId::from_bytes(long).is_err());
}

#[test]
fn from_bytes_and_from_str_equals() {
    let bytes = b"\x00\x68\x5f\x1c\x06\x8f\xc3\x32\x30\x76\x91\x78\xcf\xa3\xd3\xb7\x1f\x8d\x99\x4b";
    let str = "00685f1c068fc33230769178cfa3d3b71f8d994b";
    assert_eq!(
        ObjectId::from_bytes(bytes).unwrap(),
        ObjectId::from_str(str).unwrap()
    );
}

#[test]
fn hex_name_round_trip() {
    let s = "00685f1c068fc33230769178cfa3d3b71f8d994b";
    let id = ObjectId::from_str(s).unwrap();
    assert_eq!(id.to_string(), s);
    assert_eq!(ObjectId::from_str(&id.to_string()).unwrap(), id);
    assert_eq!(ObjectId::zero().to_string(), "0".repeat(40));
    assert_eq!(ObjectId::from_str("00685F1C068FC33230769178CFA3D3B71F8D994B").unwrap(), id);
    assert!(ObjectId::from_str("00685f1c068fc33230769178cfa3d3b71f8d994").is_err());
}

#[test]
fn object_type_names() {
    assert_eq!(ObjectType::from(b"tag"), Some(ObjectType::Tag));
    assert_eq!(ObjectType::from(b"Tag"), None);
    assert_eq!(ObjectType::Commit.as_bytes(), b"commit");
    assert_eq!(ObjectType::Tree.as_str(), "tree");
}

#[test]
fn object_type_text_agrees_with_bytes() {
    let all = [ObjectType::Blob, ObjectType::Tree, ObjectType::Commit, ObjectType::Tag];
    let names = ["blob", "tree", "commit", "tag"];
    for (t, n) in all.iter().zip(names.iter()) {
        assert_eq!(t.as_str(), *n);
        assert_eq!(t.as_str().as_bytes(), t.as_bytes());
    }
}
