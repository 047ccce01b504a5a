use git_rs::object_id::ObjectId;
use git_rs::object_type::ObjectType;
use git_rs::signature::Signature;
use git_rs::tag::{read_tag_from_buffer, write_tag_ext, write_tag_to_buffer, Tag};
use git_rs::time::Time;

#[test]
fn write_tag() {
    let object_id = ObjectId::from_str("85df50785d62d3b05ab03d9cbf7e4a0b49449730").unwrap();
    let object_type = ObjectType::Commit;
    let tag_name = "tag_name";
    let tagger = Signature::build("author", "author@email", Time::new(1771253662, 10800)).unwrap();
    let message = "message";

    let buffer = write_tag_ext(&object_id, object_type, tag_name, &tagger, message);

    let expected_data = b"object 85df50785d62d3b05ab03d9cbf7e4a0b49449730\ntype commit\ntag tag_name\ntagger author <author@email> 1771253662 +0300\n\nmessage\n";
    assert_eq!(expected_data, &buffer[..]);
}

#[test]
fn read_tag() {
    let data = b"object 85df50785d62d3b05ab03d9cbf7e4a0b49449730\ntype commit\ntag tag_name\ntagger author <author@email> 1771253662 +0300\n\nmessage\n";
    let tag = read_tag_from_buffer(data).unwrap();

    assert_eq!(
        tag.object_id,
        ObjectId::from_str("85df50785d62d3b05ab03d9cbf7e4a0b49449730").unwrap()
    );
    assert_eq!(tag.object_type, ObjectType::Commit);
    assert_eq!(tag.name, "tag_name");
    assert_eq!(
        tag.tagger,
        Signature {
            name: String::from("author"),
            email: String::from("author@email"),
            time: Time {
                unix_time: 1771253662,
                offset: 10800
            },
        }
    );
    assert_eq!(tag.message, "message");
}

#[test]
fn tag_written_then_read_back() {
    let tag = Tag {
        object_id: ObjectId::zero(),
        object_type: ObjectType::Tree,
        tagger: Signature::build("t", "t@t", Time::new(0, -60)).unwrap(),
        name: String::from("v1.0"),
        message: String::from("release"),
    };
    let bytes = write_tag_to_buffer(&tag);
    let back = read_tag_from_buffer(&bytes).unwrap();
    assert_eq!(back.object_id, tag.object_id);
    assert_eq!(back.object_type, tag.object_type);
    assert_eq!(back.tagger, tag.tagger);
    assert_eq!(back.name, tag.name);
    assert_eq!(back.message, tag.message);
    assert!(read_tag_from_buffer(b"object 85df50785d62d3b05ab03d9cbf7e4a0b49449730\ntype thing\n").is_none());
}
