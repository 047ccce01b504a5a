use git_rs::commit::{read_commit_from_buffer, write_commit_ext, Commit};
use git_rs::object_id::ObjectId;
use git_rs::signature::{AuthorInfo, CommitterInfo, Signature};
use git_rs::time::Time;

#[test]
fn write_commit() {
    let tree_id = ObjectId::from_str("85df50785d62d3b05ab03d9cbf7e4a0b49449730").unwrap();
    let parents = [
        ObjectId::from_str("15df50785d62d3b05ab03d9cbf7e4a0b49449730").unwrap(),
        ObjectId::from_str("25df50785d62d3b05ab03d9cbf7e4a0b49449730").unwrap(),
    ];
    let author = Signature::build("author", "author@email", Time::new(1771253662, 10800)).unwrap();
    let committer =
        Signature::build("committer", "commiter@email", Time::new(1771253662, 10800)).unwrap();
    let message = "Commit message";

    let buffer = write_commit_ext(&tree_id, &parents, &author, &committer, &message);

    let expected_data = b"tree 85df50785d62d3b05ab03d9cbf7e4a0b49449730\nparent 15df50785d62d3b05ab03d9cbf7e4a0b49449730\nparent 25df50785d62d3b05ab03d9cbf7e4a0b49449730\nauthor author <author@email> 1771253662 +0300\ncommitter committer <commiter@email> 1771253662 +0300\n\nCommit message\n";
    assert_eq!(expected_data, &buffer[..]);
}

#[test]
fn read_commit() {
    let data = b"tree 85df50785d62d3b05ab03d9cbf7e4a0b49449730\nparent 15df50785d62d3b05ab03d9cbf7e4a0b49449730\nparent 25df50785d62d3b05ab03d9cbf7e4a0b49449730\nauthor author <author@email> 1771253662 +0300\ncommitter committer <commiter@email> 1771253662 +0300\n\nmessage\n";
    let commit = read_commit_from_buffer(data).unwrap();

    assert_eq!(
        commit.tree_id,
        ObjectId::from_str("85df50785d62d3b05ab03d9cbf7e4a0b49449730").unwrap()
    );

    assert_eq!(commit.parents.len(), 2);
    assert_eq!(
        commit.parents[0],
        ObjectId::from_str("15df50785d62d3b05ab03d9cbf7e4a0b49449730").unwrap()
    );
    assert_eq!(
        commit.parents[1],
        ObjectId::from_str("25df50785d62d3b05ab03d9cbf7e4a0b49449730").unwrap()
    );
    assert_eq!(
        commit.author,
        Signature {
            name: String::from("author"),
            email: String::from("author@email"),
            time: Time {
                unix_time: 1771253662,
                offset: 10800
            },
        }
    );
    assert_eq!(
        commit.committer,
        Signature {
            name: String::from("committer"),
            email: String::from("commiter@email"),
            time: Time {
                unix_time: 1771253662,
                offset: 10800
            },
        }
    );
    assert_eq!(commit.message, "message");
}

#[test]
fn commit_write_then_read_gives_it_back() {
    let author = Signature::build("A U Thor", "a@x.org", Time::new(7, -3600)).unwrap();
    let committer = Signature::build("C O Mitter", "c@x.org", Time::new(8, 7230)).unwrap();
    let commit = Commit::new(
        ObjectId::from_str("00685f1c068fc33230769178cfa3d3b71f8d994b").unwrap(),
        vec![ObjectId::zero()],
        AuthorInfo(author),
        CommitterInfo(committer),
        String::from("one line"),
    );
    let bytes = git_rs::commit::write_commit(&commit);
    let back = read_commit_from_buffer(&bytes).unwrap();
    assert_eq!(back, commit);
}

#[test]
fn commit_offset_remainder_past_two_digits_reads_back_cut() {
    let author = Signature::build("a", "a@x", Time::new(8, 1800)).unwrap();
    let commit = Commit::new(
        ObjectId::zero(),
        vec![],
        AuthorInfo(author.clone()),
        CommitterInfo(author),
        String::from("m"),
    );
    let back = read_commit_from_buffer(&git_rs::commit::write_commit(&commit)).unwrap();
    assert_eq!(back.author.time.offset, 18);
}

#[test]
fn commit_without_parents_and_bad_inputs() {
    let data = b"tree 85df50785d62d3b05ab03d9cbf7e4a0b49449730\nauthor a <b> 1 +0000\ncommitter c <d> 2 -0100\n\nm\n";
    let commit = read_commit_from_buffer(data).unwrap();
    assert!(commit.parents.is_empty());
    assert_eq!(commit.committer.time.offset, -3600);

    assert!(read_commit_from_buffer(b"tree 85df\n").is_none());
    assert!(read_commit_from_buffer(b"").is_none());
    let no_blank = b"tree 85df50785d62d3b05ab03d9cbf7e4a0b49449730\nauthor a <b> 1 +0000\ncommitter c <d> 2 -0100\nm\n";
    assert!(read_commit_from_buffer(no_blank).is_none());
}
