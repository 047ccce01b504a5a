use git_rs::blob::Blob;
use git_rs::commit::Commit;
use git_rs::diff3::Chunk;
use git_rs::merge::try_fold_no_conflicts;
use git_rs::myers::Line;
use git_rs::merge::{resolve, IndexEntry, InMemoryIndex, OrtMerge, Resolution, TreeEntry};
use git_rs::diff::Status;
use git_rs::object_db::{Object, ObjectMap};
use git_rs::object_id::ObjectId;
use git_rs::signature::{AuthorInfo, CommitterInfo, Signature};
use git_rs::time::Time;
use git_rs::tree::{self, Tree};
use git_rs::FileMode;


fn get_author_info() -> AuthorInfo {
    let sign = Signature::build("user", "example@domain.com", Time::new(1771253662, 10800)).unwrap();
    AuthorInfo(sign)
}

fn get_commiter_info() -> CommitterInfo {
    let sign = Signature::build("committer", "commiter@email", Time::new(1771253662, 10800)).unwrap();
    CommitterInfo(sign)
}

fn get_commit(tree_id: ObjectId, parents: Vec<ObjectId>) -> Commit {
    Commit::new(
        tree_id,
        parents,
        get_author_info(),
        get_commiter_info(),
        String::new(),
    )
}

#[test]
fn left_add_and_right_remove() {
    let id = [
        // blob
        "0000000000000000000000000000000000000000",
        "1000000000000000000000000000000000000000",
        "2000000000000000000000000000000000000000",
        // tree
        "3000000000000000000000000000000000000000",
        "4000000000000000000000000000000000000000",
        "5000000000000000000000000000000000000000",
        // commit
        "6000000000000000000000000000000000000000",
        "7000000000000000000000000000000000000000",
        "8000000000000000000000000000000000000000",
    ]
    .map(ObjectId::from_str)
    .map(Result::unwrap);

    let mut odb = ObjectMap::new();
    let a = Blob::new(Vec::new());
    let b = Blob::new(Vec::new());
    let c = Blob::new(Vec::new());

    odb.insert(id[0], Object::Blob(a));
    odb.insert(id[1], Object::Blob(b));
    odb.insert(id[2], Object::Blob(c));

    let tree_o = Tree {
        entries: vec![
            tree::TreeEntry {
                mode: FileMode::Blob.into(),
                filename: b"a.txt".to_vec(),
                id: id[0],
            },
            tree::TreeEntry {
                mode: FileMode::Blob.into(),
                filename: b"b.txt".to_vec(),
                id: id[1],
            },
        ],
    };

    // delete b.txt
    let tree_left = Tree {
        entries: vec![tree::TreeEntry {
            mode: FileMode::Blob.into(),
            filename: b"a.txt".to_vec(),
            id: id[0],
        }],
    };

    // Add file c.txt
    let tree_right = Tree {
        entries: vec![
            tree::TreeEntry {
                mode: FileMode::Blob.into(),
                filename: b"a.txt".to_vec(),
                id: id[0],
            },
            tree::TreeEntry {
                mode: FileMode::Blob.into(),
                filename: b"b.txt".to_vec(),
                id: id[1],
            },
            tree::TreeEntry {
                mode: FileMode::Blob.into(),
                filename: b"c.txt".to_vec(),
                id: id[2],
            },
        ],
    };

    odb.insert(id[3], Object::Tree(tree_o));
    odb.insert(id[4], Object::Tree(tree_left));
    odb.insert(id[5], Object::Tree(tree_right));

    let commits = [
        get_commit(id[3], vec![]),
        get_commit(id[4], vec![id[6]]),
        get_commit(id[5], vec![id[6]]),
    ];

    odb.insert(id[6], Object::Commit(commits[0].clone()));
    odb.insert(id[7], Object::Commit(commits[1].clone()));
    odb.insert(id[8], Object::Commit(commits[2].clone()));

    let side1 = (commits[1].clone(), id[7]);
    let side2 = (commits[2].clone(), id[8]);
    let (_, actual) = OrtMerge::new(odb).merge(side1, side2).unwrap();

    let expected = InMemoryIndex {
        entries: vec![
            IndexEntry::Normal(TreeEntry {
                mode: FileMode::Blob,
                filename: b"a.txt".to_vec(),
                id: id[0],
                flags: 0,
            }),
            IndexEntry::Normal(TreeEntry {
                mode: FileMode::Blob,
                filename: b"c.txt".to_vec(),
                id: id[2],
                flags: 0,
            }),
        ],
    };
    assert_eq!(actual, expected);
}

#[test]
fn merge_fold_without_conflicts() {
    let chunks = vec![
        Chunk::Normal(vec![Line(1, b"ab".to_vec()), Line(2, b"c".to_vec())]),
        Chunk::Normal(vec![Line(3, b"d".to_vec())]),
    ];
    assert_eq!(try_fold_no_conflicts(chunks), Some(b"abcd".to_vec()));
    let chunks = vec![
        Chunk::Normal(vec![Line(1, b"ab".to_vec())]),
        Chunk::Conflict { o: vec![], a: vec![], b: vec![] },
    ];
    assert_eq!(try_fold_no_conflicts(chunks), None);
}

#[test]
fn merge_table() {
    assert_eq!(resolve(Status::Unmodified, Status::Deleted), Resolution::Drop);
    assert_eq!(resolve(Status::Deleted, Status::Unmodified), Resolution::Drop);
    assert_eq!(resolve(Status::Deleted, Status::Deleted), Resolution::Drop);
    assert_eq!(resolve(Status::Unmodified, Status::Modified), Resolution::TakeB);
    assert_eq!(resolve(Status::Unmodified, Status::Added), Resolution::TakeB);
    assert_eq!(resolve(Status::Modified, Status::Unmodified), Resolution::TakeA);
    assert_eq!(resolve(Status::Added, Status::Unmodified), Resolution::TakeA);
    assert_eq!(resolve(Status::Modified, Status::Modified), Resolution::MergeLines);
    assert_eq!(resolve(Status::Added, Status::Added), Resolution::Conflict);
    assert_eq!(resolve(Status::Modified, Status::Deleted), Resolution::Conflict);
    assert_eq!(resolve(Status::TypeChanged, Status::Unmodified), Resolution::Conflict);
}
