use git_rs::blob::Blob;
use git_rs::commit::Commit;
use git_rs::diff::{Status, TreeDiff};
use git_rs::object_db::{Object, ObjectMap};
use git_rs::object_id::ObjectId;
use git_rs::tag::Tag;
use git_rs::commit::{commit_lead, commit_of_object, CommitLead};
use git_rs::object_type::ObjectType;
use git_rs::signature::{AuthorInfo, CommitterInfo, Signature};
use git_rs::time::Time;
use git_rs::tree::{flatten_tree, tree_lead, tree_of_commit, tree_of_object, Tree, TreeEntry, TreeLead, TreeWalker};
use git_rs::{GIT_MODE_BLOB, GIT_MODE_TREE};


fn id(digit: char) -> ObjectId {
    ObjectId::from_str(&digit.to_string().repeat(40)).unwrap()
}

fn entry(mode: u32, name: &str, target: ObjectId) -> TreeEntry {
    TreeEntry {
        mode,
        filename: name.as_bytes().to_vec(),
        id: target,
    }
}

/// A root with a file, a directory of two files, and another file.
fn sample() -> (ObjectMap, Tree) {
    let sub = Tree {
        entries: vec![entry(GIT_MODE_BLOB, "b.txt", id('2')), entry(GIT_MODE_BLOB, "c.txt", id('3'))],
    };
    let root = Tree {
        entries: vec![
            entry(GIT_MODE_BLOB, "a.txt", id('1')),
            entry(GIT_MODE_TREE, "dir", id('d')),
            entry(GIT_MODE_BLOB, "z.txt", id('4')),
        ],
    };
    let mut objects = ObjectMap::new();
    objects.insert(id('d'), Object::Tree(sub));
    objects.insert(id('e'), Object::Tree(root.clone()));
    (objects, root)
}

#[test]
fn walker_visits_files_depth_first() {
    let (store, _) = sample();
    let mut walker = TreeWalker::from_id(&store, id('e')).unwrap();
    let mut seen = Vec::new();
    while let Some(w) = walker.current() {
        seen.push((String::from_utf8(w.make_fullpath()).unwrap(), w.dir_path().to_vec()));
        walker.advance().unwrap();
    }
    let expected = vec![
        ("a.txt".to_string(), b"".to_vec()),
        ("dir/b.txt".to_string(), b"dir".to_vec()),
        ("dir/c.txt".to_string(), b"dir".to_vec()),
        ("z.txt".to_string(), b"".to_vec()),
    ];
    assert_eq!(seen, expected);
}

#[test]
fn flatten_lists_files_with_paths() {
    let (store, root) = sample();
    let items = flatten_tree(&store, root).unwrap();
    let paths: Vec<String> = items.iter().map(|x| String::from_utf8(x.0.clone()).unwrap()).collect();
    assert_eq!(paths, vec!["a.txt", "dir/b.txt", "dir/c.txt", "z.txt"]);
    assert!(items.iter().all(|x| x.2 == GIT_MODE_BLOB));
    assert_eq!(items[1].1, id('2'));
}

#[test]
fn walker_of_missing_tree_fails() {
    let (store, _) = sample();
    assert!(TreeWalker::from_id(&store, id('f')).is_err());
}

#[test]
fn tree_diff_reports_changes() {
    let (store, root) = sample();
    let other = Tree {
        entries: vec![
            entry(GIT_MODE_BLOB, "a.txt", id('5')),
            entry(GIT_MODE_TREE, "dir", id('d')),
            entry(GIT_MODE_BLOB, "y.txt", id('6')),
        ],
    };
    let deltas = TreeDiff::new(&store).compare_trees(root.clone(), other).unwrap();
    let summary: Vec<(Status, String)> = deltas
        .iter()
        .map(|d| {
            let path = d.new_file.as_ref().or(d.old_file.as_ref()).unwrap().0.clone();
            (d.status, String::from_utf8(path).unwrap())
        })
        .collect();
    assert_eq!(
        summary,
        vec![
            (Status::Modified, "a.txt".to_string()),
            (Status::Added, "y.txt".to_string()),
            (Status::Deleted, "z.txt".to_string()),
        ]
    );
    assert!(TreeDiff::new(&store).compare_trees(root.clone(), root).unwrap().is_empty());
}

fn commit_of_tree(tree_id: ObjectId) -> Commit {
    let sig = Signature::build("a", "a@b", Time::new(1, 0)).unwrap();
    Commit::new(tree_id, vec![], AuthorInfo(sig.clone()), CommitterInfo(sig), "m".to_string())
}

fn tag_of(target: ObjectId) -> Tag {
    Tag {
        object_id: target,
        object_type: ObjectType::Commit,
        tagger: Signature::build("t", "t@b", Time::new(2, 0)).unwrap(),
        name: "v1".to_string(),
        message: "release".to_string(),
    }
}

#[test]
fn objects_lead_to_trees_and_commits() {
    let (mut store, root) = sample();
    let commit = commit_of_tree(id('e'));
    store.insert(id('c'), Object::Commit(commit.clone()));
    store.insert(id('a'), Object::Tag(tag_of(id('c'))));
    store.insert(id('b'), Object::Blob(Blob::new(b"x".to_vec())));

    assert!(matches!(tree_lead(Object::Commit(commit.clone())), TreeLead::TreeNamed(x) if x == id('e')));
    assert!(matches!(tree_lead(Object::Tag(tag_of(id('c')))), TreeLead::CommitNamed(x) if x == id('c')));
    assert!(matches!(tree_lead(Object::Blob(Blob::new(vec![]))), TreeLead::NoTree));
    assert!(matches!(commit_lead(Object::Tree(root.clone())), CommitLead::NoCommit));
    assert!(matches!(commit_lead(Object::Tag(tag_of(id('c')))), CommitLead::CommitNamed(x) if x == id('c')));

    for start in [id('e'), id('c'), id('a')] {
        let (tree, tree_id) = tree_of_object(&store, start).unwrap();
        assert_eq!(tree, root);
        assert_eq!(tree_id, id('e'));
    }
    assert!(tree_of_object(&store, id('b')).is_err());
    assert_eq!(tree_of_commit(&store, id('c')).unwrap().1, id('e'));

    let (c, name) = commit_of_object(&store, id('a')).unwrap();
    assert_eq!(c, commit);
    assert_eq!(name, id('a'));
    assert!(commit_of_object(&store, id('e')).is_err());
}

#[test]
fn flatten_of_flat_tree_lists_its_entries() {
    let (store, _) = sample();
    let flat = Tree {
        entries: vec![entry(GIT_MODE_BLOB, "x", id('7')), entry(GIT_MODE_BLOB, "y", id('8'))],
    };
    let items = flatten_tree(&store, flat).unwrap();
    assert_eq!(items, vec![(b"x".to_vec(), id('7'), GIT_MODE_BLOB), (b"y".to_vec(), id('8'), GIT_MODE_BLOB)]);
}

#[test]
fn flat_trees_compare_by_their_entries() {
    let (store, _) = sample();
    let left = Tree {
        entries: vec![entry(0o100644, "a.txt", id('1')), entry(0o100644, "b.txt", id('2'))],
    };
    let right = Tree {
        entries: vec![entry(0o100644, "b.txt", id('3')), entry(0o100644, "c.txt", id('4'))],
    };
    let deltas = TreeDiff::new(&store).compare_trees(left, right).unwrap();
    let got: Vec<(Status, Option<(Vec<u8>, ObjectId)>, Option<(Vec<u8>, ObjectId)>)> = deltas
        .into_iter()
        .map(|d| (d.status, d.old_file, d.new_file))
        .collect();
    assert_eq!(
        got,
        vec![
            (Status::Deleted, Some((b"a.txt".to_vec(), id('1'))), None),
            (Status::Modified, Some((b"b.txt".to_vec(), id('2'))), Some((b"b.txt".to_vec(), id('3')))),
            (Status::Added, None, Some((b"c.txt".to_vec(), id('4')))),
        ]
    );
}

#[test]
fn names_that_lead_nowhere_give_their_errors() {
    let (mut store, root) = sample();
    store.insert(id('c'), Object::Commit(commit_of_tree(id('e'))));
    store.insert(id('b'), Object::Blob(Blob::new(b"x".to_vec())));

    assert!(matches!(tree_of_object(&store, id('b')), Err(git_rs::tree::Error::InvalidTreeish)));
    assert!(matches!(tree_of_object(&store, id('9')), Err(git_rs::tree::Error::OdbReadFailed(_))));
    assert!(matches!(tree_of_commit(&store, id('e')), Err(git_rs::tree::Error::OdbReadFailed(_))));
    assert!(matches!(commit_of_object(&store, id('e')), Err(git_rs::commit::Error::InvalidCommitish)));
    assert!(matches!(commit_of_object(&store, id('b')), Err(git_rs::commit::Error::InvalidCommitish)));
    assert!(matches!(commit_of_object(&store, id('9')), Err(git_rs::commit::Error::OdbReadFailed(_))));
    let (c, name) = commit_of_object(&store, id('c')).unwrap();
    assert_eq!(c.tree_id, id('e'));
    assert_eq!(name, id('c'));
    let (tree, tree_id) = tree_of_object(&store, id('d')).unwrap();
    assert_eq!(tree_id, id('d'));
    assert_ne!(tree, root);
}

#[test]
fn tag_lookup_reads_only_tags() {
    let (mut store, _) = sample();
    store.insert(id('c'), Object::Commit(commit_of_tree(id('e'))));
    store.insert(id('a'), Object::Tag(tag_of(id('c'))));
    let tag = git_rs::tag::lookup_tag_by_id(&store, id('a')).unwrap();
    assert_eq!(tag.object_id, id('c'));
    assert!(matches!(
        git_rs::tag::lookup_tag_by_id(&store, id('c')),
        Err(git_rs::tag::Error::OdbReadFailed(_))
    ));
}

#[test]
fn walker_of_flat_tree_visits_each_entry_then_ends() {
    let (store, _) = sample();
    let names = ["a", "b", "c"];
    let flat = Tree {
        entries: names.iter().enumerate().map(|(k, n)| entry(GIT_MODE_BLOB, n, id(char::from(b'1' + k as u8)))).collect(),
    };
    let mut walker = TreeWalker::from_tree(&store, flat).unwrap();
    for (k, n) in names.iter().enumerate() {
        let w = walker.current().unwrap();
        assert_eq!(w.make_fullpath(), n.as_bytes().to_vec());
        assert_eq!(w.object_id(), id(char::from(b'1' + k as u8)));
        walker.advance().unwrap();
    }
    assert!(walker.current().is_none());
    walker.advance().unwrap();
    assert!(walker.current().is_none());
}
