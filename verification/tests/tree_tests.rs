use git_rs::index::{Index, IndexEntry, IndexTime};
use git_rs::object_db::hash_buffer;
use git_rs::object_id::ObjectId;
use git_rs::object_type::ObjectType;
use git_rs::tree::{
    classify_treeish, create_trees_from_index, create_trees_from_index_impl,
    read_tree_from_buffer, write_tree, Tree, TreeEntry, Treeish,
};

#[test]
fn write_read_identity() {
    let mut tree = Tree::new();
    tree.entries.push(TreeEntry {
        mode: 0o40000,
        filename: b"dir".to_vec(),
        id: ObjectId::from_bytes(
            b"\x00\x68\x5f\x1c\x06\x8f\xc3\x32\x30\x76\x91\x78\xcf\xa3\xd3\xb7\x1f\x8d\x99\x4b",
        )
        .unwrap(),
    });

    let buffer = write_tree(&tree);

    let parsed_tree = read_tree_from_buffer(&buffer).unwrap();
    assert_eq!(parsed_tree, tree);
}

#[test]
fn read_returns_error_on_invalid_data() {
    let data = b"40000 dir\0abcdef";
    assert!(read_tree_from_buffer(data).is_none());

    let data = b"40000 dir\0\x00\x68\x5f\x1c\x06\x8f\xc3\x32\x30\x76\x91\x78\xcf\xa3\xd3\xb7\x1f\x8d\x99\x4b100644";
    assert!(read_tree_from_buffer(data).is_none());
}

fn get_test_index() -> Index {
    let mut index = Index::new();

    index.add(IndexEntry {
        mtime: IndexTime {
            seconds: 1770663391,
            nanoseconds: 768895303,
        },
        ctime: IndexTime {
            seconds: 1770663391,
            nanoseconds: 768895303,
        },
        dev: 2096,
        ino: 125352,
        mode: 0o100644,
        uid: 1000,
        gid: 1000,
        size: 8,
        id: ObjectId::from_str("b800cbcdba1d5ad659881e78c1b3a2ba09b48f71").unwrap(),
        flags: 11,
        path: b"dir/abc.txt".to_vec(),
    });

    index.add(IndexEntry {
        mtime: IndexTime {
            seconds: 1770889632,
            nanoseconds: 110920527,
        },
        ctime: IndexTime {
            seconds: 1770897876,
            nanoseconds: 896935512,
        },
        dev: 2096,
        ino: 106009,
        mode: 0o100644,
        uid: 1000,
        gid: 1000,
        size: 6,
        id: ObjectId::from_str("e56e15bb7ddb6bd0b6d924b18fcee53d8713d7ea").unwrap(),
        flags: 9,
        path: b"dir/file3".to_vec(),
    });

    index.add(IndexEntry {
        mtime: IndexTime {
            seconds: 1770897939,
            nanoseconds: 468940304,
        },
        ctime: IndexTime {
            seconds: 1770897939,
            nanoseconds: 468940304,
        },
        dev: 2096,
        ino: 125575,
        mode: 0o100644,
        uid: 1000,
        gid: 1000,
        size: 8,
        id: ObjectId::from_str("33a9488b167e4391ad6297a1e43e56f7ec8a294e").unwrap(),
        flags: 21,
        path: b"dir/subdir/example.md".to_vec(),
    });

    index.add(IndexEntry {
        mtime: IndexTime {
            seconds: 1770570963,
            nanoseconds: 108954535,
        },
        ctime: IndexTime {
            seconds: 1770897829,
            nanoseconds: 656954774,
        },
        dev: 2096,
        ino: 107557,
        mode: 0o100644,
        uid: 1000,
        gid: 1000,
        size: 4,
        id: ObjectId::from_str("85df50785d62d3b05ab03d9cbf7e4a0b49449730").unwrap(),
        flags: 9,
        path: b"file1.txt".to_vec(),
    });

    index.add(IndexEntry {
        mtime: IndexTime {
            seconds: 1770657479,
            nanoseconds: 758114976,
        },
        ctime: IndexTime {
            seconds: 1770897842,
            nanoseconds: 820929787,
        },
        dev: 2096,
        ino: 125244,
        mode: 0o100644,
        uid: 1000,
        gid: 1000,
        size: 5,
        id: ObjectId::from_str("81c545efebe5f57d4cab2ba9ec294c4b0cadf672").unwrap(),
        flags: 5,
        path: b"file2".to_vec(),
    });

    index
}

#[test]
fn index_to_tree() {
    let index = get_test_index();

    let mut trees = Vec::new();
    let (_, id) = create_trees_from_index_impl(&index, &[], 0, &mut trees);

    assert_eq!(id.to_string(), "43a32e4561668fff56c5f453776061ae20b90fcc");
}

#[test]
fn index_trees_in_storing_order() {
    let index = get_test_index();
    let (id, trees) = create_trees_from_index(&index);
    assert_eq!(trees.len(), 3);
    assert_eq!(hash_buffer(trees.last().unwrap(), ObjectType::Tree), id);
    let root = read_tree_from_buffer(trees.last().unwrap()).unwrap();
    let names: Vec<&[u8]> = root.entries.iter().map(|e| &e.filename[..]).collect();
    assert_eq!(names, vec![&b"dir"[..], &b"file1.txt"[..], &b"file2"[..]]);
    assert_eq!(root.entries[0].mode, 0o40000);
    assert_eq!(root.entries[0].id, hash_buffer(&trees[1], ObjectType::Tree));
    let subdir = read_tree_from_buffer(&trees[0]).unwrap();
    assert_eq!(subdir.entries.len(), 1);
    assert_eq!(subdir.entries[0].filename, b"example.md".to_vec());
}

#[test]
fn tree_modes_are_octal() {
    let mut tree = Tree::new();
    tree.entries.push(TreeEntry { mode: 0o100644, filename: b"f".to_vec(), id: ObjectId::zero() });
    let bytes = write_tree(&tree);
    assert_eq!(&bytes[..9], b"100644 f\0");
    assert_eq!(read_tree_from_buffer(&bytes).unwrap(), tree);
    assert_eq!(read_tree_from_buffer(b"").unwrap(), Tree::new());
    assert!(read_tree_from_buffer(b"9 f\0aaaaaaaaaaaaaaaaaaaa").is_none());
}

#[test]
fn treeish_names() {
    assert!(matches!(classify_treeish("HEAD"), Treeish::Head));
    assert!(matches!(classify_treeish("main"), Treeish::Branch));
    match classify_treeish("85df50785d62d3b05ab03d9cbf7e4a0b49449730") {
        Treeish::Object(id) => assert_eq!(id.to_string(), "85df50785d62d3b05ab03d9cbf7e4a0b49449730"),
        _ => panic!("expected an object name"),
    }
}
