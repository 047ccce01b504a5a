use git_rs::index::{
    create_index_entry, remove_path_from_index, stat_mode_to_index_mode, FileStat, Index,
    IndexEntry, IndexParser, IndexTime, IndexWriter, ParsingError,
};
use git_rs::object_id::ObjectId;
use git_rs::sha1::Sha1;

fn get_test_raw_index() -> Vec<u8> {
    let signature = b"DIRC";
    let version = 2_u32;
    let entries = [IndexEntry {
        mtime: IndexTime {
            seconds: 1770570963,
            nanoseconds: 108954535,
        },
        ctime: IndexTime {
            seconds: 1770570963,
            nanoseconds: 108954535,
        },
        dev: 2096,
        ino: 107557,
        mode: 0o100644,
        uid: 1000,
        gid: 1000,
        size: 4,
        id: ObjectId::from_str("85df50785d62d3b05ab03d9cbf7e4a0b49449730").unwrap(),
        flags: 9,
        path: b"hello.txt\0".to_vec(),
    }];

    let count_entries = entries.len() as u32;
    let mut buffer = vec![];
    buffer.extend_from_slice(signature);
    buffer.extend_from_slice(&version.to_be_bytes());
    buffer.extend_from_slice(&count_entries.to_be_bytes());
    for e in entries {
        buffer.extend_from_slice(&e.mtime.seconds.to_be_bytes());
        buffer.extend_from_slice(&e.mtime.nanoseconds.to_be_bytes());
        buffer.extend_from_slice(&e.ctime.seconds.to_be_bytes());
        buffer.extend_from_slice(&e.ctime.nanoseconds.to_be_bytes());

        buffer.extend_from_slice(&e.dev.to_be_bytes());
        buffer.extend_from_slice(&e.ino.to_be_bytes());
        buffer.extend_from_slice(&e.mode.to_be_bytes());
        buffer.extend_from_slice(&e.uid.to_be_bytes());
        buffer.extend_from_slice(&e.gid.to_be_bytes());
        buffer.extend_from_slice(&e.size.to_be_bytes());

        buffer.extend_from_slice(&e.id.as_bytes());
        buffer.extend_from_slice(&e.flags.to_be_bytes());
        buffer.extend_from_slice(&e.path[..]);
    }

    buffer.extend_from_slice(
        &Sha1::from_str("e314387b487ee7cedb6c1a5463c9db5c4e61998f")
            .unwrap()
            .as_bytes(),
    );
    buffer
}

#[test]
fn read_write_identity() {
    let raw_index = get_test_raw_index();

    let mut parser = IndexParser::new(&raw_index[..]);
    let index = parser.parse_index().unwrap();

    let mut writer = IndexWriter::new();
    writer.write_index(&index);
    let buffer = writer.into_bytes();

    assert_eq!(raw_index, &buffer[..]);
}

fn entry(path: &[u8], fill: u8) -> IndexEntry {
    IndexEntry {
        mtime: IndexTime { seconds: 1, nanoseconds: 2 },
        ctime: IndexTime { seconds: 3, nanoseconds: 4 },
        dev: 5,
        ino: 6,
        mode: 0o100644,
        uid: 7,
        gid: 8,
        size: 9,
        id: ObjectId::from_array(&[fill; 20]),
        flags: path.len() as u16,
        path: path.to_vec(),
    }
}

#[test]
fn index_add_find_remove() {
    let mut index = Index::new();
    index.add(entry(b"b", 1));
    index.add(entry(b"a", 2));
    index.add(entry(b"c", 3));
    assert_eq!(index.count_entries(), 3);
    assert_eq!(index.find_by_path(b"a"), Ok(0));
    assert_eq!(index.find_by_path(b"c"), Ok(2));
    assert_eq!(index.find_by_path(b"bb"), Err(2));
    index.add(entry(b"b", 9));
    assert_eq!(index.count_entries(), 3);
    assert_eq!(index.get_unchecked(1).id, ObjectId::from_array(&[9; 20]));
    remove_path_from_index(b"a", &mut index);
    remove_path_from_index(b"zz", &mut index);
    assert_eq!(index.count_entries(), 2);
    assert_eq!(index.find_by_path(b"a"), Err(0));
    index.remove(0);
    assert_eq!(index.get_unchecked(0).path, b"c".to_vec());
    index.get_mut_unchecked(0).size = 77;
    assert_eq!(index.get_unchecked(0).size, 77);
}

#[test]
fn index_written_then_read_back() {
    let raw = get_test_raw_index();
    let index = IndexParser::new(&raw).parse_index().unwrap();
    let mut index2 = Index::new();
    index2.add(entry(b"dir/x", 1));
    index2.add(entry(b"a-long-name.txt", 2));
    let mut writer = IndexWriter::new();
    writer.write_index(&index2);
    let bytes = writer.into_bytes();
    assert_eq!(bytes.len() % 8, 0);
    // a new index is written with version 0, which is refused when read back
    match IndexParser::new(&bytes).parse_index() {
        Err(ParsingError::UnsupportedVersion(0)) => {},
        other => panic!("unexpected: {:?}", other.map(|i| i.entries.len())),
    }
    assert_eq!(index.entries.len(), 1);
}

#[test]
fn index_parse_errors() {
    assert!(matches!(IndexParser::new(b"DIRC").parse_index(), Err(ParsingError::TooShort)));
    let mut raw = get_test_raw_index();
    let n = raw.len();
    raw[n - 1] ^= 1;
    assert!(matches!(IndexParser::new(&raw).parse_index(), Err(ParsingError::InvalidCheckSum)));
}

#[test]
fn index_entry_from_stat() {
    let stat = FileStat {
        mtime: 0x1_0000_0005,
        mtime_nsec: 6,
        ctime: 7,
        ctime_nsec: 8,
        dev: 9,
        ino: 10,
        mode: 0o100755,
        uid: 11,
        gid: 12,
        size: 13,
        is_file: true,
        is_symlink: false,
    };
    assert_eq!(stat_mode_to_index_mode(&stat), 0o100755);
    let e = create_index_entry(b"some/path", &stat, ObjectId::zero());
    assert_eq!(e.mtime.seconds, 5);
    assert_eq!(e.flags, 9);
    assert_eq!(e.mode, 0o100755);
    let long = vec![b'x'; 5000];
    let e = create_index_entry(&long, &stat, ObjectId::zero());
    assert_eq!(e.flags, 0xFFF);
    let link = FileStat { is_file: false, is_symlink: true, ..stat };
    assert_eq!(stat_mode_to_index_mode(&link), 0o120000);
    let plain = FileStat { mode: 0o100644, ..stat };
    assert_eq!(stat_mode_to_index_mode(&plain), 0o100644);
}

#[test]
fn deleted_files_leave_the_index() {
    let mut index = Index::new();
    index.add(entry(b"a", 1));
    index.add(entry(b"b", 2));
    index.add(entry(b"c", 3));
    let deltas = vec![
        git_rs::diff::Delta {
            old_file: Some((b"b".to_vec(), ObjectId::from_array(&[2; 20]))),
            new_file: None,
            status: git_rs::diff::Status::Deleted,
        },
        git_rs::diff::Delta {
            old_file: Some((b"c".to_vec(), ObjectId::from_array(&[3; 20]))),
            new_file: Some((b"c".to_vec(), ObjectId::from_array(&[4; 20]))),
            status: git_rs::diff::Status::Modified,
        },
        git_rs::diff::Delta {
            old_file: Some((b"zz".to_vec(), ObjectId::from_array(&[5; 20]))),
            new_file: None,
            status: git_rs::diff::Status::Deleted,
        },
    ];
    git_rs::diff::remove_deleted_paths(&deltas, &mut index);
    assert_eq!(index.count_entries(), 2);
    assert_eq!(index.find_by_path(b"a"), Ok(0));
    assert_eq!(index.find_by_path(b"b"), Err(1));
    assert_eq!(index.find_by_path(b"c"), Ok(1));
}
