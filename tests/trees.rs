use mini_git::commit::{commit, commit_content, object_path, parse_commit, parse_hash};
use mini_git::error::GitError;
use mini_git::object::{Object, ObjectKind, ParsedObject};
use mini_git::tree::{build_tree_content, name_before, parse_tree, sort_entries, write_tree, TreeEntry, DIRECTORY_MODE};

fn entry(mode: u32, name: &str, fill: u8) -> TreeEntry {
    TreeEntry { mode, name: name.as_bytes().to_vec(), hash: vec![fill; 20] }
}

fn record(mode: &str, name: &str, fill: u8) -> Vec<u8> {
    let mut v = mode.as_bytes().to_vec();
    v.push(b' ');
    v.extend_from_slice(name.as_bytes());
    v.push(0);
    v.extend_from_slice(&[fill; 20]);
    v
}

#[test]
fn build_tree_orders_names_bytewise() {
    let content = build_tree_content(vec![entry(0o100644, "b", 2), entry(0o100644, "a", 1), entry(0o100644, "c", 3)]);
    let mut expected = record("100644", "a", 1);
    expected.extend(record("100644", "b", 2));
    expected.extend(record("100644", "c", 3));
    assert_eq!(content, expected);
}

#[test]
fn build_tree_writes_directory_mode_in_octal() {
    let content = build_tree_content(vec![entry(DIRECTORY_MODE, "sub", 9), entry(0o100755, "Z", 8)]);
    let mut expected = record("100755", "Z", 8);
    expected.extend(record("40000", "sub", 9));
    assert_eq!(content, expected);
}

#[test]
fn sort_uses_raw_byte_order() {
    let sorted = sort_entries(vec![entry(1, "ab", 0), entry(1, "a", 0), entry(1, "B", 0), entry(1, "a-b", 0)]);
    let names: Vec<Vec<u8>> = sorted.into_iter().map(|e| e.name).collect();
    assert_eq!(names, vec![b"B".to_vec(), b"a".to_vec(), b"a-b".to_vec(), b"ab".to_vec()]);
    assert!(name_before(b"a", b"ab"));
    assert!(!name_before(b"b", b"a"));
    assert!(name_before(b"", b""));
}

#[test]
fn parse_tree_reads_records() {
    let mut data = record("100644", "hello.txt", 7);
    data.extend(record("40000", "dir", 5));
    let es = parse_tree(&data).unwrap();
    assert_eq!(es.len(), 2);
    assert_eq!(es[0].mode, 0o100644);
    assert_eq!(es[0].name, b"hello.txt".to_vec());
    assert_eq!(es[0].hash, vec![7; 20]);
    assert_eq!(es[1].mode, DIRECTORY_MODE);
    assert_eq!(es[1].name, b"dir".to_vec());
}

#[test]
fn parse_tree_reports_truncated_and_bad_mode() {
    let mut data = record("100644", "a", 1);
    data.truncate(data.len() - 1);
    assert_eq!(parse_tree(&data).unwrap_err(), GitError::Truncated);
    assert_eq!(parse_tree(b"100644 a").unwrap_err(), GitError::Truncated);
    assert_eq!(parse_tree(b"100644").unwrap_err(), GitError::Truncated);
    assert_eq!(parse_tree(&record("10x644", "a", 1)).unwrap_err(), GitError::Corrupt);
    assert_eq!(parse_tree(&record("", "a", 1)).unwrap_err(), GitError::Corrupt);
    assert_eq!(parse_tree(&record("77777777777", "a", 1)).unwrap_err(), GitError::Corrupt);
}

#[test]
fn write_tree_stores_sorted_tree() {
    let stored = write_tree(vec![entry(0o100644, "b", 2), entry(0o100644, "a", 1)]);
    let loaded = Object::from_stored(&stored.data).unwrap();
    assert_eq!(loaded.kind, ObjectKind::Tree);
    let mut expected = record("100644", "a", 1);
    expected.extend(record("100644", "b", 2));
    assert_eq!(loaded.content, expected);
    assert_eq!(hex::encode(&stored.hash), hex::encode(Object::new(ObjectKind::Tree, &expected).hash()));
}

#[test]
fn empty_tree_has_known_hash() {
    let stored = write_tree(vec![]);
    assert_eq!(hex::encode(&stored.hash), "4b825dc642cb6eb9a060e54bf8d69288fbee4904");
}

#[test]
fn commit_content_lists_tree_parent_and_stamps() {
    let tree = [0xabu8; 20];
    let parent = [0x01u8; 20];
    let c = commit_content(&tree, Some(&parent), 1700000000, b"first");
    let expected = format!(
        "tree {}\nparent {}\nauthor Anonymous 1700000000 +0000\ncommitter Anonymous 1700000000 +0000\n\nfirst\n",
        hex::encode(tree),
        hex::encode(parent)
    );
    assert_eq!(String::from_utf8(c).unwrap(), expected);
    let root = commit_content(&tree, None, 0, b"");
    let expected = format!("tree {}\nauthor Anonymous 0 +0000\ncommitter Anonymous 0 +0000\n\n\n", hex::encode(tree));
    assert_eq!(String::from_utf8(root).unwrap(), expected);
}

#[test]
fn commit_is_stored_and_names_its_tree() {
    let tree = [0x4bu8; 20];
    let stored = commit(&tree, None, 5, b"m");
    let loaded = Object::from_stored(&stored.data).unwrap();
    assert_eq!(loaded.kind, ObjectKind::Commit);
    match loaded.parse().unwrap() {
        ParsedObject::Commit(t) => assert_eq!(t, hex::encode(tree).into_bytes()),
        _ => panic!("expected a commit"),
    }
}

#[test]
fn parse_commit_needs_tree_line() {
    let ok = b"tree 4B825DC642CB6EB9A060E54BF8D69288FBEE4904\n";
    assert_eq!(parse_commit(ok).unwrap(), ok[5..45].to_vec());
    assert_eq!(parse_commit(b"tree 4b825dc642cb6eb9a060e54bf8d69288fbee4904").unwrap_err(), GitError::Truncated);
    assert_eq!(parse_commit(b"tree 4b825dc642cb6eb9a060e54bf8d69288fbee490z\n").unwrap_err(), GitError::Truncated);
    assert_eq!(parse_commit(b"tre  4b825dc642cb6eb9a060e54bf8d69288fbee4904\n").unwrap_err(), GitError::Truncated);
}

#[test]
fn parse_hash_accepts_forty_digits() {
    let h = parse_hash("4b825dc642cb6eb9a060e54bf8d69288fbee4904").unwrap();
    assert_eq!(h, hex::decode("4b825dc642cb6eb9a060e54bf8d69288fbee4904").unwrap());
    assert_eq!(parse_hash("4b82").unwrap_err(), GitError::InvalidInput);
    assert_eq!(parse_hash("4b825dc642cb6eb9a060e54bf8d69288fbee490g").unwrap_err(), GitError::InvalidInput);
}

#[test]
fn object_path_splits_two_and_thirty_eight() {
    let (d, f) = object_path(b"ce013625030ba8dba906f756967f9e9ca394464a").unwrap();
    assert_eq!(d, b"ce".to_vec());
    assert_eq!(f, b"013625030ba8dba906f756967f9e9ca394464a".to_vec());
    assert_eq!(object_path(b"ce01").unwrap_err(), GitError::InvalidInput);
    assert_eq!(object_path(b"ce013625030ba8dba906f756967f9e9ca394464x").unwrap_err(), GitError::InvalidInput);
}

#[test]
fn built_tree_reads_back_sorted() {
    let content = build_tree_content(vec![
        entry(0o100644, "zeta file", 3),
        entry(DIRECTORY_MODE, "alpha", 1),
        entry(0o120000, "link", 2),
    ]);
    let es = parse_tree(&content).unwrap();
    let got: Vec<(u32, Vec<u8>, Vec<u8>)> = es.into_iter().map(|e| (e.mode, e.name, e.hash)).collect();
    assert_eq!(
        got,
        vec![
            (DIRECTORY_MODE, b"alpha".to_vec(), vec![1; 20]),
            (0o120000, b"link".to_vec(), vec![2; 20]),
            (0o100644, b"zeta file".to_vec(), vec![3; 20]),
        ]
    );
}
