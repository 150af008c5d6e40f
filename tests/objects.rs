use std::io::Write;
use mini_git::error::GitError;
use mini_git::object::{Object, ObjectKind, ParsedObject};

fn zlib(data: &[u8]) -> Vec<u8> {
    let mut e = flate2::write::ZlibEncoder::new(Vec::new(), flate2::Compression::default());
    e.write_all(data).unwrap();
    e.finish().unwrap()
}

#[test]
fn serialize_then_load_gives_object_back() {
    for (kind, content) in [
        (ObjectKind::Blob, b"world".to_vec()),
        (ObjectKind::Tree, vec![]),
        (ObjectKind::Commit, b"tree x\n".to_vec()),
        (ObjectKind::Tag, vec![0, 1, 2, 255]),
    ] {
        let stored = Object::new(kind, &content).serialize();
        let loaded = Object::from_stored(&stored.data).unwrap();
        assert_eq!(loaded.kind, kind);
        assert_eq!(loaded.content, content);
    }
}

#[test]
fn blob_hash_matches_known_digest() {
    let stored = Object::new(ObjectKind::Blob, b"hello\n").serialize();
    assert_eq!(hex::encode(&stored.hash), "ce013625030ba8dba906f756967f9e9ca394464a");
    assert_eq!(stored.dir, b"ce".to_vec());
    assert_eq!(stored.file, b"013625030ba8dba906f756967f9e9ca394464a".to_vec());
}

#[test]
fn serialize_is_deterministic() {
    let a = Object::new(ObjectKind::Blob, b"same").serialize();
    let _other = Object::new(ObjectKind::Blob, b"different").serialize();
    let b = Object::new(ObjectKind::Blob, b"same").serialize();
    assert_eq!(a.hash, b.hash);
    assert_eq!(a.data, b.data);
    let t = Object::new(ObjectKind::Tree, b"same").serialize();
    assert_ne!(a.hash, t.hash);
}

#[test]
fn encode_writes_header_nul_and_content() {
    let o = Object::new(ObjectKind::Commit, b"0123456789ab");
    assert_eq!(o.encode(), b"commit 12\x000123456789ab".to_vec());
    assert_eq!(Object::new(ObjectKind::Tag, b"").encode(), b"tag 0\0".to_vec());
}

#[test]
fn load_refuses_bad_files() {
    assert_eq!(Object::from_stored(b"not zlib").unwrap_err(), GitError::Corrupt);
    assert_eq!(Object::from_stored(&zlib(b"blob 3abc")).unwrap_err(), GitError::Corrupt);
    assert_eq!(Object::from_stored(&zlib(b"blub 3\0abc")).unwrap_err(), GitError::UnsupportedFormat);
    assert_eq!(Object::from_stored(&zlib(b"blob 4\0abc")).unwrap_err(), GitError::Corrupt);
    let o = Object::from_stored(&zlib(b"blob 3\0abc")).unwrap();
    assert_eq!(o.kind, ObjectKind::Blob);
    assert_eq!(o.content, b"abc".to_vec());
}

#[test]
fn parse_dispatches_on_kind() {
    match Object::new(ObjectKind::Blob, b"xyz").parse().unwrap() {
        ParsedObject::Blob(b) => assert_eq!(b, b"xyz".to_vec()),
        _ => panic!("expected a blob"),
    }
    assert!(matches!(Object::new(ObjectKind::Tag, b"t").parse().unwrap(), ParsedObject::Tag));
    let commit = b"tree 4b825dc642cb6eb9a060e54bf8d69288fbee4904\nauthor A 0 +0000\n\nm\n";
    match Object::new(ObjectKind::Commit, commit).parse().unwrap() {
        ParsedObject::Commit(t) => assert_eq!(t, b"4b825dc642cb6eb9a060e54bf8d69288fbee4904".to_vec()),
        _ => panic!("expected a commit"),
    }
    assert_eq!(Object::new(ObjectKind::Commit, b"parent x\n").parse().unwrap_err(), GitError::Truncated);
    match Object::new(ObjectKind::Tree, b"").parse().unwrap() {
        ParsedObject::Tree(es) => assert!(es.is_empty()),
        _ => panic!("expected a tree"),
    }
}

#[test]
fn expect_kind_reports_wrong_kind() {
    let blob = Object::new(ObjectKind::Blob, b"b");
    assert_eq!(blob.expect_tree().unwrap_err(), GitError::NotATree);
    assert_eq!(blob.expect_commit().unwrap_err(), GitError::UnsupportedFormat);
    assert_eq!(blob.expect_blob().unwrap(), b"b".to_vec());
    let tree = Object::new(ObjectKind::Tree, b"");
    assert_eq!(tree.expect_blob().unwrap_err(), GitError::NotABlob);
    assert!(tree.expect_tree().unwrap().is_empty());
}

#[test]
fn object_kind_names() {
    assert_eq!(ObjectKind::Blob.name(), b"blob".to_vec());
    assert_eq!(ObjectKind::Tree.name(), b"tree".to_vec());
    assert_eq!(ObjectKind::Commit.name(), b"commit".to_vec());
    assert_eq!(ObjectKind::Tag.name(), b"tag".to_vec());
}

#[test]
fn load_checks_hash_against_name() {
    let stored = Object::new(ObjectKind::Blob, b"hello\n").serialize();
    let name = hex::encode(&stored.hash);
    let o = Object::load(name.as_bytes(), &stored.data).unwrap();
    assert_eq!(o.content, b"hello\n".to_vec());
    let other = Object::new(ObjectKind::Blob, b"other").serialize();
    assert_eq!(Object::load(name.as_bytes(), &other.data).unwrap_err(), GitError::Corrupt);
    assert_eq!(Object::load(b"ce01", &stored.data).unwrap_err(), GitError::InvalidInput);
    assert_eq!(Object::load(name.as_bytes(), b"junk").unwrap_err(), GitError::Corrupt);
}
