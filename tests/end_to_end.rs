use mini_git::commit::{commit, object_path};
use mini_git::object::{LooseObject, Object, ObjectKind};
use mini_git::pack::parse;
use mini_git::refs::{initial_head, store_references};
use mini_git::remote::{fetch_request, pack_from_response, parse_discovery};
use mini_git::tree::{write_tree, TreeEntry};
use sha1::Digest;
use std::collections::HashMap;
use std::io::Write;

type Store = HashMap<(Vec<u8>, Vec<u8>), Vec<u8>>;

fn put(store: &mut Store, o: &LooseObject) {
    store.insert((o.dir.clone(), o.file.clone()), o.data.clone());
}

fn load(store: &Store, hex_name: &[u8]) -> Object {
    let (d, f) = object_path(hex_name).unwrap();
    Object::from_stored(store.get(&(d, f)).unwrap()).unwrap()
}

/// Walks a commit down to its files: (name, mode, content).
fn checkout(store: &Store, commit_hex: &[u8]) -> Vec<(Vec<u8>, u32, Vec<u8>)> {
    let tree_hex = load(store, commit_hex).expect_commit().unwrap();
    let entries = load(store, &tree_hex).expect_tree().unwrap();
    entries
        .into_iter()
        .map(|e| {
            let content = load(store, hex::encode(&e.hash).as_bytes()).expect_blob().unwrap();
            (e.name, e.mode, content)
        })
        .collect()
}

fn zlib(data: &[u8]) -> Vec<u8> {
    let mut e = flate2::write::ZlibEncoder::new(Vec::new(), flate2::Compression::default());
    e.write_all(data).unwrap();
    e.finish().unwrap()
}

#[test]
fn init_commit_checkout_round_trip() {
    assert_eq!(initial_head(), b"ref: refs/heads/master\n".to_vec());
    let mut store = Store::new();
    let blob = Object::new(ObjectKind::Blob, b"world").serialize();
    put(&mut store, &blob);
    let tree = write_tree(vec![TreeEntry { mode: 0o100755, name: b"hello.txt".to_vec(), hash: blob.hash.clone() }]);
    put(&mut store, &tree);
    let c = commit(&tree.hash, None, 1700000000, b"first");
    put(&mut store, &c);
    let files = checkout(&store, hex::encode(&c.hash).as_bytes());
    assert_eq!(files, vec![(b"hello.txt".to_vec(), 0o100755, b"world".to_vec())]);
}

#[test]
fn clone_from_fabricated_server() {
    let blob = Object::new(ObjectKind::Blob, b"world");
    let tree_content = {
        let mut v = b"100644 hello.txt\0".to_vec();
        v.extend(blob.hash());
        v
    };
    let tree = Object::new(ObjectKind::Tree, &tree_content);
    let commit_content = format!(
        "tree {}\nauthor A 1 +0000\ncommitter A 1 +0000\n\nm\n",
        hex::encode(tree.hash())
    );
    let commit_object = Object::new(ObjectKind::Commit, commit_content.as_bytes());
    let commit_hex = hex::encode(commit_object.hash());

    let pkt = |s: &str| format!("{:04x}{}", s.len() + 4, s);
    let discovery = format!(
        "{}0000{}{}0000",
        pkt("# service=git-upload-pack\n"),
        pkt(&format!("{commit_hex} HEAD\0multi_ack allow-tip-sha1-in-want\n")),
        pkt(&format!("{commit_hex} refs/heads/master\n"))
    );
    let (refs, _) = parse_discovery(discovery.as_bytes()).unwrap();
    let request = fetch_request(&refs);
    assert!(request.ends_with(b"00000009done\n"));

    let mut pack = b"PACK".to_vec();
    pack.extend(2u32.to_be_bytes());
    pack.extend(3u32.to_be_bytes());
    for (t, o) in [(1u8, &commit_object), (2, &tree), (3, &blob)] {
        assert!(o.content.len() < 16 * 128);
        let n = o.content.len();
        if n < 16 {
            pack.push((t << 4) | n as u8);
        } else {
            pack.push(0x80 | (t << 4) | (n & 15) as u8);
            pack.push((n >> 4) as u8);
        }
        pack.extend(zlib(&o.content));
    }
    let digest = sha1::Sha1::digest(&pack);
    pack.extend(digest.as_slice());
    let mut response = b"0008NAK\n".to_vec();
    response.extend(&pack);

    let objects = parse(pack_from_response(&response).unwrap()).unwrap();
    let mut store = Store::new();
    for o in &objects {
        put(&mut store, &o.serialize());
    }
    assert_eq!(store.len(), 3);

    let (files, head) = store_references(&refs).unwrap();
    assert_eq!(head, b"ref: refs/heads/master\n".to_vec());
    assert_eq!(files.len(), 1);
    assert_eq!(files[0].content, format!("{commit_hex}\n").into_bytes());

    let checked_out = checkout(&store, &refs[0].hash);
    assert_eq!(checked_out, vec![(b"hello.txt".to_vec(), 0o100644, b"world".to_vec())]);
}
