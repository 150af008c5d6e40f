use mini_git::error::GitError;
use mini_git::object::{Object, ObjectKind};
use mini_git::pack::{parse, verify_pack};
use sha1::Digest;
use std::io::Write;

fn zlib(data: &[u8]) -> Vec<u8> {
    let mut e = flate2::write::ZlibEncoder::new(Vec::new(), flate2::Compression::default());
    e.write_all(data).unwrap();
    e.finish().unwrap()
}

fn header(t: u8, size: usize) -> Vec<u8> {
    let mut v = vec![];
    let mut b = (t << 4) | (size & 15) as u8;
    let mut rest = size >> 4;
    while rest > 0 {
        v.push(b | 0x80);
        b = (rest & 0x7f) as u8;
        rest >>= 7;
    }
    v.push(b);
    v
}

fn whole(t: u8, content: &[u8]) -> Vec<u8> {
    let mut v = header(t, content.len());
    v.extend(zlib(content));
    v
}

fn build(version: u32, entries: &[Vec<u8>]) -> Vec<u8> {
    let mut p = b"PACK".to_vec();
    p.extend(version.to_be_bytes());
    p.extend((entries.len() as u32).to_be_bytes());
    for e in entries {
        p.extend(e);
    }
    let digest = sha1::Sha1::digest(&p);
    p.extend(digest.as_slice());
    p
}

#[test]
fn parses_whole_objects_in_order() {
    let p = build(2, &[whole(1, b"tree x\n"), whole(2, b""), whole(3, b"world"), whole(4, b"tag")]);
    let os = parse(p).unwrap();
    assert_eq!(os.len(), 4);
    assert_eq!(os[0].kind, ObjectKind::Commit);
    assert_eq!(os[0].content, b"tree x\n".to_vec());
    assert_eq!(os[1].kind, ObjectKind::Tree);
    assert_eq!(os[2].kind, ObjectKind::Blob);
    assert_eq!(os[2].content, b"world".to_vec());
    assert_eq!(os[3].kind, ObjectKind::Tag);
}

#[test]
fn parses_large_sizes() {
    let big = vec![7u8; 5000];
    let os = parse(build(2, &[whole(3, &big)])).unwrap();
    assert_eq!(os[0].content, big);
}

#[test]
fn empty_pack_has_no_objects() {
    assert!(parse(build(2, &[])).unwrap().is_empty());
}

#[test]
fn resolves_offset_delta_against_earlier_entry() {
    let delta = [11u8, 5, 0x90, 5];
    let mut e = header(6, delta.len());
    e.push(1);
    e.extend(zlib(&delta));
    let os = parse(build(2, &[whole(3, b"hello world"), e])).unwrap();
    assert_eq!(os.len(), 2);
    assert_eq!(os[1].kind, ObjectKind::Blob);
    assert_eq!(os[1].content, b"hello".to_vec());
}

#[test]
fn resolves_reference_delta_by_hash() {
    let base_hash = Object::new(ObjectKind::Blob, b"hello world").hash();
    let delta = [11u8, 7, 0x91, 6, 5, 2, b'!', b'!'];
    let mut e = header(7, delta.len());
    e.extend(&base_hash);
    e.extend(zlib(&delta));
    let os = parse(build(2, &[whole(2, b""), whole(3, b"hello world"), e])).unwrap();
    assert_eq!(os[2].kind, ObjectKind::Blob);
    assert_eq!(os[2].content, b"world!!".to_vec());
}

#[test]
fn unknown_base_is_unresolved() {
    let delta = [1u8, 1, 0x90, 1];
    let first = whole(3, b"x");
    let at = (12 + first.len()) as u64;
    let mut e = header(7, delta.len());
    e.extend([0u8; 20]);
    e.extend(zlib(&delta));
    assert_eq!(parse(build(2, &[first.clone(), e])).unwrap_err(), GitError::UnresolvedDelta { at });
    let mut o = header(6, delta.len());
    o.push(2);
    o.extend(zlib(&delta));
    assert_eq!(parse(build(2, &[first, o])).unwrap_err(), GitError::UnresolvedDelta { at });
}

#[test]
fn flipped_byte_fails_digest() {
    let good = build(2, &[whole(1, b"tree x\n"), whole(2, b""), whole(3, b"world")]);
    assert!(parse(good.clone()).is_ok());
    for i in [0, 5, 12, good.len() / 2, good.len() - 21] {
        let mut bad = good.clone();
        bad[i] ^= 0x01;
        assert_eq!(parse(bad.clone()).unwrap_err(), GitError::Corrupt);
        assert_eq!(verify_pack(&bad).unwrap_err(), GitError::Corrupt);
    }
}

#[test]
fn bad_signature_or_version_is_unsupported() {
    assert_eq!(parse(build(3, &[])).unwrap_err(), GitError::UnsupportedFormat);
    let mut p = b"PACX".to_vec();
    p.extend(2u32.to_be_bytes());
    p.extend(0u32.to_be_bytes());
    let digest = sha1::Sha1::digest(&p);
    p.extend(digest.as_slice());
    assert_eq!(parse(p).unwrap_err(), GitError::UnsupportedFormat);
}

#[test]
fn short_or_truncated_pack_is_corrupt() {
    assert_eq!(parse(vec![0; 10]).unwrap_err(), GitError::Corrupt);
    let mut e = whole(3, b"world");
    e.truncate(e.len() - 3);
    assert_eq!(parse(build(2, &[e])).unwrap_err(), GitError::Corrupt);
    assert_eq!(
        parse(build(2, &[header(3, 9).into_iter().chain(zlib(b"world")).collect()])).unwrap_err(),
        GitError::SizeMismatch { expected: 9, actual: 5 }
    );
}

#[test]
fn unknown_type_is_unsupported() {
    assert_eq!(parse(build(2, &[whole(5, b"x")])).unwrap_err(), GitError::UnsupportedFormat);
}
