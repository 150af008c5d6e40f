//! The object model and its loose on-disk form: a header
//! `"{kind} {length}"`, a NUL byte and the content, zlib-compressed and
//! named by the SHA-1 digest of the uncompressed bytes.
use crate::buf::find_byte;
use crate::commit::commit_tree;
use crate::commit::is_hash_name;
use crate::commit::is_hash_text;
use crate::primitives::hex_bytes;
use crate::primitives::hex_decode;
use crate::commit::parse_commit;
use crate::tree::parse_tree;
use crate::tree::tree_entries;
use crate::tree::views;
use crate::tree::TreeEntry;
use crate::buf::find_byte_from;
use crate::buf::lemma_find_byte_after;
use crate::buf::lemma_not_starts_with;
use crate::buf::push_all;
use crate::buf::push_range;
use crate::buf::starts_with;
use crate::buf::starts_with_at;
use crate::digits::digits;
use crate::digits::lemma_digits_are_digits;
use crate::digits::push_digits;
use crate::error::GitError;
use crate::primitives::hex_encode;
use crate::primitives::hex_text;
use crate::primitives::sha1_digest;
use crate::primitives::sha1_of;
use crate::primitives::zlib_best;
use crate::primitives::zlib_compress;
use crate::primitives::zlib_decompress;
use crate::primitives::zlib_inflate;
use crate::primitives::HASH_LEN;
use vstd::prelude::*;

verus! {

/// The four kinds of stored object.
#[derive(Clone, Copy, Debug, PartialEq, Eq, Structural)]
pub enum ObjectKind {
    Blob,
    Tree,
    Commit,
    Tag,
}

impl ObjectKind {
    /// The kind's name as it stands in a header.
    pub open spec fn spec_name(self) -> Seq<u8> {
        match self {
            ObjectKind::Blob => seq![0x62u8, 0x6c, 0x6f, 0x62],
            ObjectKind::Tree => seq![0x74u8, 0x72, 0x65, 0x65],
            ObjectKind::Commit => seq![0x63u8, 0x6f, 0x6d, 0x6d, 0x69, 0x74],
            ObjectKind::Tag => seq![0x74u8, 0x61, 0x67],
        }
    }

    /// The kind's name: "blob", "tree", "commit" or "tag".
    pub fn name(&self) -> (r: Vec<u8>)
        ensures
            r@ == self.spec_name(),
    {
        let r = match self {
            ObjectKind::Blob => vec![0x62u8, 0x6c, 0x6f, 0x62],
            ObjectKind::Tree => vec![0x74u8, 0x72, 0x65, 0x65],
            ObjectKind::Commit => vec![0x63u8, 0x6f, 0x6d, 0x6d, 0x69, 0x74],
            ObjectKind::Tag => vec![0x74u8, 0x61, 0x67],
        };
        assert(r@ =~= self.spec_name());
        r
    }
}

/// The header of an object of `kind` with `len` content bytes.
pub open spec fn header_of(kind: ObjectKind, len: nat) -> Seq<u8> {
    kind.spec_name() + seq![0x20u8] + digits(len, 10)
}

/// The bytes that are digested and compressed for an object.
pub open spec fn encoded(kind: ObjectKind, content: Seq<u8>) -> Seq<u8> {
    header_of(kind, content.len()) + seq![0u8] + content
}

/// The kind whose name and a space start a header.
pub open spec fn kind_of_header(h: Seq<u8>) -> Option<ObjectKind> {
    if starts_with(h, ObjectKind::Blob.spec_name().push(0x20)) {
        Some(ObjectKind::Blob)
    } else if starts_with(h, ObjectKind::Tree.spec_name().push(0x20)) {
        Some(ObjectKind::Tree)
    } else if starts_with(h, ObjectKind::Commit.spec_name().push(0x20)) {
        Some(ObjectKind::Commit)
    } else if starts_with(h, ObjectKind::Tag.spec_name().push(0x20)) {
        Some(ObjectKind::Tag)
    } else {
        None
    }
}

/// Splits uncompressed object bytes at the first NUL into header and
/// content: `Corrupt` without a NUL or when the header does not give the
/// content's length, `UnsupportedFormat` when it names no known kind.
pub open spec fn decode_raw(raw: Seq<u8>) -> Result<(ObjectKind, Seq<u8>), GitError> {
    match find_byte(raw, 0) {
        None => Err(GitError::Corrupt),
        Some(i) => {
            let h = raw.take(i as int);
            let c = raw.skip((i + 1) as int);
            match kind_of_header(h) {
                None => Err(GitError::UnsupportedFormat),
                Some(k) => if h == header_of(k, c.len()) {
                    Ok((k, c))
                } else {
                    Err(GitError::Corrupt)
                },
            }
        },
    }
}

/// What a loose object file holds: `Corrupt` when it is no zlib stream.
pub open spec fn decode_loose(file: Seq<u8>) -> Result<(ObjectKind, Seq<u8>), GitError> {
    match zlib_inflate(file) {
        None => Err(GitError::Corrupt),
        Some((raw, _)) => decode_raw(raw),
    }
}

/// What loading the file stored under the name `name` gives: `InvalidInput`
/// unless the name is forty hexadecimal digits, what `decode_loose` finds
/// wrong with the file, or `Corrupt` when the object read has another hash
/// than the name says.
pub open spec fn load_named(name: Seq<u8>, file: Seq<u8>) -> Result<(ObjectKind, Seq<u8>), GitError> {
    if !is_hash_text(name) {
        Err(GitError::InvalidInput)
    } else {
        match decode_loose(file) {
            Err(e) => Err(e),
            Ok((k, c)) => if sha1_of(encoded(k, c)) == hex_bytes(name) {
                Ok((k, c))
            } else {
                Err(GitError::Corrupt)
            },
        }
    }
}

/// One object: its kind and its content.
#[derive(Clone, Debug)]
pub struct Object {
    pub kind: ObjectKind,
    pub content: Vec<u8>,
}

/// An object read according to its kind: a blob's bytes, the tree that a
/// commit names (as hexadecimal text), a tag, or a tree's entries.
#[derive(Clone, Debug)]
pub enum ParsedObject {
    Blob(Vec<u8>),
    Commit(Vec<u8>),
    Tag,
    Tree(Vec<TreeEntry>),
}

/// An object in the form in which it is stored: its hash, the two parts of
/// its path under the object directory, and the compressed file bytes.
#[derive(Clone, Debug)]
pub struct LooseObject {
    pub hash: Vec<u8>,
    pub dir: Vec<u8>,
    pub file: Vec<u8>,
    pub data: Vec<u8>,
}

impl Object {
    /// An object of `kind` holding `content`.
    pub fn new(kind: ObjectKind, content: &[u8]) -> (r: Object)
        ensures
            r.kind == kind,
            r.content@ == content@,
    {
        let mut c: Vec<u8> = Vec::new();
        push_all(&mut c, content);
        Object { kind, content: c }
    }

    /// The header, a NUL byte and the content.
    pub fn encode(&self) -> (r: Vec<u8>)
        ensures
            r@ == encoded(self.kind, self.content@),
    {
        let mut out = self.kind.name();
        out.push(0x20);
        push_digits(&mut out, self.content.len() as u64, 10);
        out.push(0);
        push_all(&mut out, self.content.as_slice());
        assert(out@ =~= encoded(self.kind, self.content@));
        out
    }

    /// The object's hash: the SHA-1 digest of its encoded bytes.
    pub fn hash(&self) -> (r: Vec<u8>)
        ensures
            r@ == sha1_of(encoded(self.kind, self.content@)),
            r@.len() == HASH_LEN,
    {
        let e = self.encode();
        sha1_digest(e.as_slice())
    }

    /// The stored form of the object. Loading its bytes gives the object back.
    pub fn serialize(&self) -> (r: LooseObject)
        ensures
            r.hash@ == sha1_of(encoded(self.kind, self.content@)),
            r.hash@.len() == HASH_LEN,
            r.data@ == zlib_best(encoded(self.kind, self.content@)),
            r.dir@ == hex_text(r.hash@).take(2),
            r.file@ == hex_text(r.hash@).skip(2),
            decode_loose(r.data@) == Ok::<(ObjectKind, Seq<u8>), GitError>((self.kind, self.content@)),
    {
        let e = self.encode();
        let hash = sha1_digest(e.as_slice());
        let data = zlib_compress(e.as_slice());
        let text = hex_encode(hash.as_slice());
        let mut dir: Vec<u8> = Vec::new();
        push_range(&mut dir, text.as_slice(), 0, 2);
        let mut file: Vec<u8> = Vec::new();
        push_range(&mut file, text.as_slice(), 2, text.len());
        proof {
            lemma_decode_encoded(self.kind, self.content@);
            assert(dir@ =~= hex_text(hash@).take(2));
            assert(file@ =~= hex_text(hash@).skip(2));
        }
        LooseObject { hash, dir, file, data }
    }

    /// Reads an object back from the bytes of its loose file.
    pub fn from_stored(data: &[u8]) -> (r: Result<Object, GitError>)
        ensures
            match decode_loose(data@) {
                Ok((k, c)) => r matches Ok(o) && o.kind == k && o.content@ == c,
                Err(e) => r matches Err(x) && x == e,
            },
    {
        let raw_vec = match zlib_decompress(data) {
            Some((raw, _)) => raw,
            None => return Err(GitError::Corrupt),
        };
        let raw = raw_vec.as_slice();
        let n = raw.len();
        assert(raw@.skip(0) =~= raw@);
        assert(decode_loose(data@) == decode_raw(raw@));
        let nul = match find_byte_from(raw, 0, 0) {
            Some(i) => i,
            None => return Err(GitError::Corrupt),
        };
        let mut header: Vec<u8> = Vec::new();
        push_range(&mut header, raw, 0, nul);
        let mut content: Vec<u8> = Vec::new();
        push_range(&mut content, raw, nul + 1, n);
        assert(header@ =~= raw@.take(nul as int));
        assert(content@ =~= raw@.skip(nul + 1));
        let kind = match kind_from_header(header.as_slice()) {
            Some(k) => k,
            None => return Err(GitError::UnsupportedFormat),
        };
        let mut expected = kind.name();
        expected.push(0x20);
        push_digits(&mut expected, content.len() as u64, 10);
        assert(expected@ =~= header_of(kind, content@.len()));
        if !crate::buf::bytes_equal(expected.as_slice(), header.as_slice()) {
            return Err(GitError::Corrupt);
        }
        Ok(Object { kind, content })
    }
}

impl Object {
    /// Loads the object stored under the hexadecimal name `name` from the
    /// bytes of its file, and checks that the object read has that hash.
    pub fn load(name: &[u8], data: &[u8]) -> (r: Result<Object, GitError>)
        ensures
            match load_named(name@, data@) {
                Ok((k, c)) => r matches Ok(o) && o.kind == k && o.content@ == c,
                Err(e) => r matches Err(x) && x == e,
            },
    {
        if !is_hash_name(name) {
            return Err(GitError::InvalidInput);
        }
        let expected = match hex_decode(name) {
            Some(v) => v,
            None => return Err(GitError::InvalidInput),
        };
        let object = match Object::from_stored(data) {
            Ok(o) => o,
            Err(e) => return Err(e),
        };
        let actual = object.hash();
        if !crate::buf::bytes_equal(actual.as_slice(), expected.as_slice()) {
            return Err(GitError::Corrupt);
        }
        Ok(object)
    }
}

impl Object {
    /// Reads the object according to its kind.
    pub fn parse(&self) -> (r: Result<ParsedObject, GitError>)
        ensures
            match self.kind {
                ObjectKind::Blob => r matches Ok(ParsedObject::Blob(b)) && b@ == self.content@,
                ObjectKind::Tag => r matches Ok(ParsedObject::Tag),
                ObjectKind::Commit => match commit_tree(self.content@) {
                    Some(t) => r matches Ok(ParsedObject::Commit(x)) && x@ == t,
                    None => r matches Err(e) && e == GitError::Truncated,
                },
                ObjectKind::Tree => match tree_entries(self.content@) {
                    Ok(es) => r matches Ok(ParsedObject::Tree(v)) && views(v@) == es,
                    Err(e) => r matches Err(x) && x == e,
                },
            },
    {
        match self.kind {
            ObjectKind::Blob => {
                let mut b: Vec<u8> = Vec::new();
                push_all(&mut b, self.content.as_slice());
                Ok(ParsedObject::Blob(b))
            },
            ObjectKind::Tag => Ok(ParsedObject::Tag),
            ObjectKind::Commit => match parse_commit(self.content.as_slice()) {
                Ok(t) => Ok(ParsedObject::Commit(t)),
                Err(e) => Err(e),
            },
            ObjectKind::Tree => match parse_tree(self.content.as_slice()) {
                Ok(v) => Ok(ParsedObject::Tree(v)),
                Err(e) => Err(e),
            },
        }
    }

    /// The entries of a tree; `NotATree` for an object of another kind.
    pub fn expect_tree(&self) -> (r: Result<Vec<TreeEntry>, GitError>)
        ensures
            self.kind != ObjectKind::Tree ==> (r matches Err(e) && e == GitError::NotATree),
            self.kind == ObjectKind::Tree ==> match tree_entries(self.content@) {
                Ok(es) => r matches Ok(v) && views(v@) == es,
                Err(e) => r matches Err(x) && x == e,
            },
    {
        match self.kind {
            ObjectKind::Tree => parse_tree(self.content.as_slice()),
            _ => Err(GitError::NotATree),
        }
    }

    /// The bytes of a blob; `NotABlob` for an object of another kind.
    pub fn expect_blob(&self) -> (r: Result<Vec<u8>, GitError>)
        ensures
            self.kind != ObjectKind::Blob ==> (r matches Err(e) && e == GitError::NotABlob),
            self.kind == ObjectKind::Blob ==> (r matches Ok(b) && b@ == self.content@),
    {
        match self.kind {
            ObjectKind::Blob => {
                let mut b: Vec<u8> = Vec::new();
                push_all(&mut b, self.content.as_slice());
                Ok(b)
            },
            _ => Err(GitError::NotABlob),
        }
    }

    /// The tree that a commit names; `UnsupportedFormat` for an object of
    /// another kind.
    pub fn expect_commit(&self) -> (r: Result<Vec<u8>, GitError>)
        ensures
            self.kind != ObjectKind::Commit ==> (r matches Err(e) && e == GitError::UnsupportedFormat),
            self.kind == ObjectKind::Commit ==> match commit_tree(self.content@) {
                Some(t) => r matches Ok(x) && x@ == t,
                None => r matches Err(e) && e == GitError::Truncated,
            },
    {
        match self.kind {
            ObjectKind::Commit => parse_commit(self.content.as_slice()),
            _ => Err(GitError::UnsupportedFormat),
        }
    }
}

/// The kind that a header names.
fn kind_from_header(h: &[u8]) -> (r: Option<ObjectKind>)
    ensures
        r == kind_of_header(h@),
{
    assert(h@.skip(0) =~= h@);
    let mut p = ObjectKind::Blob.name();
    p.push(0x20);
    if starts_with_at(h, 0, p.as_slice()) {
        return Some(ObjectKind::Blob);
    }
    let mut p = ObjectKind::Tree.name();
    p.push(0x20);
    if starts_with_at(h, 0, p.as_slice()) {
        return Some(ObjectKind::Tree);
    }
    let mut p = ObjectKind::Commit.name();
    p.push(0x20);
    if starts_with_at(h, 0, p.as_slice()) {
        return Some(ObjectKind::Commit);
    }
    let mut p = ObjectKind::Tag.name();
    p.push(0x20);
    if starts_with_at(h, 0, p.as_slice()) {
        return Some(ObjectKind::Tag);
    }
    None
}

/// Decoding the encoded bytes of an object gives its kind and content back.
pub proof fn lemma_decode_encoded(kind: ObjectKind, content: Seq<u8>)
    ensures
        decode_raw(encoded(kind, content)) == Ok::<(ObjectKind, Seq<u8>), GitError>((kind, content)),
{
    let h = header_of(kind, content.len());
    lemma_digits_are_digits(content.len(), 10);
    assert forall|i: int| 0 <= i < h.len() implies h[i] != 0 by {
        if i >= kind.spec_name().len() + 1 {
            assert(h[i] == digits(content.len(), 10)[i - kind.spec_name().len() - 1]);
        }
    }
    lemma_find_byte_after(h, 0, content);
    let e = encoded(kind, content);
    assert(e =~= h + seq![0u8] + content);
    assert(e.take(h.len() as int) =~= h);
    assert(e.skip((h.len() + 1) as int) =~= content);
    let d = digits(content.len(), 10);
    assert(h[kind.spec_name().len() as int] == 0x20);
    assert(d[0] != 0x20);
    assert(h =~= kind.spec_name() + seq![0x20u8] + d);
    assert(h.take((kind.spec_name().len() + 1) as int) =~= kind.spec_name().push(0x20));
    assert(starts_with(h, kind.spec_name().push(0x20)));
    let b = ObjectKind::Blob.spec_name().push(0x20);
    let t = ObjectKind::Tree.spec_name().push(0x20);
    let c = ObjectKind::Commit.spec_name().push(0x20);
    match kind {
        ObjectKind::Blob => {},
        ObjectKind::Tree => {
            lemma_not_starts_with(h, b, 0);
        },
        ObjectKind::Commit => {
            lemma_not_starts_with(h, b, 0);
            lemma_not_starts_with(h, t, 0);
        },
        ObjectKind::Tag => {
            lemma_not_starts_with(h, b, 0);
            lemma_not_starts_with(h, t, 1);
            lemma_not_starts_with(h, c, 0);
        },
    }
    assert(kind_of_header(h) == Some(kind));
}

/// Serializing is a function of kind and content alone: two objects with the
/// same kind and content get the same hash and the same stored bytes, in
/// whatever order they are serialized.
pub proof fn lemma_serialize_deterministic(a: Object, b: Object)
    requires
        a.kind == b.kind,
        a.content@ == b.content@,
    ensures
        sha1_of(encoded(a.kind, a.content@)) == sha1_of(encoded(b.kind, b.content@)),
        zlib_best(encoded(a.kind, a.content@)) == zlib_best(encoded(b.kind, b.content@)),
{
}

} // verus!
