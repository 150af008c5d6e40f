//! Commit objects and the hexadecimal names of objects.
use crate::buf::ascii;
use crate::buf::literal;
use crate::buf::push_all;
use crate::buf::push_range;
use crate::buf::starts_with;
use crate::buf::starts_with_at;
use crate::digits::digits;
use crate::digits::push_digits;
use crate::error::GitError;
use crate::object::decode_loose;
use crate::object::encoded;
use crate::object::LooseObject;
use crate::object::Object;
use crate::object::ObjectKind;
use crate::primitives::hex_bytes;
use crate::primitives::hex_decode;
use crate::primitives::hex_encode;
use crate::primitives::hex_text;
use crate::primitives::hex_value;
use crate::primitives::is_hex_text;
use crate::primitives::sha1_of;
use crate::primitives::zlib_best;
use crate::primitives::HASH_HEX_LEN;
use crate::primitives::HASH_LEN;
use vstd::prelude::*;
use vstd::string::StringSliceAdditionalSpecFns;

verus! {

/// "tree ", the start of a commit.
pub open spec fn tree_prefix() -> Seq<u8> {
    ObjectKind::Tree.spec_name().push(0x20)
}

/// A full object name: forty hexadecimal digits.
pub open spec fn is_hash_text(s: Seq<u8>) -> bool {
    s.len() == HASH_HEX_LEN && is_hex_text(s)
}

/// The tree named on the first line of a commit, `"tree <40 hex digits>\n"`.
pub open spec fn commit_tree(content: Seq<u8>) -> Option<Seq<u8>> {
    if content.len() >= 46 && starts_with(content, tree_prefix()) && content[45] == 0x0a
        && is_hash_text(content.subrange(5, 45)) {
        Some(content.subrange(5, 45))
    } else {
        None
    }
}

/// The content of a commit of `tree` on `parent`, made at `time` (seconds
/// since the Unix epoch, in UTC) with `message`.
pub open spec fn commit_bytes(tree: Seq<u8>, parent: Option<Seq<u8>>, time: u64, message: Seq<u8>) -> Seq<u8> {
    let stamp = digits(time as nat, 10) + ascii(" +0000\n"@);
    tree_prefix() + hex_text(tree) + seq![0x0au8]
        + match parent {
            Some(p) => ascii("parent "@) + hex_text(p) + seq![0x0au8],
            None => Seq::empty(),
        }
        + ascii("author Anonymous "@) + stamp
        + ascii("committer Anonymous "@) + stamp
        + seq![0x0au8] + message + seq![0x0au8]
}

/// Whether a byte is a hexadecimal digit.
fn is_hex_digit(c: u8) -> (r: bool)
    ensures
        r == (hex_value(c) is Some),
{
    (0x30 <= c && c <= 0x39) || (0x61 <= c && c <= 0x66) || (0x41 <= c && c <= 0x46)
}

/// Whether `s` is a full object name.
pub fn is_hash_name(s: &[u8]) -> (r: bool)
    ensures
        r == is_hash_text(s@),
{
    if s.len() != HASH_HEX_LEN {
        return false;
    }
    let mut i: usize = 0;
    while i < s.len()
        invariant
            i <= s@.len(),
            forall|k: int| 0 <= k < i ==> (#[trigger] hex_value(s@[k])) is Some,
        decreases s@.len() - i,
    {
        if !is_hex_digit(s[i]) {
            return false;
        }
        i = i + 1;
    }
    true
}

/// The tree that a commit names, as hexadecimal text.
pub fn parse_commit(content: &[u8]) -> (r: Result<Vec<u8>, GitError>)
    ensures
        match commit_tree(content@) {
            Some(t) => r matches Ok(v) && v@ == t,
            None => r == Err::<Vec<u8>, GitError>(GitError::Truncated),
        },
{
    if content.len() < 46 || content[45] != 0x0a {
        return Err(GitError::Truncated);
    }
    let mut p = ObjectKind::Tree.name();
    p.push(0x20);
    assert(content@.skip(0) =~= content@);
    if !starts_with_at(content, 0, p.as_slice()) {
        return Err(GitError::Truncated);
    }
    let mut tree: Vec<u8> = Vec::new();
    push_range(&mut tree, content, 5, 45);
    if !is_hash_name(tree.as_slice()) {
        return Err(GitError::Truncated);
    }
    Ok(tree)
}

/// Appends an ASCII literal to `out`.
fn push_literal(out: &mut Vec<u8>, s: &str)
    requires
        s.is_ascii(),
    ensures
        final(out)@ == old(out)@ + ascii(s@),
{
    push_all(out, literal(s));
}

/// The content of a commit of `tree` on an optional `parent`, with author
/// and committer stamped at `time` seconds since the Unix epoch, in UTC.
pub fn commit_content(tree: &[u8], parent: Option<&[u8]>, time: u64, message: &[u8]) -> (r: Vec<u8>)
    ensures
        r@ == commit_bytes(tree@, match parent { Some(p) => Some(p@), None => None }, time, message@),
{
    let mut out = ObjectKind::Tree.name();
    out.push(0x20);
    let t = hex_encode(tree);
    push_all(&mut out, t.as_slice());
    out.push(0x0a);
    let ghost head = out@;
    match parent {
        Some(p) => {
            proof {
                reveal_strlit("parent ");
            }
            push_literal(&mut out, "parent ");
            let h = hex_encode(p);
            push_all(&mut out, h.as_slice());
            out.push(0x0a);
        },
        None => {},
    }
    let ghost with_parent = out@;
    let mut stamp: Vec<u8> = Vec::new();
    push_digits(&mut stamp, time, 10);
    proof {
        reveal_strlit(" +0000\n");
        reveal_strlit("author Anonymous ");
        reveal_strlit("committer Anonymous ");
    }
    push_literal(&mut stamp, " +0000\n");
    push_literal(&mut out, "author Anonymous ");
    push_all(&mut out, stamp.as_slice());
    push_literal(&mut out, "committer Anonymous ");
    push_all(&mut out, stamp.as_slice());
    out.push(0x0a);
    push_all(&mut out, message);
    out.push(0x0a);
    let ghost pv = match parent { Some(p) => Some(p@), None => None::<Seq<u8>> };
    assert(out@ =~= commit_bytes(tree@, pv, time, message@));
    out
}

/// A commit of `tree` on an optional `parent`, made at `time`, in stored form.
pub fn commit(tree: &[u8], parent: Option<&[u8]>, time: u64, message: &[u8]) -> (r: LooseObject)
    ensures
        ({
            let c = commit_bytes(tree@, match parent { Some(p) => Some(p@), None => None }, time, message@);
            &&& r.hash@ == sha1_of(encoded(ObjectKind::Commit, c))
            &&& r.hash@.len() == HASH_LEN
            &&& r.data@ == zlib_best(encoded(ObjectKind::Commit, c))
            &&& r.dir@ == hex_text(r.hash@).take(2)
            &&& r.file@ == hex_text(r.hash@).skip(2)
            &&& decode_loose(r.data@) == Ok::<(ObjectKind, Seq<u8>), GitError>((ObjectKind::Commit, c))
        }),
{
    let content = commit_content(tree, parent, time, message);
    Object::new(ObjectKind::Commit, content.as_slice()).serialize()
}

/// The bytes of a hash written as forty hexadecimal digits of either case;
/// `InvalidInput` for anything else.
pub fn parse_hash(hash: &str) -> (r: Result<Vec<u8>, GitError>)
    ensures
        if is_hash_text(hash.spec_bytes()) {
            r matches Ok(v) && v@ == hex_bytes(hash.spec_bytes())
        } else {
            r == Err::<Vec<u8>, GitError>(GitError::InvalidInput)
        },
{
    let hash = hash.as_bytes();
    if hash.len() != HASH_HEX_LEN {
        return Err(GitError::InvalidInput);
    }
    match hex_decode(hash) {
        Some(v) => Ok(v),
        None => Err(GitError::InvalidInput),
    }
}

/// Where an object lives under the object directory: the first two digits of
/// its name as a directory and the other thirty-eight as a file.
/// `InvalidInput` unless the name is forty hexadecimal digits.
pub fn object_path(hash: &[u8]) -> (r: Result<(Vec<u8>, Vec<u8>), GitError>)
    ensures
        if is_hash_text(hash@) {
            r matches Ok((d, f)) && d@ == hash@.take(2) && f@ == hash@.skip(2)
        } else {
            r == Err::<(Vec<u8>, Vec<u8>), GitError>(GitError::InvalidInput)
        },
{
    if !is_hash_name(hash) {
        return Err(GitError::InvalidInput);
    }
    let mut dir: Vec<u8> = Vec::new();
    push_range(&mut dir, hash, 0, 2);
    let mut file: Vec<u8> = Vec::new();
    push_range(&mut file, hash, 2, HASH_HEX_LEN);
    assert(dir@ =~= hash@.take(2));
    assert(file@ =~= hash@.skip(2));
    Ok((dir, file))
}

} // verus!
