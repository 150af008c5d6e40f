//! The pack stream: a signature, a version, an object count, the entries
//! one after the other (whole objects or deltas against earlier ones), and
//! a SHA-1 digest of everything before it.
use crate::buf::bytes_equal;
use crate::delta::delta_target;
use crate::delta::patch;
use crate::error::GitError;
use crate::object::encoded;
use crate::object::Object;
use crate::object::ObjectKind;
use crate::primitives::sha1_digest;
use crate::primitives::sha1_of;
use crate::primitives::zlib_decompress;
use crate::primitives::zlib_inflate;
use crate::primitives::HASH_LEN;
use crate::varint::offset_number;
use crate::varint::read_offset_number;
use crate::varint::read_size_number;
use crate::varint::size_number;
use crate::varint::MAX_NUMBER_BYTES;
use vstd::prelude::*;
use vstd::slice::slice_subrange;

verus! {

/// Length of the fixed header: signature, version and object count.
pub const PACK_HEADER_LEN: usize = 12;

/// The pack version that is read.
pub const PACK_VERSION: u32 = 2;

/// "PACK", the signature that starts a pack.
pub open spec fn pack_signature() -> Seq<u8> {
    seq![0x50u8, 0x41, 0x43, 0x4b]
}

/// The big-endian 32-bit number at `i`.
pub open spec fn be32(s: Seq<u8>, i: int) -> nat {
    (s[i] * 0x1000000 + s[i + 1] * 0x10000 + s[i + 2] * 0x100 + s[i + 3]) as nat
}

/// An object as plain values: its kind and content.
pub type ObjectView = (ObjectKind, Seq<u8>);

/// The views of a sequence of objects.
pub open spec fn object_views(os: Seq<Object>) -> Seq<ObjectView> {
    os.map_values(|o: Object| (o.kind, o.content@))
}

/// The kind that a whole-object type number stands for.
pub open spec fn kind_of_type(t: nat) -> Option<ObjectKind> {
    if t == 1 {
        Some(ObjectKind::Commit)
    } else if t == 2 {
        Some(ObjectKind::Tree)
    } else if t == 3 {
        Some(ObjectKind::Blob)
    } else if t == 4 {
        Some(ObjectKind::Tag)
    } else {
        None
    }
}

/// The entry header at the start of `s`: the type number (bits 4 to 6 of
/// the first byte), the declared size (the first byte's low four bits, then
/// a size number for the higher bits when its high bit is set), and the
/// number of bytes taken.
pub open spec fn entry_header(s: Seq<u8>) -> Option<(nat, nat, nat)> {
    if s.len() == 0 {
        None
    } else {
        let b = s[0];
        let t = ((b / 16) % 8) as nat;
        let low = (b % 16) as nat;
        if b < 128 {
            Some((t, low, 1nat))
        } else {
            match size_number(s.drop_first(), 8) {
                Some((v, used)) => Some((t, low + 16 * v, used + 1)),
                None => None,
            }
        }
    }
}

/// The zlib stream at `pos` of `body`, which must give exactly `size`
/// bytes: those bytes and the position after the stream.
pub open spec fn inflated_at(body: Seq<u8>, pos: nat, size: nat) -> Result<(Seq<u8>, nat), GitError> {
    match zlib_inflate(body.skip(pos as int)) {
        None => Err(GitError::Corrupt),
        Some((out, used)) => if out.len() != size {
            Err(GitError::SizeMismatch { expected: size as u64, actual: out.len() as u64 })
        } else if pos + used > body.len() {
            Err(GitError::Corrupt)
        } else {
            Ok((out, pos + used))
        },
    }
}

/// The last of the decoded objects whose hash is `h`.
pub open spec fn last_with_hash(done: Seq<ObjectView>, h: Seq<u8>) -> Option<nat>
    decreases done.len(),
{
    if done.len() == 0 {
        None
    } else if sha1_of(encoded(done.last().0, done.last().1)) == h {
        Some((done.len() - 1) as nat)
    } else {
        last_with_hash(done.drop_last(), h)
    }
}

/// A delta entry whose instructions start at `pos`, resolved against `base`.
pub open spec fn resolve_delta(body: Seq<u8>, pos: nat, size: nat, base: ObjectView) -> Result<(ObjectView, nat), GitError> {
    match inflated_at(body, pos, size) {
        Err(e) => Err(e),
        Ok((delta, next)) => match delta_target(base.1, delta) {
            Err(e) => Err(e),
            Ok(t) => Ok(((base.0, t), next)),
        },
    }
}

/// The entry at `pos` of `body`, after the objects `done`: the object it
/// stands for and the position after it.
pub open spec fn decode_entry(body: Seq<u8>, pos: nat, done: Seq<ObjectView>) -> Result<(ObjectView, nat), GitError> {
    match entry_header(body.skip(pos as int)) {
        None => Err(GitError::Corrupt),
        Some((t, size, used)) => {
            let p = pos + used;
            if 1 <= t <= 4 {
                match inflated_at(body, p, size) {
                    Err(e) => Err(e),
                    Ok((content, next)) => Ok(((kind_of_type(t)->0, content), next)),
                }
            } else if t == 6 {
                match offset_number(body.skip(p as int), MAX_NUMBER_BYTES as nat) {
                    None => Err(GitError::Corrupt),
                    Some((d, u)) => if d == 0 || d > done.len() {
                        Err(GitError::UnresolvedDelta { at: pos as u64 })
                    } else {
                        resolve_delta(body, p + u, size, done[done.len() - d])
                    },
                }
            } else if t == 7 {
                if p + HASH_LEN > body.len() {
                    Err(GitError::Corrupt)
                } else {
                    match last_with_hash(done, body.subrange(p as int, p + HASH_LEN)) {
                        None => Err(GitError::UnresolvedDelta { at: pos as u64 }),
                        Some(i) => resolve_delta(body, (p + HASH_LEN) as nat, size, done[i as int]),
                    }
                }
            } else {
                Err(GitError::UnsupportedFormat)
            }
        },
    }
}

/// The objects of `n` entries from `pos` of `body`, after the objects `done`.
pub open spec fn decode_entries(body: Seq<u8>, pos: nat, n: nat, done: Seq<ObjectView>) -> Result<Seq<ObjectView>, GitError>
    decreases n,
{
    if n == 0 {
        Ok(done)
    } else {
        match decode_entry(body, pos, done) {
            Err(e) => Err(e),
            Ok((o, next)) => decode_entries(body, next, (n - 1) as nat, done.push(o)),
        }
    }
}

/// What checking the frame of a pack finds: `Corrupt` when it is shorter
/// than its header and digest or its digest does not match,
/// `UnsupportedFormat` for another signature or version.
pub open spec fn pack_frame(pack: Seq<u8>) -> Result<(), GitError> {
    if pack.len() < PACK_HEADER_LEN + HASH_LEN {
        Err(GitError::Corrupt)
    } else {
        let body = pack.take(pack.len() - HASH_LEN);
        if sha1_of(body) != pack.skip(pack.len() - HASH_LEN) {
            Err(GitError::Corrupt)
        } else if body.take(4) != pack_signature() || be32(body, 4) != PACK_VERSION {
            Err(GitError::UnsupportedFormat)
        } else {
            Ok(())
        }
    }
}

/// The objects of a pack, in stream order.
pub open spec fn pack_contents(pack: Seq<u8>) -> Result<Seq<ObjectView>, GitError> {
    match pack_frame(pack) {
        Err(e) => Err(e),
        Ok(()) => {
            let body = pack.take(pack.len() - HASH_LEN);
            decode_entries(body, PACK_HEADER_LEN as nat, be32(body, 8), Seq::empty())
        },
    }
}

/// The big-endian 32-bit number at `i`.
fn read_be32(s: &[u8], i: usize) -> (r: u32)
    requires
        i + 4 <= s@.len(),
    ensures
        r == be32(s@, i as int),
{
    (s[i] as u32) * 0x1000000 + (s[i + 1] as u32) * 0x10000 + (s[i + 2] as u32) * 0x100 + (s[i + 3] as u32)
}

/// Checks the digest, signature and version of a pack.
pub fn verify_pack(pack: &[u8]) -> (r: Result<(), GitError>)
    ensures
        r == pack_frame(pack@),
{
    let n = pack.len();
    if n < PACK_HEADER_LEN + HASH_LEN {
        return Err(GitError::Corrupt);
    }
    let body = slice_subrange(pack, 0, n - HASH_LEN);
    let expected = slice_subrange(pack, n - HASH_LEN, n);
    assert(body@ =~= pack@.take(n - HASH_LEN));
    assert(expected@ =~= pack@.skip(n - HASH_LEN));
    let digest = sha1_digest(body);
    if !bytes_equal(digest.as_slice(), expected) {
        return Err(GitError::Corrupt);
    }
    let signature = slice_subrange(body, 0, 4);
    assert(signature@ =~= body@.take(4));
    let expected_signature: Vec<u8> = vec![0x50, 0x41, 0x43, 0x4b];
    assert(expected_signature@ =~= pack_signature());
    if !bytes_equal(signature, expected_signature.as_slice()) || read_be32(body, 4) != PACK_VERSION {
        return Err(GitError::UnsupportedFormat);
    }
    Ok(())
}

/// The header of the entry at `pos`: type number, declared size and the
/// position after the header.
fn parse_object_header(body: &[u8], pos: usize) -> (r: Result<(u8, u64, usize), GitError>)
    requires
        pos <= body@.len(),
    ensures
        match entry_header(body@.skip(pos as int)) {
            Some((t, size, used)) => r matches Ok((x, y, q)) && x == t && y == size && q == pos + used,
            None => r matches Err(e) && e == GitError::Corrupt,
        },
        r matches Ok((_, _, q)) ==> pos < q <= body@.len(),
{
    if pos >= body.len() {
        return Err(GitError::Corrupt);
    }
    let b = body[pos];
    let t: u8 = (b / 16) % 8;
    let low: u64 = (b % 16) as u64;
    assert(body@.skip(pos as int)[0] == b);
    if b < 128 {
        return Ok((t, low, pos + 1));
    }
    assert(body@.skip(pos as int).drop_first() =~= body@.skip(pos + 1));
    let (v, q) = match read_size_number(body, pos + 1, 8) {
        Ok(x) => x,
        Err(e) => return Err(e),
    };
    proof {
        crate::varint::lemma_pow128_8();
    }
    Ok((t, low + 16 * v, q))
}

/// The zlib stream at `pos`, which must give exactly `size` bytes.
fn unpack_content(body: &[u8], pos: usize, size: u64) -> (r: Result<(Vec<u8>, usize), GitError>)
    requires
        pos <= body@.len(),
    ensures
        match inflated_at(body@, pos as nat, size as nat) {
            Ok((c, next)) => r matches Ok((v, q)) && v@ == c && q == next,
            Err(e) => r matches Err(x) && x == e,
        },
        r matches Ok((_, q)) ==> q <= body@.len(),
{
    let n = body.len();
    let rest = slice_subrange(body, pos, n);
    assert(rest@ =~= body@.skip(pos as int));
    let (out, used) = match zlib_decompress(rest) {
        Some(x) => x,
        None => return Err(GitError::Corrupt),
    };
    if out.len() as u64 != size {
        return Err(GitError::SizeMismatch { expected: size, actual: out.len() as u64 });
    }
    if used > (n - pos) as u64 {
        return Err(GitError::Corrupt);
    }
    Ok((out, pos + used as usize))
}

/// A delta entry whose instructions start at `pos`, resolved against `base`.
fn patch_object(base: &Object, body: &[u8], pos: usize, size: u64) -> (r: Result<(Object, usize), GitError>)
    requires
        pos <= body@.len(),
    ensures
        match resolve_delta(body@, pos as nat, size as nat, (base.kind, base.content@)) {
            Ok((o, next)) => r matches Ok((x, q)) && x.kind == o.0 && x.content@ == o.1 && q == next,
            Err(e) => r matches Err(x) && x == e,
        },
        r matches Ok((_, q)) ==> q <= body@.len(),
{
    let (delta, next) = match unpack_content(body, pos, size) {
        Ok(x) => x,
        Err(e) => return Err(e),
    };
    let content = match patch(base.content.as_slice(), delta.as_slice()) {
        Ok(c) => c,
        Err(e) => return Err(e),
    };
    Ok((Object { kind: base.kind, content }, next))
}

/// The position of the last decoded object whose hash is `h`.
fn find_by_hash(hashes: &Vec<Vec<u8>>, h: &[u8], done: Ghost<Seq<ObjectView>>) -> (r: Option<usize>)
    requires
        hashes@.len() == done@.len(),
        forall|k: int| 0 <= k < hashes@.len() ==> (#[trigger] hashes@[k])@ == sha1_of(encoded(done@[k].0, done@[k].1)),
    ensures
        match last_with_hash(done@, h@) {
            Some(i) => r matches Some(x) && x == i && i < done@.len(),
            None => r is None,
        },
{
    let mut i: usize = hashes.len();
    assert(done@.take(i as int) =~= done@);
    while i > 0
        invariant
            i <= hashes@.len() == done@.len(),
            forall|k: int| 0 <= k < hashes@.len() ==> (#[trigger] hashes@[k])@ == sha1_of(encoded(done@[k].0, done@[k].1)),
            last_with_hash(done@, h@) == last_with_hash(done@.take(i as int), h@),
        decreases i,
    {
        assert(done@.take(i as int).last() == done@[i - 1]);
        if bytes_equal(hashes[i - 1].as_slice(), h) {
            return Some(i - 1);
        }
        assert(done@.take(i as int).drop_last() =~= done@.take(i - 1));
        i = i - 1;
    }
    None
}

/// The kind that a whole-object type number stands for.
fn kind_from_type(t: u8) -> (r: ObjectKind)
    requires
        1 <= t <= 4,
    ensures
        kind_of_type(t as nat) == Some(r),
{
    if t == 1 {
        ObjectKind::Commit
    } else if t == 2 {
        ObjectKind::Tree
    } else if t == 3 {
        ObjectKind::Blob
    } else {
        ObjectKind::Tag
    }
}

/// The entry at `pos`, after the objects `objects` whose hashes are `hashes`.
fn decode_one(body: &[u8], pos: usize, objects: &Vec<Object>, hashes: &Vec<Vec<u8>>) -> (r: Result<(Object, usize), GitError>)
    requires
        pos <= body@.len(),
        hashes@.len() == objects@.len(),
        forall|k: int| 0 <= k < hashes@.len() ==> (#[trigger] hashes@[k])@ == sha1_of(encoded(objects@[k].kind, objects@[k].content@)),
    ensures
        match decode_entry(body@, pos as nat, object_views(objects@)) {
            Ok((o, next)) => r matches Ok((x, q)) && x.kind == o.0 && x.content@ == o.1 && q == next,
            Err(e) => r matches Err(x) && x == e,
        },
        r matches Ok((_, q)) ==> q <= body@.len(),
{
    let ghost done = object_views(objects@);
    let (t, size, p) = match parse_object_header(body, pos) {
        Ok(x) => x,
        Err(e) => return Err(e),
    };
    if 1 <= t && t <= 4 {
        let (content, q) = match unpack_content(body, p, size) {
            Ok(x) => x,
            Err(e) => return Err(e),
        };
        Ok((Object { kind: kind_from_type(t), content }, q))
    } else if t == 6 {
        let (d, q) = match read_offset_number(body, p) {
            Ok(x) => x,
            Err(e) => return Err(e),
        };
        if d == 0 || d > objects.len() as u64 {
            return Err(GitError::UnresolvedDelta { at: pos as u64 });
        }
        let index = objects.len() - d as usize;
        assert(done[index as int] == (objects@[index as int].kind, objects@[index as int].content@));
        patch_object(&objects[index], body, q, size)
    } else if t == 7 {
        if body.len() - p < HASH_LEN {
            return Err(GitError::Corrupt);
        }
        let h = slice_subrange(body, p, p + HASH_LEN);
        proof {
            assert forall|k: int| 0 <= k < hashes@.len() implies (#[trigger] hashes@[k])@ == sha1_of(encoded(done[k].0, done[k].1)) by {
                assert(done[k] == (objects@[k].kind, objects@[k].content@));
            }
        }
        let index = match find_by_hash(hashes, h, Ghost(done)) {
            Some(x) => x,
            None => return Err(GitError::UnresolvedDelta { at: pos as u64 }),
        };
        assert(done[index as int] == (objects@[index as int].kind, objects@[index as int].content@));
        patch_object(&objects[index], body, p + HASH_LEN, size)
    } else {
        Err(GitError::UnsupportedFormat)
    }
}

/// Decodes a whole pack into its objects, in stream order, resolving each
/// delta against an object decoded before it. Nothing is decoded unless the
/// digest, signature and version check out.
pub fn parse(pack_buffer: Vec<u8>) -> (r: Result<Vec<Object>, GitError>)
    ensures
        match pack_contents(pack_buffer@) {
            Ok(os) => r matches Ok(v) && object_views(v@) == os,
            Err(e) => r matches Err(x) && x == e,
        },
{
    match verify_pack(pack_buffer.as_slice()) {
        Ok(()) => {},
        Err(e) => return Err(e),
    }
    let n = pack_buffer.len();
    let body = slice_subrange(pack_buffer.as_slice(), 0, n - HASH_LEN);
    assert(body@ =~= pack_buffer@.take(n - HASH_LEN));
    let count = read_be32(body, 8);
    let mut objects: Vec<Object> = Vec::new();
    let mut hashes: Vec<Vec<u8>> = Vec::new();
    let mut pos: usize = PACK_HEADER_LEN;
    let mut i: u32 = 0;
    assert(object_views(objects@) =~= Seq::<ObjectView>::empty());
    while i < count
        invariant
            pos <= body@.len(),
            i <= count,
            pack_contents(pack_buffer@) == decode_entries(body@, pos as nat, (count - i) as nat, object_views(objects@)),
            hashes@.len() == objects@.len(),
            forall|k: int| 0 <= k < hashes@.len() ==> (#[trigger] hashes@[k])@ == sha1_of(encoded(objects@[k].kind, objects@[k].content@)),
        decreases count - i,
    {
        let ghost done = object_views(objects@);
        let (object, next) = match decode_one(body, pos, &objects, &hashes) {
            Ok(x) => x,
            Err(e) => return Err(e),
        };
        let h = object.hash();
        hashes.push(h);
        let ghost o = (object.kind, object.content@);
        objects.push(object);
        assert(object_views(objects@) =~= done.push(o));
        pos = next;
        i = i + 1;
    }
    Ok(objects)
}

/// A pack whose trailing digest is not the digest of the bytes before it is
/// refused as `Corrupt` before any entry is read.
pub proof fn lemma_digest_mismatch_rejected(pack: Seq<u8>)
    requires
        pack.len() >= PACK_HEADER_LEN + HASH_LEN,
        sha1_of(pack.take(pack.len() - HASH_LEN)) != pack.skip(pack.len() - HASH_LEN),
    ensures
        pack_contents(pack) == Err::<Seq<ObjectView>, GitError>(GitError::Corrupt),
{
}

} // verus!
