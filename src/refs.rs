//! Reference storage: what the HEAD file and each reference file hold.
use crate::buf::ascii;
use crate::buf::bytes_equal;
use crate::buf::literal;
use crate::buf::push_all;
use crate::error::GitError;
use crate::primitives::hex_encode;
use crate::primitives::hex_text;
use crate::remote::reference_views;
use crate::remote::Reference;
use crate::remote::ReferenceView;
use vstd::prelude::*;

verus! {

/// One file to write under the repository's metadata directory: its path
/// there and its content.
#[derive(Clone, Debug)]
pub struct RefFile {
    pub path: Vec<u8>,
    pub content: Vec<u8>,
}

/// The HEAD of a new repository, which points at the master branch.
pub open spec fn initial_head_bytes() -> Seq<u8> {
    ascii("ref: refs/heads/master\n"@)
}

/// The HEAD of a new repository: `ref: refs/heads/master`.
pub fn initial_head() -> (r: Vec<u8>)
    ensures
        r@ == initial_head_bytes(),
{
    proof {
        reveal_strlit("ref: refs/heads/master\n");
    }
    let mut out: Vec<u8> = Vec::new();
    push_all(&mut out, literal("ref: refs/heads/master\n"));
    out
}

/// The path, under the metadata directory, of the branch that commits advance.
pub fn current_branch_path() -> (r: Vec<u8>)
    ensures
        r@ == ascii("refs/heads/master"@),
{
    proof {
        reveal_strlit("refs/heads/master");
    }
    let mut out: Vec<u8> = Vec::new();
    push_all(&mut out, literal("refs/heads/master"));
    out
}

/// A reference file for a raw hash: its hexadecimal name and a line feed.
pub fn ref_file_content(hash: &[u8]) -> (r: Vec<u8>)
    ensures
        r@ == hex_text(hash@).push(0x0a),
{
    let mut out = hex_encode(hash);
    out.push(0x0a);
    out
}

/// The name of the last reference in `rs` whose hash is `h`.
pub open spec fn last_name_with(rs: Seq<ReferenceView>, h: Seq<u8>) -> Option<Seq<u8>>
    decreases rs.len(),
{
    if rs.len() == 0 {
        None
    } else if rs.last().0 == h {
        Some(rs.last().1)
    } else {
        last_name_with(rs.drop_last(), h)
    }
}

/// The HEAD after a clone: a symbolic reference to the last other
/// reference with the hash of the first one, else that hash itself.
pub open spec fn cloned_head(rs: Seq<ReferenceView>) -> Seq<u8> {
    match last_name_with(rs.skip(1), rs[0].0) {
        Some(n) => ascii("ref: "@) + n + seq![0x0au8],
        None => rs[0].0.push(0x0a),
    }
}

/// The files that store advertised references: one per reference after
/// the first, holding its hash.
pub open spec fn ref_files(rs: Seq<ReferenceView>) -> Seq<(Seq<u8>, Seq<u8>)> {
    rs.skip(1).map_values(|r: ReferenceView| (r.1, r.0.push(0x0a)))
}

/// The views of a sequence of files.
pub open spec fn file_views(fs: Seq<RefFile>) -> Seq<(Seq<u8>, Seq<u8>)> {
    fs.map_values(|f: RefFile| (f.path@, f.content@))
}

/// The files that store the references of a clone, and the content of HEAD.
/// The first reference is what HEAD resolves to; each of the others gets a
/// file of its own. `NotFound` when there is no reference.
pub fn store_references(refs: &[Reference]) -> (r: Result<(Vec<RefFile>, Vec<u8>), GitError>)
    ensures
        refs@.len() == 0 ==> (r matches Err(e) && e == GitError::NotFound),
        refs@.len() > 0 ==> (r matches Ok((fs, head)) && file_views(fs@) == ref_files(reference_views(refs@))
            && head@ == cloned_head(reference_views(refs@))),
{
    if refs.len() == 0 {
        return Err(GitError::NotFound);
    }
    let ghost rs = reference_views(refs@);
    let head_hash = refs[0].hash.as_slice();
    assert(rs[0] == refs@[0]@);
    let mut files: Vec<RefFile> = Vec::new();
    let mut target: Option<usize> = None;
    let mut i: usize = 1;
    assert(rs.subrange(1, 1) =~= Seq::<ReferenceView>::empty());
    while i < refs.len()
        invariant
            1 <= i <= refs@.len(),
            rs == reference_views(refs@),
            head_hash@ == rs[0].0,
            file_views(files@) == ref_files(rs).take(i - 1),
            match target {
                Some(t) => 1 <= t < i && last_name_with(rs.subrange(1, i as int), rs[0].0) == Some(rs[t as int].1),
                None => last_name_with(rs.subrange(1, i as int), rs[0].0) is None,
            },
        decreases refs@.len() - i,
    {
        let r = &refs[i];
        assert(rs[i as int] == r@);
        assert(rs.subrange(1, i + 1).drop_last() =~= rs.subrange(1, i as int));
        assert(rs.subrange(1, i + 1).last() == r@);
        if bytes_equal(r.hash.as_slice(), head_hash) {
            target = Some(i);
        }
        let mut content: Vec<u8> = Vec::new();
        push_all(&mut content, r.hash.as_slice());
        content.push(0x0a);
        let mut path: Vec<u8> = Vec::new();
        push_all(&mut path, r.name.as_slice());
        let ghost before = file_views(files@);
        files.push(RefFile { path, content });
        assert(file_views(files@) =~= before.push((r.name@, r.hash@.push(0x0a))));
        assert(ref_files(rs).take(i as int) =~= ref_files(rs).take(i - 1).push((r.name@, r.hash@.push(0x0a))));
        i = i + 1;
    }
    assert(ref_files(rs).take(i - 1) =~= ref_files(rs));
    assert(rs.subrange(1, i as int) =~= rs.skip(1));
    proof {
        reveal_strlit("ref: ");
    }
    let mut head: Vec<u8> = Vec::new();
    match target {
        Some(t) => {
            push_all(&mut head, literal("ref: "));
            push_all(&mut head, refs[t].name.as_slice());
            head.push(0x0a);
            assert(rs[t as int] == refs@[t as int]@);
        },
        None => {
            push_all(&mut head, head_hash);
            head.push(0x0a);
        },
    }
    assert(head@ =~= cloned_head(rs));
    Ok((files, head))
}

} // verus!
