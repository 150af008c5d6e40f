//! Tree objects: a sequence of `"<octal mode> <name>\0<20-byte hash>"`
//! records, kept in the raw byte order of the names.
use crate::buf::find_byte;
use crate::buf::find_byte_from;
use crate::buf::push_all;
use crate::buf::push_range;
use crate::digits::digits;
use crate::digits::digits_value;
use crate::digits::lemma_digits_are_digits;
use crate::digits::lemma_digits_value;
use crate::buf::lemma_find_byte_after;
use crate::digits::push_digits;
use crate::error::GitError;
use crate::object::decode_loose;
use crate::object::encoded;
use crate::primitives::hex_text;
use crate::object::LooseObject;
use crate::object::Object;
use crate::object::ObjectKind;
use crate::primitives::sha1_of;
use crate::primitives::zlib_best;
use crate::primitives::HASH_LEN;
use vstd::multiset::Multiset;
use vstd::prelude::*;

verus! {

/// The mode of a directory entry.
pub const DIRECTORY_MODE: u32 = 0o40000;

/// One entry of a tree: permission and type bits, a name, and the hash of
/// the blob or tree it refers to.
#[derive(Clone, Debug)]
pub struct TreeEntry {
    pub mode: u32,
    pub name: Vec<u8>,
    pub hash: Vec<u8>,
}

/// A tree entry as plain values: mode, name and hash.
pub type EntryView = (u32, Seq<u8>, Seq<u8>);

impl View for TreeEntry {
    type V = EntryView;

    open spec fn view(&self) -> EntryView {
        (self.mode, self.name@, self.hash@)
    }
}

/// The views of a sequence of entries.
pub open spec fn views(es: Seq<TreeEntry>) -> Seq<EntryView> {
    es.map_values(|e: TreeEntry| e@)
}

/// The record of one entry.
pub open spec fn entry_bytes(e: EntryView) -> Seq<u8> {
    digits(e.0 as nat, 8) + seq![0x20u8] + e.1 + seq![0u8] + e.2
}

/// The records of a sequence of entries, one after the other.
pub open spec fn tree_bytes(es: Seq<EntryView>) -> Seq<u8>
    decreases es.len(),
{
    if es.len() == 0 {
        Seq::empty()
    } else {
        tree_bytes(es.drop_last()) + entry_bytes(es.last())
    }
}

/// A mode written in octal: at least one digit, and a value that fits in 32 bits.
pub open spec fn mode_value(s: Seq<u8>) -> Option<u32> {
    if s.len() == 0 {
        None
    } else {
        match digits_value(s, 8) {
            Some(v) => if v <= u32::MAX { Some(v as u32) } else { None },
            None => None,
        }
    }
}

/// The entries of tree content. `Truncated` when a record lacks its space,
/// its NUL or part of its hash; `Corrupt` when its mode is no octal number.
pub open spec fn tree_entries(data: Seq<u8>) -> Result<Seq<EntryView>, GitError>
    decreases data.len(),
{
    if data.len() == 0 {
        Ok(Seq::empty())
    } else {
        match find_byte(data, 0x20) {
            None => Err(GitError::Truncated),
            Some(sp) => match mode_value(data.take(sp as int)) {
                None => Err(GitError::Corrupt),
                Some(mode) => {
                    let after = data.skip((sp + 1) as int);
                    match find_byte(after, 0) {
                        None => Err(GitError::Truncated),
                        Some(nul) => if after.len() < nul + 1 + HASH_LEN || sp + 1 > data.len() {
                            Err(GitError::Truncated)
                        } else {
                            let e = (mode, after.take(nul as int), after.subrange((nul + 1) as int, (nul + 1 + HASH_LEN) as int));
                            match tree_entries(after.skip((nul + 1 + HASH_LEN) as int)) {
                                Ok(rest) => Ok(seq![e] + rest),
                                Err(x) => Err(x),
                            }
                        },
                    }
                },
            },
        }
    }
}

/// `done` followed by the entries that `rest` gives, when it gives any.
pub open spec fn entries_after(done: Seq<EntryView>, rest: Result<Seq<EntryView>, GitError>) -> Result<Seq<EntryView>, GitError> {
    match rest {
        Ok(t) => Ok(done + t),
        Err(e) => Err(e),
    }
}

proof fn lemma_digits_value_prefix(s: Seq<u8>, i: int)
    requires
        0 <= i <= s.len(),
        digits_value(s, 8) is Some,
    ensures
        digits_value(s.take(i), 8) matches Some(w) && w <= digits_value(s, 8)->0,
    decreases s.len(),
{
    if i < s.len() {
        assert(s.drop_last().take(i) =~= s.take(i));
        lemma_digits_value_prefix(s.drop_last(), i);
    } else {
        assert(s.take(i) =~= s);
    }
}

/// The mode written in `s[from..to]`.
fn parse_mode(s: &[u8], from: usize, to: usize) -> (r: Option<u32>)
    requires
        from <= to <= s@.len(),
    ensures
        r == mode_value(s@.subrange(from as int, to as int)),
{
    let ghost t = s@.subrange(from as int, to as int);
    if from == to {
        return None;
    }
    let mut v: u64 = 0;
    let mut i: usize = from;
    assert(t.take(0) =~= Seq::<u8>::empty());
    while i < to
        invariant
            from <= i <= to <= s@.len(),
            t == s@.subrange(from as int, to as int),
            digits_value(t.take(i - from), 8) == Some(v as nat),
            v <= u32::MAX,
        decreases to - i,
    {
        let c = s[i];
        assert(t.take(i - from + 1).drop_last() =~= t.take(i - from));
        assert(t.take(i - from + 1).last() == c);
        if c < 0x30 || c > 0x37 {
            proof {
                if digits_value(t, 8) is Some {
                    lemma_digits_value_prefix(t, i - from + 1);
                }
            }
            return None;
        }
        v = v * 8 + (c - 0x30) as u64;
        if v > 0xffff_ffff {
            proof {
                if digits_value(t, 8) is Some {
                    lemma_digits_value_prefix(t, i - from + 1);
                }
            }
            return None;
        }
        i = i + 1;
    }
    assert(t.take(to - from) =~= t);
    Some(v as u32)
}

/// Reads the entries of tree content.
pub fn parse_tree(data: &[u8]) -> (r: Result<Vec<TreeEntry>, GitError>)
    ensures
        match tree_entries(data@) {
            Ok(es) => r matches Ok(v) && views(v@) == es,
            Err(e) => r matches Err(x) && x == e,
        },
{
    let mut out: Vec<TreeEntry> = Vec::new();
    let mut pos: usize = 0;
    let n = data.len();
    assert(data@.skip(0) =~= data@);
    assert(views(out@) + Seq::<EntryView>::empty() =~= Seq::<EntryView>::empty());
    proof {
        if let Ok(es) = tree_entries(data@) {
            assert(views(out@) + es =~= es);
        }
    }
    while pos < n
        invariant
            pos <= n == data@.len(),
            tree_entries(data@) == entries_after(views(out@), tree_entries(data@.skip(pos as int))),
        decreases n - pos,
    {
        let ghost cur = data@.skip(pos as int);
        let sp = match find_byte_from(data, pos, 0x20) {
            Some(i) => i,
            None => return Err(GitError::Truncated),
        };
        assert(cur.take(sp - pos) =~= data@.subrange(pos as int, sp as int));
        let mode = match parse_mode(data, pos, sp) {
            Some(m) => m,
            None => return Err(GitError::Corrupt),
        };
        let ghost after = cur.skip(sp - pos + 1);
        assert(after =~= data@.skip(sp + 1));
        let nul = match find_byte_from(data, sp + 1, 0) {
            Some(i) => i,
            None => return Err(GitError::Truncated),
        };
        if n - nul - 1 < HASH_LEN {
            return Err(GitError::Truncated);
        }
        let mut name: Vec<u8> = Vec::new();
        push_range(&mut name, data, sp + 1, nul);
        let mut hash: Vec<u8> = Vec::new();
        push_range(&mut hash, data, nul + 1, nul + 1 + HASH_LEN);
        let ghost k = nul - sp - 1;
        assert(name@ =~= after.take(k));
        assert(hash@ =~= after.subrange(k + 1, k + 1 + HASH_LEN));
        assert(after.skip(k + 1 + HASH_LEN) =~= data@.skip(nul + 1 + HASH_LEN));
        let entry = TreeEntry { mode, name, hash };
        let ghost before = views(out@);
        out.push(entry);
        proof {
            assert(views(out@) =~= before + seq![entry@]);
            match tree_entries(data@.skip(nul + 1 + HASH_LEN)) {
                Ok(t) => assert(before + (seq![entry@] + t) =~= (before + seq![entry@]) + t),
                Err(_) => {},
            }
        }
        pos = nul + 1 + HASH_LEN;
    }
    assert(data@.skip(pos as int) =~= Seq::<u8>::empty());
    assert(views(out@) + Seq::<EntryView>::empty() =~= views(out@));
    Ok(out)
}

/// Appends the records of `entries` to `out`.
pub fn encode_entries(out: &mut Vec<u8>, entries: &[TreeEntry])
    ensures
        final(out)@ == old(out)@ + tree_bytes(views(entries@)),
{
    let mut i: usize = 0;
    assert(views(entries@).take(0) =~= Seq::<EntryView>::empty());
    assert(old(out)@ + Seq::<u8>::empty() =~= old(out)@);
    while i < entries.len()
        invariant
            i <= entries@.len(),
            out@ == old(out)@ + tree_bytes(views(entries@).take(i as int)),
        decreases entries@.len() - i,
    {
        let e = &entries[i];
        let ghost before = out@;
        push_digits(out, e.mode as u64, 8);
        out.push(0x20);
        push_all(out, e.name.as_slice());
        out.push(0);
        push_all(out, e.hash.as_slice());
        proof {
            let vs = views(entries@);
            assert(vs.take(i + 1).drop_last() =~= vs.take(i as int));
            assert(vs.take(i + 1).last() == e@);
            assert(out@ =~= before + entry_bytes(e@));
            assert(old(out)@ + tree_bytes(vs.take(i + 1)) =~= old(out)@ + tree_bytes(vs.take(i as int)) + entry_bytes(e@));
        }
        i = i + 1;
    }
    assert(views(entries@).take(entries@.len() as int) =~= views(entries@));
}

/// Raw byte order of names: `a` comes no later than `b`.
pub open spec fn name_le(a: Seq<u8>, b: Seq<u8>) -> bool
    decreases a.len(),
{
    if a.len() == 0 {
        true
    } else if b.len() == 0 {
        false
    } else if a[0] != b[0] {
        a[0] < b[0]
    } else {
        name_le(a.drop_first(), b.drop_first())
    }
}

/// Entries in raw byte order of their names.
pub open spec fn sorted_by_name(es: Seq<EntryView>) -> bool {
    forall|i: int, j: int| 0 <= i < j < es.len() ==> name_le(#[trigger] es[i].1, #[trigger] es[j].1)
}

/// `s` holds the entries of `es` in raw byte order of their names.
pub open spec fn is_sorted_version(s: Seq<EntryView>, es: Seq<EntryView>) -> bool {
    s.to_multiset() == es.to_multiset() && sorted_by_name(s)
}

proof fn lemma_name_le_total(a: Seq<u8>, b: Seq<u8>)
    ensures
        name_le(a, b) || name_le(b, a),
    decreases a.len(),
{
    if a.len() > 0 && b.len() > 0 && a[0] == b[0] {
        lemma_name_le_total(a.drop_first(), b.drop_first());
    }
}

proof fn lemma_name_le_trans(a: Seq<u8>, b: Seq<u8>, c: Seq<u8>)
    requires
        name_le(a, b),
        name_le(b, c),
    ensures
        name_le(a, c),
    decreases a.len(),
{
    if a.len() > 0 && b.len() > 0 && c.len() > 0 && a[0] == b[0] && b[0] == c[0] {
        lemma_name_le_trans(a.drop_first(), b.drop_first(), c.drop_first());
    }
}

/// Whether name `a` comes no later than name `b` in raw byte order.
pub fn name_before(a: &[u8], b: &[u8]) -> (r: bool)
    ensures
        r == name_le(a@, b@),
{
    let mut i: usize = 0;
    assert(a@.skip(0) =~= a@);
    assert(b@.skip(0) =~= b@);
    loop
        invariant
            i <= a@.len(),
            i <= b@.len(),
            name_le(a@, b@) == name_le(a@.skip(i as int), b@.skip(i as int)),
        decreases a@.len() - i,
    {
        if i == a.len() {
            return true;
        }
        if i == b.len() {
            return false;
        }
        if a[i] != b[i] {
            return a[i] < b[i];
        }
        assert(a@.skip(i as int).drop_first() =~= a@.skip(i + 1));
        assert(b@.skip(i as int).drop_first() =~= b@.skip(i + 1));
        i = i + 1;
    }
}

/// The entries in raw byte order of their names.
pub fn sort_entries(entries: Vec<TreeEntry>) -> (r: Vec<TreeEntry>)
    ensures
        is_sorted_version(views(r@), views(entries@)),
{
    broadcast use vstd::seq_lib::group_to_multiset_ensures;

    let mut rest = entries;
    let mut sorted: Vec<TreeEntry> = Vec::new();
    assert(views(sorted@) =~= Seq::<EntryView>::empty());
    assert(views(entries@).to_multiset() =~= views(rest@).to_multiset().add(views(sorted@).to_multiset()));
    while rest.len() > 0
        invariant
            views(entries@).to_multiset() == views(rest@).to_multiset().add(views(sorted@).to_multiset()),
            sorted_by_name(views(sorted@)),
        decreases rest@.len(),
    {
        let ghost rest_before = views(rest@);
        let e = rest.pop().unwrap();
        proof {
            assert(rest_before =~= views(rest@).push(e@));
        }
        let mut p: usize = 0;
        while p < sorted.len() && name_before(sorted[p].name.as_slice(), e.name.as_slice())
            invariant
                p <= sorted@.len(),
                forall|k: int| 0 <= k < p ==> name_le(#[trigger] sorted@[k].name@, e.name@),
            decreases sorted@.len() - p,
        {
            p = p + 1;
        }
        let ghost before = views(sorted@);
        proof {
            if p < sorted@.len() {
                lemma_name_le_total(sorted@[p as int].name@, e.name@);
            }
        }
        sorted.insert(p, e);
        proof {
            let now = views(sorted@);
            assert(now =~= before.insert(p as int, e@));
            vstd::seq_lib::to_multiset_insert(before, p as int, e@);
            vstd::seq_lib::to_multiset_build(views(rest@), e@);
            assert(views(rest@).to_multiset().insert(e@).add(before.to_multiset())
                =~= views(rest@).to_multiset().add(before.to_multiset().insert(e@)));
            assert forall|i: int, j: int| 0 <= i < j < now.len() implies name_le(#[trigger] now[i].1, #[trigger] now[j].1) by {
                if j == p {
                    assert(now[i] == before[i]);
                } else if i == p {
                    assert(now[j] == before[j - 1]);
                    if j - 1 > p {
                        assert(name_le(before[p as int].1, before[j - 1].1));
                        lemma_name_le_trans(e.name@, before[p as int].1, before[j - 1].1);
                    }
                } else {
                    let bi = if i < p { i } else { i - 1 };
                    let bj = if j < p { j } else { j - 1 };
                    assert(now[i] == before[bi]);
                    assert(now[j] == before[bj]);
                }
            }
        }
    }
    proof {
        assert(views(rest@) =~= Seq::<EntryView>::empty());
        vstd::seq_lib::to_multiset_len(views(rest@));
        assert(views(rest@).to_multiset() =~= Multiset::<EntryView>::empty());
        assert(views(entries@).to_multiset() =~= views(sorted@).to_multiset());
    }
    sorted
}

/// Tree content for a set of entries: their records in raw byte order of names.
pub fn build_tree_content(entries: Vec<TreeEntry>) -> (r: Vec<u8>)
    ensures
        exists|s: Seq<EntryView>| is_sorted_version(s, views(entries@)) && r@ == tree_bytes(s),
{
    let sorted = sort_entries(entries);
    let mut out: Vec<u8> = Vec::new();
    encode_entries(&mut out, sorted.as_slice());
    assert(out@ =~= tree_bytes(views(sorted@)));
    out
}

/// The tree object for a set of entries, in stored form: its records in raw
/// byte order of the names.
pub fn write_tree(entries: Vec<TreeEntry>) -> (r: LooseObject)
    ensures
        exists|s: Seq<EntryView>|
            is_sorted_version(s, views(entries@))
            && r.hash@ == sha1_of(encoded(ObjectKind::Tree, tree_bytes(s)))
            && r.data@ == zlib_best(encoded(ObjectKind::Tree, tree_bytes(s)))
            && decode_loose(r.data@) == Ok::<(ObjectKind, Seq<u8>), GitError>((ObjectKind::Tree, tree_bytes(s))),
        r.hash@.len() == HASH_LEN,
        r.dir@ == hex_text(r.hash@).take(2),
        r.file@ == hex_text(r.hash@).skip(2),
{
    let content = build_tree_content(entries);
    Object::new(ObjectKind::Tree, content.as_slice()).serialize()
}

proof fn lemma_tree_bytes_front(e: EntryView, rest: Seq<EntryView>)
    ensures
        tree_bytes(seq![e] + rest) == entry_bytes(e) + tree_bytes(rest),
    decreases rest.len(),
{
    let all = seq![e] + rest;
    if rest.len() == 0 {
        assert(all.drop_last() =~= Seq::<EntryView>::empty());
        assert(all.last() == e);
        assert(tree_bytes(all) == tree_bytes(all.drop_last()) + entry_bytes(all.last()));
        assert(Seq::<u8>::empty() + entry_bytes(e) =~= entry_bytes(e) + Seq::<u8>::empty());
    } else {
        lemma_tree_bytes_front(e, rest.drop_last());
        assert(all.drop_last() =~= seq![e] + rest.drop_last());
        assert(all.last() == rest.last());
        assert(tree_bytes(all) == tree_bytes(all.drop_last()) + entry_bytes(all.last()));
        assert(tree_bytes(rest) == tree_bytes(rest.drop_last()) + entry_bytes(rest.last()));
        assert(entry_bytes(e) + tree_bytes(rest.drop_last()) + entry_bytes(rest.last())
            =~= entry_bytes(e) + (tree_bytes(rest.drop_last()) + entry_bytes(rest.last())));
    }
}

proof fn lemma_entry_parse(e: EntryView, tail: Seq<u8>)
    requires
        forall|j: int| 0 <= j < e.1.len() ==> e.1[j] != 0,
        e.2.len() == HASH_LEN,
    ensures
        tree_entries(entry_bytes(e) + tail) == entries_after(seq![e], tree_entries(tail)),
{
    let d = digits(e.0 as nat, 8);
    let data = entry_bytes(e) + tail;
    lemma_digits_are_digits(e.0 as nat, 8);
    lemma_digits_value(e.0 as nat, 8);
    let after = e.1 + seq![0u8] + e.2 + tail;
    assert(data =~= d + seq![0x20u8] + after);
    assert forall|i: int| 0 <= i < d.len() implies d[i] != 0x20 by {}
    lemma_find_byte_after(d, 0x20, after);
    assert(data.take(d.len() as int) =~= d);
    assert(data.skip((d.len() + 1) as int) =~= after);
    assert(mode_value(d) == Some(e.0));
    lemma_find_byte_after(e.1, 0, e.2 + tail);
    assert(after =~= e.1 + seq![0u8] + (e.2 + tail));
    let k = e.1.len() as int;
    assert(after.take(k) =~= e.1);
    assert(after.subrange(k + 1, k + 1 + HASH_LEN) =~= e.2);
    assert(after.skip(k + 1 + HASH_LEN) =~= tail);
    assert(data.len() > 0);
}

/// Tree content reads back as the entries it was written from, whenever no
/// name holds a NUL byte and every hash is twenty bytes long.
pub proof fn lemma_tree_round_trip(s: Seq<EntryView>)
    requires
        forall|i: int, j: int| 0 <= i < s.len() && 0 <= j < s[i].1.len() ==> #[trigger] s[i].1[j] != 0,
        forall|i: int| 0 <= i < s.len() ==> (#[trigger] s[i]).2.len() == HASH_LEN,
    ensures
        tree_entries(tree_bytes(s)) == Ok::<Seq<EntryView>, GitError>(s),
    decreases s.len(),
{
    if s.len() == 0 {
        assert(tree_bytes(s) =~= Seq::<u8>::empty());
        assert(s =~= Seq::<EntryView>::empty());
    } else {
        let e = s[0];
        let rest = s.drop_first();
        assert(s =~= seq![e] + rest);
        lemma_tree_bytes_front(e, rest);
        assert forall|i: int, j: int| 0 <= i < rest.len() && 0 <= j < rest[i].1.len() implies #[trigger] rest[i].1[j] != 0 by {
            assert(rest[i] == s[i + 1]);
        }
        assert forall|i: int| 0 <= i < rest.len() implies (#[trigger] rest[i]).2.len() == HASH_LEN by {
            assert(rest[i] == s[i + 1]);
        }
        lemma_tree_round_trip(rest);
        assert forall|j: int| 0 <= j < e.1.len() implies e.1[j] != 0 by {
            assert(s[0].1[j] != 0);
        }
        lemma_entry_parse(e, tree_bytes(rest));
        assert(tree_bytes(s) == entry_bytes(e) + tree_bytes(rest));
    }
}

} // verus!
