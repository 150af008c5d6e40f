//! Small helpers on byte sequences shared by the codecs.
use vstd::prelude::*;

verus! {

/// The bytes of an ASCII text.
pub open spec fn ascii(s: Seq<char>) -> Seq<u8> {
    Seq::new(s.len(), |i: int| s[i] as u8)
}

/// Appends `src[from..to]` to `out`.
pub fn push_range(out: &mut Vec<u8>, src: &[u8], from: usize, to: usize)
    requires
        from <= to <= src@.len(),
    ensures
        final(out)@ == old(out)@ + src@.subrange(from as int, to as int),
{
    let mut i: usize = from;
    while i < to
        invariant
            from <= i <= to <= src@.len(),
            out@ == old(out)@ + src@.subrange(from as int, i as int),
        decreases to - i,
    {
        out.push(src[i]);
        assert(src@.subrange(from as int, i + 1) =~= src@.subrange(from as int, i as int).push(src@[i as int]));
        i = i + 1;
    }
}

/// Appends all of `src` to `out`.
pub fn push_all(out: &mut Vec<u8>, src: &[u8])
    ensures
        final(out)@ == old(out)@ + src@,
{
    push_range(out, src, 0, src.len());
    assert(src@.subrange(0, src@.len() as int) =~= src@);
}

/// The bytes of an ASCII string literal.
pub fn literal(s: &str) -> (r: &[u8])
    requires
        s.is_ascii(),
    ensures
        r@ == ascii(s@),
{
    proof {
        vstd::string::is_ascii_spec_bytes(s);
    }
    let r = s.as_bytes();
    assert(r@ =~= ascii(s@));
    r
}

/// Whether two byte slices hold the same bytes.
pub fn bytes_equal(a: &[u8], b: &[u8]) -> (r: bool)
    ensures
        r == (a@ == b@),
{
    if a.len() != b.len() {
        return false;
    }
    let mut i: usize = 0;
    while i < a.len()
        invariant
            a@.len() == b@.len(),
            i <= a@.len(),
            forall|k: int| 0 <= k < i ==> a@[k] == b@[k],
        decreases a@.len() - i,
    {
        if a[i] != b[i] {
            return false;
        }
        i = i + 1;
    }
    assert(a@ =~= b@);
    true
}

/// The position of the first `b` in `s`.
pub open spec fn find_byte(s: Seq<u8>, b: u8) -> Option<nat>
    decreases s.len(),
{
    if s.len() == 0 {
        None
    } else if s[0] == b {
        Some(0nat)
    } else {
        match find_byte(s.drop_first(), b) {
            Some(i) => Some(i + 1),
            None => None,
        }
    }
}

/// Whether `s` starts with `p`.
pub open spec fn starts_with(s: Seq<u8>, p: Seq<u8>) -> bool {
    s.len() >= p.len() && s.take(p.len() as int) == p
}

/// A sequence that differs from `p` at a position of `p` does not start with `p`.
pub proof fn lemma_not_starts_with(s: Seq<u8>, p: Seq<u8>, i: int)
    requires
        0 <= i < p.len(),
        i < s.len(),
        s[i] != p[i],
    ensures
        !starts_with(s, p),
{
    if s.len() >= p.len() {
        assert(s.take(p.len() as int)[i] != p[i]);
    }
}

/// `find_byte` finds `b` right after a prefix that does not hold it.
pub proof fn lemma_find_byte_after(a: Seq<u8>, b: u8, rest: Seq<u8>)
    requires
        forall|i: int| 0 <= i < a.len() ==> a[i] != b,
    ensures
        find_byte(a + seq![b] + rest, b) == Some(a.len()),
    decreases a.len(),
{
    if a.len() > 0 {
        lemma_find_byte_after(a.drop_first(), b, rest);
        assert((a + seq![b] + rest).drop_first() =~= a.drop_first() + seq![b] + rest);
    }
}

proof fn lemma_find_byte_found(s: Seq<u8>, b: u8)
    ensures
        find_byte(s, b) matches Some(i) ==> i < s.len() && s[i as int] == b
            && forall|j: int| 0 <= j < i ==> s[j] != b,
        find_byte(s, b) is None ==> forall|j: int| 0 <= j < s.len() ==> s[j] != b,
    decreases s.len(),
{
    if s.len() > 0 && s[0] != b {
        lemma_find_byte_found(s.drop_first(), b);
        assert forall|j: int| 1 <= j < s.len() implies s[j] == s.drop_first()[j - 1] by {}
    }
}

/// The position of the first `b` in `s` from `from` on.
pub fn find_byte_from(s: &[u8], from: usize, b: u8) -> (r: Option<usize>)
    requires
        from <= s@.len(),
    ensures
        match find_byte(s@.skip(from as int), b) {
            Some(i) => r matches Some(x) && x == from + i,
            None => r is None,
        },
        r matches Some(i) ==> from <= i < s@.len() && s@[i as int] == b,
{
    let mut i: usize = from;
    while i < s.len()
        invariant
            from <= i <= s@.len(),
            forall|j: int| from <= j < i ==> s@[j] != b,
        decreases s@.len() - i,
    {
        if s[i] == b {
            proof {
                let t = s@.skip(from as int);
                lemma_find_byte_unique(t, b, (i - from) as nat);
            }
            return Some(i);
        }
        i = i + 1;
    }
    proof {
        lemma_find_byte_found(s@.skip(from as int), b);
        let t = s@.skip(from as int);
        if let Some(k) = find_byte(t, b) {
            assert(t[k as int] == s@[from + k]);
        }
    }
    None
}

proof fn lemma_find_byte_unique(t: Seq<u8>, b: u8, k: nat)
    requires
        k < t.len(),
        t[k as int] == b,
        forall|j: int| 0 <= j < k ==> t[j] != b,
    ensures
        find_byte(t, b) == Some(k),
    decreases k,
{
    if k > 0 {
        lemma_find_byte_unique(t.drop_first(), b, (k - 1) as nat);
    }
}

/// Whether `s[from..]` starts with `p`.
pub fn starts_with_at(s: &[u8], from: usize, p: &[u8]) -> (r: bool)
    requires
        from <= s@.len(),
    ensures
        r == starts_with(s@.skip(from as int), p@),
{
    let n = s.len();
    if n - from < p.len() {
        return false;
    }
    let mut i: usize = 0;
    while i < p.len()
        invariant
            from <= s@.len(),
            n == s@.len(),
            s@.len() - from >= p@.len(),
            i <= p@.len(),
            forall|k: int| 0 <= k < i ==> s@[from + k] == p@[k],
        decreases p@.len() - i,
    {
        if s[from + i] != p[i] {
            assert(s@.skip(from as int).take(p@.len() as int)[i as int] != p@[i as int]);
            return false;
        }
        i = i + 1;
    }
    assert(s@.skip(from as int).take(p@.len() as int) =~= p@);
    true
}

} // verus!
