//! The smart-HTTP protocol: pkt-line framing, the reference advertisement
//! that a server answers discovery with, and the request that fetches a pack.
use crate::buf::ascii;
use crate::buf::find_byte;
use crate::buf::find_byte_from;
use crate::buf::literal;
use crate::buf::push_all;
use crate::buf::push_range;
use crate::buf::starts_with_at;
use crate::commit::is_hash_name;
use crate::commit::is_hash_text;
use crate::error::GitError;
use crate::primitives::hex_digit;
use crate::primitives::hex_value;
use vstd::prelude::*;

verus! {

/// One pkt-line: a flush line, or a line with a payload.
#[derive(Clone, Debug)]
pub enum PktLine {
    Flush,
    Data(Vec<u8>),
}

impl View for PktLine {
    type V = Option<Seq<u8>>;

    open spec fn view(&self) -> Option<Seq<u8>> {
        match self {
            PktLine::Flush => None,
            PktLine::Data(d) => Some(d@),
        }
    }
}

/// A reference that a server advertises: the object's name in hexadecimal
/// and the reference's name.
#[derive(Clone, Debug)]
pub struct Reference {
    pub hash: Vec<u8>,
    pub name: Vec<u8>,
}

/// A reference as plain values: hash text and name.
pub type ReferenceView = (Seq<u8>, Seq<u8>);

impl View for Reference {
    type V = ReferenceView;

    open spec fn view(&self) -> ReferenceView {
        (self.hash@, self.name@)
    }
}

/// The views of a sequence of pkt-lines.
pub open spec fn line_views(ls: Seq<PktLine>) -> Seq<Option<Seq<u8>>> {
    ls.map_values(|l: PktLine| l@)
}

/// The views of a sequence of references.
pub open spec fn reference_views(rs: Seq<Reference>) -> Seq<ReferenceView> {
    rs.map_values(|r: Reference| r@)
}

/// The value of four hexadecimal digits at the start of `s`.
pub open spec fn hex4(s: Seq<u8>) -> Option<nat> {
    if s.len() < 4 {
        None
    } else {
        match (hex_value(s[0]), hex_value(s[1]), hex_value(s[2]), hex_value(s[3])) {
            (Some(a), Some(b), Some(c), Some(d)) => Some((a * 4096 + b * 256 + c * 16 + d) as nat),
            _ => None,
        }
    }
}

/// The pkt-line at the start of `s` and the number of bytes it takes: a
/// length of zero is a flush line; otherwise the length counts its own four
/// digits and the payload that follows them.
pub open spec fn first_pkt_line(s: Seq<u8>) -> Option<(Option<Seq<u8>>, nat)> {
    match hex4(s) {
        None => None,
        Some(n) => if n == 0 {
            Some((None, 4nat))
        } else if n < 4 || n > s.len() {
            None
        } else {
            Some((Some(s.subrange(4, n as int)), n))
        },
    }
}

/// A whole body cut into pkt-lines.
pub open spec fn pkt_lines(s: Seq<u8>) -> Option<Seq<Option<Seq<u8>>>>
    decreases s.len(),
{
    if s.len() == 0 {
        Some(Seq::empty())
    } else {
        match first_pkt_line(s) {
            None => None,
            Some((l, n)) => if 4 <= n <= s.len() {
                match pkt_lines(s.skip(n as int)) {
                    Some(rest) => Some(seq![l] + rest),
                    None => None,
                }
            } else {
                None
            },
        }
    }
}

/// The lines before `rest`, when `rest` cuts into lines.
pub open spec fn lines_after(done: Seq<Option<Seq<u8>>>, rest: Option<Seq<Option<Seq<u8>>>>) -> Option<Seq<Option<Seq<u8>>>> {
    match rest {
        Some(t) => Some(done + t),
        None => None,
    }
}

/// Whether a byte is a hexadecimal digit.
fn hex_digit_value(c: u8) -> (r: Option<u8>)
    ensures
        r == hex_value(c),
{
    if 0x30 <= c && c <= 0x39 {
        Some(c - 0x30)
    } else if 0x61 <= c && c <= 0x66 {
        Some(c - 0x61 + 10)
    } else if 0x41 <= c && c <= 0x46 {
        Some(c - 0x41 + 10)
    } else {
        None
    }
}

/// Reads the pkt-line at `pos`: the line and the position after it.
pub fn parse_pkt_line(data: &[u8], pos: usize) -> (r: Result<(PktLine, usize), GitError>)
    requires
        pos <= data@.len(),
    ensures
        match first_pkt_line(data@.skip(pos as int)) {
            Some((l, n)) => r matches Ok((x, q)) && x@ == l && q == pos + n,
            None => r matches Err(e) && e == GitError::Corrupt,
        },
        r matches Ok((_, q)) ==> pos + 4 <= q <= data@.len(),
{
    let ghost s = data@.skip(pos as int);
    let n = data.len();
    if n - pos < 4 {
        return Err(GitError::Corrupt);
    }
    let a = match hex_digit_value(data[pos]) { Some(v) => v, None => return Err(GitError::Corrupt) };
    let b = match hex_digit_value(data[pos + 1]) { Some(v) => v, None => return Err(GitError::Corrupt) };
    let c = match hex_digit_value(data[pos + 2]) { Some(v) => v, None => return Err(GitError::Corrupt) };
    let d = match hex_digit_value(data[pos + 3]) { Some(v) => v, None => return Err(GitError::Corrupt) };
    assert(s[0] == data@[pos as int] && s[1] == data@[pos + 1] && s[2] == data@[pos + 2] && s[3] == data@[pos + 3]);
    let len: usize = (a as usize) * 4096 + (b as usize) * 256 + (c as usize) * 16 + (d as usize);
    if len == 0 {
        return Ok((PktLine::Flush, pos + 4));
    }
    if len < 4 || len > n - pos {
        return Err(GitError::Corrupt);
    }
    let mut payload: Vec<u8> = Vec::new();
    push_range(&mut payload, data, pos + 4, pos + len);
    assert(payload@ =~= s.subrange(4, len as int));
    Ok((PktLine::Data(payload), pos + len))
}

/// Cuts a whole body into pkt-lines.
pub fn parse_pkt_lines(data: &[u8]) -> (r: Result<Vec<PktLine>, GitError>)
    ensures
        match pkt_lines(data@) {
            Some(ls) => r matches Ok(v) && line_views(v@) == ls,
            None => r matches Err(e) && e == GitError::Corrupt,
        },
{
    let mut out: Vec<PktLine> = Vec::new();
    let mut pos: usize = 0;
    assert(data@.skip(0) =~= data@);
    proof {
        if let Some(ls) = pkt_lines(data@) {
            assert(line_views(out@) + ls =~= ls);
        }
    }
    while pos < data.len()
        invariant
            pos <= data@.len(),
            pkt_lines(data@) == lines_after(line_views(out@), pkt_lines(data@.skip(pos as int))),
        decreases data@.len() - pos,
    {
        let (line, next) = match parse_pkt_line(data, pos) {
            Ok(x) => x,
            Err(e) => return Err(e),
        };
        assert(data@.skip(pos as int).skip(next - pos) =~= data@.skip(next as int));
        let ghost before = line_views(out@);
        let ghost l = line@;
        out.push(line);
        proof {
            assert(line_views(out@) =~= before.push(l));
            if let Some(t) = pkt_lines(data@.skip(next as int)) {
                assert(before + (seq![l] + t) =~= before.push(l) + t);
            }
        }
        pos = next;
    }
    assert(data@.skip(pos as int) =~= Seq::<u8>::empty());
    assert(line_views(out@) + Seq::<Option<Seq<u8>>>::empty() =~= line_views(out@));
    Ok(out)
}

/// The line that opens a discovery response.
pub open spec fn service_line() -> Seq<u8> {
    ascii("# service=git-upload-pack"@)
}

/// A payload without its final line feed, if it has one.
pub open spec fn strip_lf(s: Seq<u8>) -> Seq<u8> {
    if s.len() > 0 && s.last() == 0x0a { s.drop_last() } else { s }
}

/// A reference line: forty hexadecimal digits, a space and the name.
pub open spec fn ref_line(line: Seq<u8>) -> Option<ReferenceView> {
    match find_byte(line, 0x20) {
        None => None,
        Some(i) => if is_hash_text(line.take(i as int)) {
            Some((line.take(i as int), line.skip((i + 1) as int)))
        } else {
            None
        },
    }
}

/// The references of a sequence of pkt-lines that must all carry one.
pub open spec fn ref_lines(frames: Seq<Option<Seq<u8>>>) -> Option<Seq<ReferenceView>>
    decreases frames.len(),
{
    if frames.len() == 0 {
        Some(Seq::empty())
    } else {
        match ref_lines(frames.drop_last()) {
            None => None,
            Some(rs) => match frames.last() {
                None => None,
                Some(l) => match ref_line(strip_lf(l)) {
                    None => None,
                    Some(r) => Some(rs.push(r)),
                },
            },
        }
    }
}

/// Whether `t` occurs in `s`.
pub open spec fn contains(s: Seq<u8>, t: Seq<u8>) -> bool {
    exists|i: int| 0 <= i && i + t.len() <= s.len() && #[trigger] s.subrange(i, i + t.len()) == t
}

/// Whether a capability list lets a client fetch an object by its hash.
pub open spec fn fetch_capable(caps: Seq<u8>) -> bool {
    contains(caps, ascii("allow-tip-sha1-in-want"@)) || contains(caps, ascii("allow-reachable-sha1-in-want"@))
}

/// The lines between the service line and the final flush, without the
/// flush that may follow the service line.
pub open spec fn ref_frames(frames: Seq<Option<Seq<u8>>>) -> Seq<Option<Seq<u8>>> {
    let middle = frames.subrange(1, frames.len() - 1);
    if middle.len() > 0 && middle[0] is None { middle.drop_first() } else { middle }
}

/// What a discovery response advertises: the references in order, the first
/// one's name cut at its NUL, and the capabilities that follow that NUL.
/// `UnsupportedServer` without the service line, without a reference, without
/// capabilities, or without a capability to fetch by hash; `Corrupt` when
/// the framing or a reference line is malformed.
pub open spec fn advertisement(frames: Seq<Option<Seq<u8>>>) -> Result<(Seq<ReferenceView>, Seq<u8>), GitError> {
    if frames.len() < 2 || !(frames[0] matches Some(l) && strip_lf(l) == service_line()) {
        Err(GitError::UnsupportedServer)
    } else if frames.last() is Some {
        Err(GitError::Corrupt)
    } else {
        match ref_lines(ref_frames(frames)) {
            None => Err(GitError::Corrupt),
            Some(rs) => if rs.len() == 0 {
                Err(GitError::UnsupportedServer)
            } else {
                match find_byte(rs[0].1, 0) {
                    None => Err(GitError::UnsupportedServer),
                    Some(k) => {
                        let caps = rs[0].1.skip((k + 1) as int);
                        if fetch_capable(caps) {
                            Ok((rs.update(0, (rs[0].0, rs[0].1.take(k as int))), caps))
                        } else {
                            Err(GitError::UnsupportedServer)
                        }
                    },
                }
            },
        }
    }
}

/// What a discovery response body advertises.
pub open spec fn discovery(body: Seq<u8>) -> Result<(Seq<ReferenceView>, Seq<u8>), GitError> {
    match pkt_lines(body) {
        None => Err(GitError::Corrupt),
        Some(frames) => advertisement(frames),
    }
}

/// The payload without its final line feed.
fn payload_end(p: &[u8]) -> (r: usize)
    ensures
        r <= p@.len(),
        p@.take(r as int) == strip_lf(p@),
{
    let n = p.len();
    if n > 0 && p[n - 1] == 0x0a {
        assert(p@.take(n - 1) =~= p@.drop_last());
        n - 1
    } else {
        assert(p@.take(n as int) =~= p@);
        n
    }
}

/// Reads a reference line.
fn parse_ref_line(p: &[u8]) -> (r: Option<Reference>)
    ensures
        match ref_line(strip_lf(p@)) {
            Some(v) => r matches Some(x) && x@ == v,
            None => r is None,
        },
{
    let end = payload_end(p);
    let line = vstd::slice::slice_subrange(p, 0, end);
    assert(line@ =~= strip_lf(p@));
    assert(line@.skip(0) =~= line@);
    let sp = match find_byte_from(line, 0, 0x20) {
        Some(i) => i,
        None => return None,
    };
    let mut hash: Vec<u8> = Vec::new();
    push_range(&mut hash, line, 0, sp);
    assert(hash@ =~= line@.take(sp as int));
    if !is_hash_name(hash.as_slice()) {
        return None;
    }
    let mut name: Vec<u8> = Vec::new();
    push_range(&mut name, line, sp + 1, end);
    assert(name@ =~= line@.skip(sp + 1));
    Some(Reference { hash, name })
}

/// Whether `t` occurs in `s`.
pub fn occurs(s: &[u8], t: &[u8]) -> (r: bool)
    ensures
        r == contains(s@, t@),
{
    if t.len() > s.len() {
        return false;
    }
    if t.len() == 0 {
        assert(s@.subrange(0int, 0int + t@.len()) =~= t@);
        return true;
    }
    let last = s.len() - t.len();
    let mut i: usize = 0;
    while i <= last
        invariant
            last == s@.len() - t@.len(),
            t@.len() > 0,
            s@.len() <= usize::MAX,
            i <= last + 1,
            forall|j: int| 0 <= j < i ==> #[trigger] s@.subrange(j, j + t@.len()) != t@,
        decreases last + 1 - i,
    {
        if starts_with_at(s, i, t) {
            assert(s@.skip(i as int).take(t@.len() as int) =~= s@.subrange(i as int, i + t@.len()));
            return true;
        }
        assert(s@.skip(i as int).take(t@.len() as int) =~= s@.subrange(i as int, i + t@.len()));
        i = i + 1;
    }
    proof {
        assert forall|j: int| 0 <= j && j + t@.len() <= s@.len() implies #[trigger] s@.subrange(j, j + t@.len()) != t@ by {
            assert(j <= last);
        }
    }
    false
}

/// Whether a capability list lets a client fetch an object by its hash.
pub fn has_fetch_capability(caps: &[u8]) -> (r: bool)
    ensures
        r == fetch_capable(caps@),
{
    proof {
        reveal_strlit("allow-tip-sha1-in-want");
        reveal_strlit("allow-reachable-sha1-in-want");
    }
    occurs(caps, literal("allow-tip-sha1-in-want")) || occurs(caps, literal("allow-reachable-sha1-in-want"))
}

proof fn lemma_ref_lines_none(f: Seq<Option<Seq<u8>>>, k: int, m: int)
    requires
        0 <= k <= m <= f.len(),
        ref_lines(f.take(k)) is None,
    ensures
        ref_lines(f.take(m)) is None,
    decreases m - k,
{
    if k < m {
        lemma_ref_lines_none(f, k, m - 1);
        assert(f.take(m).drop_last() =~= f.take(m - 1));
    }
}

/// Reads a discovery response body: the advertised references, in order,
/// and the capabilities of the server.
pub fn parse_discovery(body: &[u8]) -> (r: Result<(Vec<Reference>, Vec<u8>), GitError>)
    ensures
        match discovery(body@) {
            Ok((rs, caps)) => r matches Ok((v, c)) && reference_views(v@) == rs && c@ == caps,
            Err(e) => r matches Err(x) && x == e,
        },
{
    let frames = match parse_pkt_lines(body) {
        Ok(f) => f,
        Err(e) => return Err(e),
    };
    let ghost fv = line_views(frames@);
    let n = frames.len();
    if n < 2 {
        return Err(GitError::UnsupportedServer);
    }
    let first_ok = match &frames[0] {
        PktLine::Data(l) => {
            let end = payload_end(l.as_slice());
            let head = vstd::slice::slice_subrange(l.as_slice(), 0, end);
            proof {
                reveal_strlit("# service=git-upload-pack");
            }
            crate::buf::bytes_equal(head, literal("# service=git-upload-pack"))
        },
        PktLine::Flush => false,
    };
    assert(fv[0] == frames@[0]@);
    if !first_ok {
        return Err(GitError::UnsupportedServer);
    }
    assert(fv.last() == frames@[n - 1]@);
    if let PktLine::Data(_) = &frames[n - 1] {
        return Err(GitError::Corrupt);
    }
    assert(fv.len() >= 2 && (fv[0] matches Some(l) && strip_lf(l) == service_line()));
    assert(fv.last() is None);
    let mut start: usize = 1;
    if n > 2 {
        if let PktLine::Flush = &frames[1] {
            start = 2;
        }
    }
    let ghost rf = ref_frames(fv);
    assert(rf =~= fv.subrange(start as int, n - 1)) by {
        if n > 2 {
            assert(fv[1] == frames@[1]@);
        }
    }
    let mut refs: Vec<Reference> = Vec::new();
    let mut k: usize = start;
    assert(fv.subrange(start as int, start as int) =~= Seq::<Option<Seq<u8>>>::empty());
    assert(reference_views(refs@) =~= Seq::<ReferenceView>::empty());
    while k < n - 1
        invariant
            start <= k <= n - 1,
            n == frames@.len(),
            fv == line_views(frames@),
            ref_lines(fv.subrange(start as int, k as int)) == Some(reference_views(refs@)),
            discovery(body@) == advertisement(fv),
            fv.len() >= 2 && (fv[0] matches Some(l) && strip_lf(l) == service_line()),
            fv.last() is None,
            ref_frames(fv) == fv.subrange(start as int, n - 1),
        decreases n - 1 - k,
    {
        assert(fv.subrange(start as int, k + 1).drop_last() =~= fv.subrange(start as int, k as int));
        assert(fv.subrange(start as int, k + 1).last() == frames@[k as int]@);
        let ghost g = fv.subrange(start as int, n - 1);
        assert(g.take(k + 1 - start) =~= fv.subrange(start as int, k + 1));
        let line = match &frames[k] {
            PktLine::Data(l) => l,
            PktLine::Flush => {
                proof {
                    lemma_ref_lines_none(g, k + 1 - start, g.len() as int);
                    assert(g.take(g.len() as int) =~= g);
                }
                return Err(GitError::Corrupt);
            },
        };
        let reference = match parse_ref_line(line.as_slice()) {
            Some(x) => x,
            None => {
                proof {
                    lemma_ref_lines_none(g, k + 1 - start, g.len() as int);
                    assert(g.take(g.len() as int) =~= g);
                }
                return Err(GitError::Corrupt);
            },
        };
        let ghost before = reference_views(refs@);
        let ghost rv = reference@;
        refs.push(reference);
        assert(reference_views(refs@) =~= before.push(rv));
        k = k + 1;
    }
    assert(fv.subrange(start as int, (n - 1) as int) == rf);
    if refs.len() == 0 {
        return Err(GitError::UnsupportedServer);
    }
    let ghost rs = reference_views(refs@);
    assert(rs[0] == refs@[0]@);
    let nul = match find_byte_from(refs[0].name.as_slice(), 0, 0) {
        Some(i) => i,
        None => {
            assert(refs@[0].name@.skip(0) =~= refs@[0].name@);
            return Err(GitError::UnsupportedServer);
        },
    };
    assert(refs@[0].name@.skip(0) =~= refs@[0].name@);
    let name_len = refs[0].name.len();
    let mut caps: Vec<u8> = Vec::new();
    push_range(&mut caps, refs[0].name.as_slice(), nul + 1, name_len);
    assert(caps@ =~= rs[0].1.skip(nul + 1));
    if !has_fetch_capability(caps.as_slice()) {
        return Err(GitError::UnsupportedServer);
    }
    let mut name: Vec<u8> = Vec::new();
    push_range(&mut name, refs[0].name.as_slice(), 0, nul);
    assert(name@ =~= rs[0].1.take(nul as int));
    let hash = refs[0].hash.clone();
    let first = Reference { hash: hash, name };
    refs.set(0, first);
    assert(reference_views(refs@) =~= rs.update(0, (rs[0].0, rs[0].1.take(nul as int))));
    Ok((refs, caps))
}

/// The content type of a reference advertisement.
pub open spec fn advertisement_type() -> Seq<u8> {
    ascii("application/x-git-upload-pack-advertisement"@)
}

/// Checks the status and content type of a discovery response: the status
/// must be 200 or 304, and a content type, when there is one, must be that of
/// an advertisement; otherwise `UnsupportedServer`.
pub fn check_discovery_response(status: u16, content_type: Option<&[u8]>) -> (r: Result<(), GitError>)
    ensures
        r is Ok <==> ((status == 200 || status == 304) && match content_type {
            Some(t) => t@ == advertisement_type(),
            None => true,
        }),
        r matches Err(e) ==> e == GitError::UnsupportedServer,
{
    if status != 200 && status != 304 {
        return Err(GitError::UnsupportedServer);
    }
    match content_type {
        Some(t) => {
            proof {
                reveal_strlit("application/x-git-upload-pack-advertisement");
            }
            if !crate::buf::bytes_equal(t, literal("application/x-git-upload-pack-advertisement")) {
                return Err(GitError::UnsupportedServer);
            }
            Ok(())
        },
        None => Ok(()),
    }
}

/// The four lowercase hexadecimal digits of a pkt-line length.
pub open spec fn pkt_prefix(n: nat) -> Seq<u8> {
    seq![hex_digit(((n / 4096) % 16) as int), hex_digit(((n / 256) % 16) as int), hex_digit(((n / 16) % 16) as int), hex_digit((n % 16) as int)]
}

/// A pkt-line that carries `payload`.
pub open spec fn pkt(payload: Seq<u8>) -> Seq<u8> {
    pkt_prefix(payload.len() + 4) + payload
}

/// The payload that asks for one object; the first one also names the
/// capability that the client wants.
pub open spec fn want_line(hash: Seq<u8>, first: bool) -> Seq<u8> {
    ascii("want "@) + hash + (if first { ascii(" multi_ack"@) } else { Seq::empty() }) + seq![0x0au8]
}

/// The pkt-lines that ask for the objects of `rs`, in order.
pub open spec fn wants(rs: Seq<ReferenceView>) -> Seq<u8>
    decreases rs.len(),
{
    if rs.len() == 0 {
        Seq::empty()
    } else {
        wants(rs.drop_last()) + pkt(want_line(rs.last().0, rs.len() == 1))
    }
}

/// The body that asks a server for a pack of the objects of `rs`: the want
/// lines, a flush line and a `done` line.
pub open spec fn fetch_request_bytes(rs: Seq<ReferenceView>) -> Seq<u8> {
    wants(rs) + ascii("0000"@) + ascii("0009done\n"@)
}

/// The lowercase hexadecimal digit for a value below 16.
fn hex_char(v: u8) -> (r: u8)
    requires
        v < 16,
    ensures
        r == hex_digit(v as int),
{
    if v < 10 { v + 0x30 } else { v - 10 + 0x61 }
}

/// Appends a pkt-line that carries `payload`.
fn push_pkt(out: &mut Vec<u8>, payload: &[u8])
    requires
        payload@.len() + 4 < 0x10000,
    ensures
        final(out)@ == old(out)@ + pkt(payload@),
{
    let n = payload.len() + 4;
    out.push(hex_char(((n / 4096) % 16) as u8));
    out.push(hex_char(((n / 256) % 16) as u8));
    out.push(hex_char(((n / 16) % 16) as u8));
    out.push(hex_char((n % 16) as u8));
    push_all(out, payload);
    assert(final(out)@ =~= old(out)@ + pkt(payload@));
}

/// The body that asks a server for a pack of the objects that `refs` name.
pub fn fetch_request(refs: &[Reference]) -> (r: Vec<u8>)
    requires
        forall|i: int| 0 <= i < refs@.len() ==> (#[trigger] refs@[i]).hash@.len() < 0x1000,
    ensures
        r@ == fetch_request_bytes(reference_views(refs@)),
{
    let ghost rs = reference_views(refs@);
    let mut out: Vec<u8> = Vec::new();
    let mut i: usize = 0;
    assert(rs.take(0) =~= Seq::<ReferenceView>::empty());
    proof {
        reveal_strlit("want ");
        reveal_strlit(" multi_ack");
        reveal_strlit("0000");
        reveal_strlit("0009done\n");
    }
    while i < refs.len()
        invariant
            i <= refs@.len(),
            rs == reference_views(refs@),
            forall|k: int| 0 <= k < refs@.len() ==> (#[trigger] refs@[k]).hash@.len() < 0x1000,
            out@ == wants(rs.take(i as int)),
        decreases refs@.len() - i,
    {
        proof {
            reveal_strlit("want ");
            reveal_strlit(" multi_ack");
        }
        let mut line: Vec<u8> = Vec::new();
        push_all(&mut line, literal("want "));
        push_all(&mut line, refs[i].hash.as_slice());
        if i == 0 {
            push_all(&mut line, literal(" multi_ack"));
        }
        line.push(0x0a);
        assert(rs[i as int] == refs@[i as int]@);
        assert(line@ =~= want_line(rs[i as int].0, i == 0));
        push_pkt(&mut out, line.as_slice());
        assert(rs.take(i + 1).drop_last() =~= rs.take(i as int));
        i = i + 1;
    }
    assert(rs.take(i as int) =~= rs);
    push_all(&mut out, literal("0000"));
    push_all(&mut out, literal("0009done\n"));
    out
}

/// Length of the acknowledgement that precedes the pack in a fetch response.
pub const ACK_LEN: usize = 8;

/// The pack stream in a fetch response: what follows the acknowledgement
/// line; `UnsupportedServer` when the response is shorter than that line.
pub fn pack_from_response(body: &[u8]) -> (r: Result<Vec<u8>, GitError>)
    ensures
        body@.len() < ACK_LEN ==> (r matches Err(e) && e == GitError::UnsupportedServer),
        body@.len() >= ACK_LEN ==> (r matches Ok(p) && p@ == body@.skip(ACK_LEN as int)),
{
    if body.len() < ACK_LEN {
        return Err(GitError::UnsupportedServer);
    }
    let mut out: Vec<u8> = Vec::new();
    push_range(&mut out, body, ACK_LEN, body.len());
    assert(out@ =~= body@.skip(ACK_LEN as int));
    Ok(out)
}

proof fn lemma_ref_lines_hashes(frames: Seq<Option<Seq<u8>>>)
    ensures
        ref_lines(frames) matches Some(rs) ==> forall|i: int| 0 <= i < rs.len() ==> (#[trigger] rs[i]).0.len() == 40,
    decreases frames.len(),
{
    if frames.len() > 0 {
        lemma_ref_lines_hashes(frames.drop_last());
    }
}

/// The advertised references of a discovery response and the body that asks
/// for all of their objects. No request comes out of a response that
/// `discovery` refuses, in particular of one without a capability to fetch
/// by hash.
pub fn want_request(advertisement: &[u8]) -> (r: Result<(Vec<Reference>, Vec<u8>), GitError>)
    ensures
        match discovery(advertisement@) {
            Ok((rs, _)) => r matches Ok((refs, req)) && reference_views(refs@) == rs
                && req@ == fetch_request_bytes(rs),
            Err(e) => r matches Err(x) && x == e,
        },
{
    let (refs, _caps) = match parse_discovery(advertisement) {
        Ok(x) => x,
        Err(e) => return Err(e),
    };
    proof {
        let frames = pkt_lines(advertisement@)->0;
        let rs0 = ref_lines(ref_frames(frames))->0;
        lemma_ref_lines_hashes(ref_frames(frames));
        let rs = reference_views(refs@);
        assert(discovery(advertisement@) is Ok);
        let k = find_byte(rs0[0].1, 0)->0;
        assert(rs == rs0.update(0, (rs0[0].0, rs0[0].1.take(k as int))));
        assert forall|i: int| 0 <= i < refs@.len() implies (#[trigger] refs@[i]).hash@.len() < 0x1000 by {
            assert(rs[i] == refs@[i]@);
            assert(rs[i].0 == rs0[i].0);
        }
    }
    let request = fetch_request(refs.as_slice());
    Ok((refs, request))
}

/// A well-formed advertisement (service line first, a flush last, reference
/// lines between, the first with capabilities after a NUL) whose
/// capabilities hold no way to fetch by hash is refused as
/// `UnsupportedServer`, so no fetch request comes of it.
pub proof fn lemma_no_fetch_capability_refused(frames: Seq<Option<Seq<u8>>>, rs: Seq<ReferenceView>, k: nat)
    requires
        frames.len() >= 2,
        frames[0] matches Some(l) && strip_lf(l) == service_line(),
        frames.last() is None,
        ref_lines(ref_frames(frames)) == Some(rs),
        rs.len() > 0,
        find_byte(rs[0].1, 0) == Some(k),
        !fetch_capable(rs[0].1.skip((k + 1) as int)),
    ensures
        advertisement(frames) == Err::<(Seq<ReferenceView>, Seq<u8>), GitError>(GitError::UnsupportedServer),
{
}

} // verus!
