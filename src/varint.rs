//! The variable-length integers of the pack format. Every form is read from a
//! position of a byte slice and yields the value and the position after it.
use crate::error::GitError;
use vstd::prelude::*;

verus! {

/// The most bytes that a size number may take; longer ones are refused.
pub const MAX_NUMBER_BYTES: usize = 9;

/// `b` raised to the power `e`.
pub open spec fn pow(b: nat, e: nat) -> nat
    decreases e,
{
    if e == 0 { 1 } else { b * pow(b, (e - 1) as nat) }
}

/// A size number with the least significant seven-bit group first: each byte
/// gives seven bits, and a set high bit says that another byte follows. The
/// value and the number of bytes taken, or `None` when the data ends before
/// the number or the number takes more than `limit` bytes.
pub open spec fn size_number(data: Seq<u8>, limit: nat) -> Option<(nat, nat)>
    decreases limit,
{
    if limit == 0 || data.len() == 0 {
        None
    } else if data[0] < 128 {
        Some((data[0] as nat, 1nat))
    } else {
        match size_number(data.drop_first(), (limit - 1) as nat) {
            Some((v, used)) => Some((((data[0] - 128) + 128 * v) as nat, used + 1)),
            None => None,
        }
    }
}

/// The rest of an offset number, after an accumulated value `acc`: each byte
/// turns the value into `(acc + 1) * 128` plus its low seven bits.
pub open spec fn offset_number_tail(acc: nat, data: Seq<u8>, limit: nat) -> Option<(nat, nat)>
    decreases limit,
{
    if limit == 0 || data.len() == 0 {
        None
    } else {
        let v = (acc + 1) * 128 + (data[0] % 128) as nat;
        if data[0] < 128 {
            Some((v, 1nat))
        } else {
            match offset_number_tail(v, data.drop_first(), (limit - 1) as nat) {
                Some((w, used)) => Some((w, used + 1)),
                None => None,
            }
        }
    }
}

/// An offset number: the most significant group first, each continuation
/// adding one before the shift so that no value has two encodings.
pub open spec fn offset_number(data: Seq<u8>, limit: nat) -> Option<(nat, nat)> {
    if limit == 0 || data.len() == 0 {
        None
    } else if data[0] < 128 {
        Some((data[0] as nat, 1nat))
    } else {
        match offset_number_tail((data[0] % 128) as nat, data.drop_first(), (limit - 1) as nat) {
            Some((w, used)) => Some((w, used + 1)),
            None => None,
        }
    }
}

proof fn lemma_size_number_bound(data: Seq<u8>, limit: nat)
    ensures
        size_number(data, limit) matches Some((v, used)) ==> v < pow(128, used) && 1 <= used <= limit
            && used <= data.len(),
    decreases limit,
{
    assert(pow(128, 1) == 128 * pow(128, 0));
    if limit > 0 && data.len() > 0 && data[0] >= 128 {
        lemma_size_number_bound(data.drop_first(), (limit - 1) as nat);
        if let Some((w, u)) = size_number(data.drop_first(), (limit - 1) as nat) {
            assert(pow(128, u + 1) == 128 * pow(128, u));
        }
    }
}

/// Reads a size number of at most `limit` bytes that starts at `pos`.
pub fn read_size_number(data: &[u8], pos: usize, limit: usize) -> (r: Result<(u64, usize), GitError>)
    requires
        pos <= data@.len(),
        1 <= limit <= MAX_NUMBER_BYTES,
    ensures
        match size_number(data@.skip(pos as int), limit as nat) {
            Some((v, used)) => r matches Ok((x, end)) && x as nat == v && end == pos + used
                && v < pow(128, limit as nat),
            None => r == Err::<(u64, usize), GitError>(GitError::Corrupt),
        },
        r matches Ok((_, end)) ==> pos < end <= data@.len(),
{
    let ghost s = data@.skip(pos as int);
    let mut value: u64 = 0;
    let mut scale: u64 = 1;
    let mut i: usize = 0;
    assert(s.skip(0) =~= s);
    loop
        invariant
            pos <= data@.len(),
            s == data@.skip(pos as int),
            i < limit <= MAX_NUMBER_BYTES,
            scale == pow(128, i as nat),
            value < scale,
            forall|k: int| 0 <= k < i ==> s[k] >= 128,
            i <= s.len(),
            size_number(s, limit as nat) == match size_number(s.skip(i as int), (limit - i) as nat) {
                Some((v, used)) => Some(((value + scale * v) as nat, (used + i) as nat)),
                None => None::<(nat, nat)>,
            },
        decreases limit - i,
    {
        proof {
            lemma_size_number_bound(s.skip(i as int), (limit - i) as nat);
            assert(pow(128, (i + 1) as nat) == 128 * pow(128, i as nat));
            reveal_with_fuel(pow, 9);
            assert(pow(128, 8) == 0x100000000000000);
            lemma_pow_mono(128, i as nat, 8);
            lemma_pow_mono(128, (i + 1) as nat, limit as nat);
        }
        if i >= data.len() - pos {
            assert(s.skip(i as int).len() == 0);
            return Err(GitError::Corrupt);
        }
        let b = data[pos + i];
        assert(s.skip(i as int)[0] == b);
        let low: u64 = (b % 128) as u64;
        assert(low * scale <= 127 * scale) by (nonlinear_arith)
            requires low <= 127;
        if b < 128 {
            let v = value + low * scale;
            assert(size_number(s.skip(i as int), (limit - i) as nat) == Some((b as nat, 1nat)));
            assert(v < pow(128, (i + 1) as nat));
            assert(low == b);
            assert(scale * (b as nat) == low * scale) by (nonlinear_arith)
                requires low == b;
            assert(size_number(s, limit as nat) == Some((v as nat, (i + 1) as nat)));
            return Ok((v, pos + i + 1));
        }
        if i + 1 == limit {
            assert(size_number(s.skip(i as int).drop_first(), 0) is None);
            return Err(GitError::Corrupt);
        }
        assert(s.skip(i as int).drop_first() =~= s.skip(i + 1));
        let ghost old_value = value;
        let ghost old_scale = scale;
        value = value + low * scale;
        scale = scale * 128;
        i = i + 1;
        proof {
            match size_number(s.skip(i as int), (limit - i) as nat) {
                Some((w, used)) => {
                    assert(old_value + old_scale * ((b - 128) + 128 * w) == value + scale * w)
                        by (nonlinear_arith)
                        requires
                            value == old_value + low * old_scale,
                            scale == old_scale * 128,
                            low == b - 128;
                }
                None => {}
            }
        }
    }
}

proof fn lemma_pow_mono(b: nat, e1: nat, e2: nat)
    requires
        b >= 1,
        e1 <= e2,
    ensures
        pow(b, e1) <= pow(b, e2),
    decreases e2,
{
    if e1 < e2 {
        lemma_pow_mono(b, e1, (e2 - 1) as nat);
        assert(pow(b, (e2 - 1) as nat) <= b * pow(b, (e2 - 1) as nat)) by (nonlinear_arith)
            requires b >= 1;
    }
}

/// Reads an offset number of at most nine bytes that starts at `pos`.
pub fn read_offset_number(data: &[u8], pos: usize) -> (r: Result<(u64, usize), GitError>)
    requires
        pos <= data@.len(),
    ensures
        match offset_number(data@.skip(pos as int), MAX_NUMBER_BYTES as nat) {
            Some((v, used)) => r matches Ok((x, end)) && x as nat == v && end == pos + used,
            None => r == Err::<(u64, usize), GitError>(GitError::Corrupt),
        },
        r matches Ok((_, end)) ==> pos < end <= data@.len(),
{
    let ghost s = data@.skip(pos as int);
    if pos >= data.len() {
        return Err(GitError::Corrupt);
    }
    let first = data[pos];
    let mut value: u64 = (first % 128) as u64;
    if first < 128 {
        return Ok((value, pos + 1));
    }
    let mut i: usize = 1;
    proof {
        reveal_with_fuel(pow, 10);
        assert(pow(128, 9) == 0x8000000000000000);
        assert(s.drop_first() =~= s.skip(1));
    }
    loop
        invariant
            pos < data@.len(),
            s == data@.skip(pos as int),
            1 <= i <= MAX_NUMBER_BYTES,
            i <= s.len(),
            pow(128, 9) == 0x8000000000000000,
            value + 3 <= 2 * pow(128, i as nat),
            offset_number(s, 9) == match offset_number_tail(value as nat, s.skip(i as int), (9 - i) as nat) {
                Some((w, used)) => Some((w, (used + i) as nat)),
                None => None::<(nat, nat)>,
            },
        decreases MAX_NUMBER_BYTES - i,
    {
        if i == MAX_NUMBER_BYTES || i >= data.len() - pos {
            assert(i == MAX_NUMBER_BYTES || s.skip(i as int).len() == 0);
            return Err(GitError::Corrupt);
        }
        let b = data[pos + i];
        assert(s.skip(i as int)[0] == b);
        proof {
            lemma_pow_mono(128, (i + 1) as nat, 9);
            assert(pow(128, (i + 1) as nat) == 128 * pow(128, i as nat));
        }
        value = (value + 1) * 128 + (b % 128) as u64;
        if b < 128 {
            return Ok((value, pos + i + 1));
        }
        assert(s.skip(i as int).drop_first() =~= s.skip(i + 1));
        i = i + 1;
    }
}

/// The largest value of eight seven-bit groups.
pub proof fn lemma_pow128_8()
    ensures
        pow(128, 8) == 0x100000000000000,
{
    reveal_with_fuel(pow, 9);
}

} // verus!
