//! Delta reconstruction: a target object rebuilt from a base object and a
//! stream of copy and insert instructions.
use crate::buf::push_range;
use crate::error::GitError;
use crate::varint::pow;
use crate::varint::read_size_number;
use crate::varint::size_number;
use crate::varint::MAX_NUMBER_BYTES;
use vstd::prelude::*;

verus! {

/// The value of the operand bytes that bits `first .. first + k` of a copy
/// instruction announce, least significant byte first, absent bytes counting
/// as zero; with the number of bytes taken from `data`.
pub open spec fn copy_operand(op: u8, first: nat, k: nat, data: Seq<u8>) -> Option<(nat, nat)>
    decreases k,
{
    if k == 0 {
        Some((0nat, 0nat))
    } else {
        match copy_operand(op, first, (k - 1) as nat, data) {
            Some((v, used)) => if op & (pow(2, (first + k - 1) as nat) as u8) == 0 {
                Some((v, used))
            } else if used < data.len() {
                Some(((v + data[used as int] * pow(256, (k - 1) as nat)) as nat, used + 1))
            } else {
                None
            },
            None => None,
        }
    }
}

/// The bytes that an instruction stream builds from `base`, or `None` when
/// a copy leaves the base, an insert runs past the stream, or an
/// instruction byte is zero.
pub open spec fn apply_delta(base: Seq<u8>, ins: Seq<u8>) -> Option<Seq<u8>>
    decreases ins.len(),
{
    if ins.len() == 0 {
        Some(Seq::empty())
    } else {
        let op = ins[0];
        let rest = ins.drop_first();
        if op >= 128 {
            match copy_operand(op, 0, 4, rest) {
                Some((offset, used1)) => if used1 <= rest.len() {
                    match copy_operand(op, 4, 3, rest.skip(used1 as int)) {
                        Some((size, used2)) => if used1 + used2 <= rest.len() && offset + size <= base.len() {
                            match apply_delta(base, rest.skip((used1 + used2) as int)) {
                                Some(t) => Some(base.subrange(offset as int, (offset + size) as int) + t),
                                None => None,
                            }
                        } else {
                            None
                        },
                        None => None,
                    }
                } else {
                    None
                },
                None => None,
            }
        } else if op == 0 || op > rest.len() {
            None
        } else {
            match apply_delta(base, rest.skip(op as int)) {
                Some(t) => Some(rest.take(op as int) + t),
                None => None,
            }
        }
    }
}

/// `done` followed by what `rest` builds, when it builds anything.
pub open spec fn prefixed(done: Seq<u8>, rest: Option<Seq<u8>>) -> Option<Seq<u8>> {
    match rest {
        Some(t) => Some(done + t),
        None => None,
    }
}

/// Reads the operand bytes of a copy instruction for `k` bits of `op` from `first`.
fn read_copy_operand(op: u8, first: u32, k: u32, data: &[u8], pos: usize) -> (r: Result<(u64, usize), GitError>)
    requires
        pos <= data@.len(),
        first + k <= 7,
        k <= 4,
    ensures
        match copy_operand(op, first as nat, k as nat, data@.skip(pos as int)) {
            Some((v, used)) => r matches Ok((x, end)) && x as nat == v && end == pos + used,
            None => r == Err::<(u64, usize), GitError>(GitError::Corrupt),
        },
        r matches Ok((_, end)) ==> pos <= end <= data@.len(),
{
    let ghost s = data@.skip(pos as int);
    let mut value: u64 = 0;
    let mut used: usize = 0;
    let mut scale: u64 = 1;
    let mut mask: u8 = 1;
    let mut j: u32 = 0;
    proof {
        reveal_with_fuel(pow, 8);
    }
    while j < first
        invariant
            j <= first <= 7,
            mask as nat == pow(2, j as nat),
        decreases first - j,
    {
        proof {
            lemma_pow2_small(j as nat);
        }
        mask = mask * 2;
        j = j + 1;
    }
    let mut i: u32 = 0;
    while i < k
        invariant
            pos <= data@.len(),
            s == data@.skip(pos as int),
            first + k <= 7,
            k <= 4,
            i <= k,
            i < k ==> mask as nat == pow(2, (first + i) as nat),
            i < k ==> scale as nat == pow(256, i as nat),
            copy_operand(op, first as nat, i as nat, s) == Some((value as nat, used as nat)),
            used <= i,
            used <= s.len(),
            value < pow(256, i as nat),
        decreases k - i,
    {
        proof {
            lemma_pow2_small((first + i) as nat);
            lemma_pow256_small(i as nat);
            assert(pow(2, (first + i + 1) as nat) == 2 * pow(2, (first + i) as nat));
            assert(pow(256, (i + 1) as nat) == 256 * pow(256, i as nat));
        }
        if op & mask != 0 {
            if used >= data.len() - pos {
                proof {
                    lemma_copy_operand_none(op, first as nat, (i + 1) as nat, k as nat, s);
                }
                return Err(GitError::Corrupt);
            }
            let b = data[pos + used];
            assert(s[used as int] == b);
            assert((b as u64) * scale <= 255 * scale) by (nonlinear_arith)
                requires b <= 255;
            value = value + (b as u64) * scale;
            used = used + 1;
        }
        if i + 1 < k {
            mask = mask * 2;
            scale = scale * 256;
        }
        i = i + 1;
        proof {
            if i == k {
                assert(copy_operand(op, first as nat, k as nat, s) == Some((value as nat, used as nat)));
            }
        }
    }
    let total = data.len();
    assert(s.len() == total - pos);
    Ok((value, pos + used))
}

proof fn lemma_copy_operand_none(op: u8, first: nat, i: nat, k: nat, data: Seq<u8>)
    requires
        i <= k,
        copy_operand(op, first, i, data) is None,
    ensures
        copy_operand(op, first, k, data) is None,
    decreases k - i,
{
    if i < k {
        lemma_copy_operand_none(op, first, i, (k - 1) as nat, data);
    }
}

proof fn lemma_pow2_small(j: nat)
    requires
        j <= 7,
    ensures
        pow(2, j) <= 128,
        j <= 6 ==> pow(2, j) <= 64,
        pow(2, j + 1) == 2 * pow(2, j),
{
    reveal_with_fuel(pow, 9);
}

proof fn lemma_pow256_small(i: nat)
    requires
        i <= 3,
    ensures
        pow(256, i) <= 0x1000000,
        pow(256, i + 1) == 256 * pow(256, i),
{
    reveal_with_fuel(pow, 5);
}

/// What a whole delta builds from `base`: two size numbers (the base's size
/// and the target's size) and then the instructions. `SizeMismatch` when
/// the base or the built bytes have another size than the one declared,
/// `Corrupt` when a size number is malformed or the instructions fail.
pub open spec fn delta_target(base: Seq<u8>, delta: Seq<u8>) -> Result<Seq<u8>, GitError> {
    match size_number(delta, MAX_NUMBER_BYTES as nat) {
        Some((source_size, used1)) => match size_number(delta.skip(used1 as int), MAX_NUMBER_BYTES as nat) {
            Some((target_size, used2)) => if source_size != base.len() {
                Err(GitError::SizeMismatch { expected: source_size as u64, actual: base.len() as u64 })
            } else {
                match apply_delta(base, delta.skip((used1 + used2) as int)) {
                    Some(t) => if t.len() == target_size {
                        Ok(t)
                    } else {
                        Err(GitError::SizeMismatch { expected: target_size as u64, actual: t.len() as u64 })
                    },
                    None => Err(GitError::Corrupt),
                }
            },
            None => Err(GitError::Corrupt),
        },
        None => Err(GitError::Corrupt),
    }
}

proof fn lemma_prefixed_assoc(a: Seq<u8>, b: Seq<u8>, x: Option<Seq<u8>>)
    ensures
        prefixed(a, prefixed(b, x)) == prefixed(a + b, x),
{
    if let Some(t) = x {
        assert(a + (b + t) =~= (a + b) + t);
    }
}

/// Runs the instructions of `delta` from `start` against `base`, and checks
/// that they build exactly `target_size` bytes.
fn run_instructions(delta: &[u8], start: usize, target_size: u64, base: &[u8]) -> (r: Result<Vec<u8>, GitError>)
    requires
        start <= delta@.len(),
    ensures
        match apply_delta(base@, delta@.skip(start as int)) {
            Some(t) => if t.len() == target_size {
                r matches Ok(v) && v@ == t
            } else {
                r == Err::<Vec<u8>, GitError>(GitError::SizeMismatch { expected: target_size, actual: t.len() as u64 })
            },
            None => r == Err::<Vec<u8>, GitError>(GitError::Corrupt),
        },
{
    let ghost whole = delta@.skip(start as int);
    let mut out: Vec<u8> = Vec::new();
    let mut pos: usize = start;
    assert(out@ + Seq::<u8>::empty() =~= Seq::<u8>::empty());
    proof {
        match apply_delta(base@, whole) {
            Some(t) => assert(out@ + t =~= t),
            None => {},
        }
    }
    while pos < delta.len()
        invariant
            start <= pos <= delta@.len(),
            whole == delta@.skip(start as int),
            apply_delta(base@, whole) == prefixed(out@, apply_delta(base@, delta@.skip(pos as int))),
        decreases delta@.len() - pos,
    {
        let op = delta[pos];
        let ghost cur = delta@.skip(pos as int);
        let ghost rest = delta@.skip(pos + 1);
        assert(cur.drop_first() =~= rest);
        assert(cur[0] == op);
        if op >= 128 {
            let (offset, after_offset) = match read_copy_operand(op, 0, 4, delta, pos + 1) {
                Ok(x) => x,
                Err(e) => return Err(e),
            };
            assert(delta@.skip(after_offset as int) =~= rest.skip(after_offset - pos - 1));
            let (size, after_size) = match read_copy_operand(op, 4, 3, delta, after_offset) {
                Ok(x) => x,
                Err(e) => return Err(e),
            };
            assert(delta@.skip(after_size as int) =~= rest.skip(after_size - pos - 1));
            let n = base.len();
            if offset > n as u64 || size > n as u64 - offset {
                return Err(GitError::Corrupt);
            }
            let ghost before = out@;
            assert(apply_delta(base@, cur) == prefixed(base@.subrange(offset as int, (offset + size) as int),
                apply_delta(base@, delta@.skip(after_size as int))));
            push_range(&mut out, base, offset as usize, (offset + size) as usize);
            proof {
                lemma_prefixed_assoc(before, base@.subrange(offset as int, (offset + size) as int),
                    apply_delta(base@, delta@.skip(after_size as int)));
            }
            pos = after_size;
        } else if op == 0 {
            return Err(GitError::Corrupt);
        } else {
            let n = op as usize;
            if n > delta.len() - pos - 1 {
                return Err(GitError::Corrupt);
            }
            let ghost before = out@;
            push_range(&mut out, delta, pos + 1, pos + 1 + n);
            assert(rest.take(n as int) =~= delta@.subrange(pos + 1, pos + 1 + n));
            assert(rest.skip(n as int) =~= delta@.skip(pos + 1 + n));
            assert(apply_delta(base@, cur) == prefixed(rest.take(n as int), apply_delta(base@, delta@.skip(pos + 1 + n))));
            proof {
                lemma_prefixed_assoc(before, rest.take(n as int), apply_delta(base@, delta@.skip(pos + 1 + n)));
            }
            pos = pos + 1 + n;
        }
    }
    assert(delta@.skip(pos as int) =~= Seq::<u8>::empty());
    assert(out@ + Seq::<u8>::empty() =~= out@);
    if out.len() as u64 != target_size {
        return Err(GitError::SizeMismatch { expected: target_size, actual: out.len() as u64 });
    }
    Ok(out)
}

/// Rebuilds a target object from `base` and the instruction part of a delta,
/// which must build exactly `target_size` bytes.
pub fn patch_content(delta: &[u8], target_size: u64, base: &[u8]) -> (r: Result<Vec<u8>, GitError>)
    ensures
        match apply_delta(base@, delta@) {
            Some(t) => if t.len() == target_size {
                r matches Ok(v) && v@ == t
            } else {
                r == Err::<Vec<u8>, GitError>(GitError::SizeMismatch { expected: target_size, actual: t.len() as u64 })
            },
            None => r == Err::<Vec<u8>, GitError>(GitError::Corrupt),
        },
{
    assert(delta@.skip(0) =~= delta@);
    run_instructions(delta, 0, target_size, base)
}

/// Rebuilds a target object from `base` and a whole delta: its two size
/// numbers, then its instructions.
pub fn patch(base: &[u8], delta: &[u8]) -> (r: Result<Vec<u8>, GitError>)
    ensures
        match delta_target(base@, delta@) {
            Ok(t) => r matches Ok(v) && v@ == t,
            Err(e) => r matches Err(x) && x == e,
        },
{
    assert(delta@.skip(0) =~= delta@);
    let (source_size, after_source) = match read_size_number(delta, 0, MAX_NUMBER_BYTES) {
        Ok(x) => x,
        Err(e) => return Err(e),
    };
    let (target_size, after_target) = match read_size_number(delta, after_source, MAX_NUMBER_BYTES) {
        Ok(x) => x,
        Err(e) => return Err(e),
    };
    if source_size != base.len() as u64 {
        return Err(GitError::SizeMismatch { expected: source_size, actual: base.len() as u64 });
    }
    run_instructions(delta, after_target, target_size, base)
}

} // verus!
