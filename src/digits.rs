//! Natural numbers written as ASCII digits in a given base.
use vstd::prelude::*;

verus! {

/// The ASCII digit for a value below ten.
pub open spec fn digit_char(d: nat) -> u8 {
    (0x30 + d) as u8
}

/// `n` written in `base` (at most ten) without leading zeros; zero is "0".
pub open spec fn digits(n: nat, base: nat) -> Seq<u8>
    recommends
        2 <= base <= 10,
    decreases n
    via digits_decreases
{
    if base < 2 || n < base {
        seq![digit_char(n)]
    } else {
        digits(n / base, base).push(digit_char(n % base))
    }
}

#[via_fn]
proof fn digits_decreases(n: nat, base: nat) {
    if !(base < 2 || n < base) {
        assert(n / base < n) by (nonlinear_arith)
            requires base >= 2, n >= base;
    }
}

/// The value of ASCII digits in `base`, or `None` when one is not a digit of that base.
pub open spec fn digits_value(s: Seq<u8>, base: nat) -> Option<nat>
    decreases s.len(),
{
    if s.len() == 0 {
        Some(0nat)
    } else if s.last() < 0x30 || s.last() >= 0x30 + base {
        None
    } else {
        match digits_value(s.drop_last(), base) {
            Some(v) => Some(v * base + (s.last() - 0x30) as nat),
            None => None,
        }
    }
}

/// Appends `n` written in `base` to `out`.
pub fn push_digits(out: &mut Vec<u8>, n: u64, base: u64)
    requires
        2 <= base <= 10,
    ensures
        final(out)@ == old(out)@ + digits(n as nat, base as nat),
    decreases n,
{
    if n >= base {
        assert(n / base < n) by (nonlinear_arith)
            requires base >= 2, n >= base;
        push_digits(out, n / base, base);
    }
    let d = (n % base) as u8;
    out.push(0x30 + d);
    proof {
        if n < base {
            assert(n % base == n) by (nonlinear_arith)
                requires n < base;
        }
    }
    assert(out@ =~= old(out)@ + digits(n as nat, base as nat));
}

/// `digits` never yields a byte outside the ASCII digits.
pub proof fn lemma_digits_are_digits(n: nat, base: nat)
    requires
        2 <= base <= 10,
    ensures
        forall|i: int| 0 <= i < digits(n, base).len() ==> 0x30 <= #[trigger] digits(n, base)[i] < 0x30 + base,
        digits(n, base).len() >= 1,
    decreases n,
{
    if n >= base {
        assert(n / base < n) by (nonlinear_arith)
            requires base >= 2, n >= base;
        lemma_digits_are_digits(n / base, base);
    }
}

/// Reading back what `digits` wrote gives the number.
pub proof fn lemma_digits_value(n: nat, base: nat)
    requires
        2 <= base <= 10,
    ensures
        digits_value(digits(n, base), base) == Some(n),
    decreases n,
{
    let s = digits(n, base);
    if n >= base {
        assert(n / base < n) by (nonlinear_arith)
            requires base >= 2, n >= base;
        lemma_digits_value(n / base, base);
        assert(s.drop_last() =~= digits(n / base, base));
        assert((n / base) * base + n % base == n && n % base < base) by (nonlinear_arith)
            requires base > 0;
        assert(s.last() == 0x30 + n % base);
    } else {
        assert(s.drop_last() =~= Seq::<u8>::empty());
        assert(s.last() == 0x30 + n);
        assert(digits_value(s.drop_last(), base) == Some(0nat));
        assert(0nat * base == 0);
    }
}

} // verus!
