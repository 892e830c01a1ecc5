//! Decimal ASCII rendering of unsigned and signed integers.
use vstd::prelude::*;

verus! {

/// The ASCII code of the digit `d` (`0 <= d < 10`).
pub open spec fn digit_byte(d: nat) -> u8 {
    (48 + d) as u8
}

/// Whether `b` is an ASCII decimal digit.
pub open spec fn is_digit(b: u8) -> bool {
    48 <= b <= 57
}

/// The shortest decimal rendering of `n`, most significant digit first.
pub open spec fn dec(n: nat) -> Seq<u8>
    decreases n,
{
    if n < 10 {
        seq![digit_byte(n)]
    } else {
        dec(n / 10).push(digit_byte(n % 10))
    }
}

/// The value of a run of decimal digits read most significant first.
pub open spec fn digits_value(s: Seq<u8>) -> int
    decreases s.len(),
{
    if s.len() == 0 {
        0
    } else {
        10 * digits_value(s.drop_last()) + (s.last() - 48)
    }
}

/// Signed decimal: a leading `-` for negative values.
pub open spec fn dec_int(i: int) -> Seq<u8> {
    if i < 0 {
        seq![45u8] + dec((-i) as nat)
    } else {
        dec(i as nat)
    }
}

/// `dec(n)` is a non-empty run of digits without a superfluous leading zero,
/// and reads back as `n`.
pub proof fn lemma_dec(n: nat)
    ensures
        dec(n).len() >= 1,
        forall|k: int| 0 <= k < dec(n).len() ==> is_digit(#[trigger] dec(n)[k]),
        dec(n)[0] == 48 ==> n == 0,
        n == 0 ==> dec(n) == seq![48u8],
        digits_value(dec(n)) == n,
    decreases n,
{
    if n >= 10 {
        lemma_dec(n / 10);
        let d = dec(n);
        assert(d.drop_last() =~= dec(n / 10));
        assert(d[0] == dec(n / 10)[0]);
        assert(n == 10 * (n / 10) + n % 10) by (nonlinear_arith);
        assert(d.last() == digit_byte(n % 10));
        assert(digit_byte(n % 10) - 48 == n % 10);
        assert(digits_value(d) == 10 * digits_value(dec(n / 10)) + (d.last() - 48));
    } else {
        assert(seq![digit_byte(n)].drop_last() =~= Seq::<u8>::empty());
        assert(digits_value(Seq::<u8>::empty()) == 0);
        assert(digit_byte(n) - 48 == n);
    }
}

/// Appends the decimal rendering of `n` to `out`.
pub fn push_decimal(out: &mut Vec<u8>, n: u64)
    ensures
        final(out)@ == old(out)@ + dec(n as nat),
    decreases n,
{
    if n >= 10 {
        push_decimal(out, n / 10);
    }
    out.push(48u8 + (n % 10) as u8);
    assert(out@ =~= old(out)@ + dec(n as nat));
}

/// Appends the signed decimal rendering of `i` to `out`.
pub fn push_signed_decimal(out: &mut Vec<u8>, i: i64)
    ensures
        final(out)@ == old(out)@ + dec_int(i as int),
{
    if i < 0 {
        out.push(45u8);
        let m: u64 = (0i128 - (i as i128)) as u64;
        push_decimal(out, m);
        assert(out@ =~= old(out)@ + dec_int(i as int));
    } else {
        push_decimal(out, i as u64);
    }
}

/// A run of digits without a superfluous leading zero is the rendering of its value.
pub proof fn lemma_canonical_digits(t: Seq<u8>)
    requires
        t.len() >= 1,
        forall|k: int| 0 <= k < t.len() ==> is_digit(#[trigger] t[k]),
        t[0] == 48 ==> t.len() == 1,
    ensures
        dec(digits_value(t) as nat) == t,
        digits_value(t) >= 0,
        t[0] != 48 ==> digits_value(t) > 0,
    decreases t.len(),
{
    let u = t.drop_last();
    if t.len() == 1 {
        assert(u =~= Seq::<u8>::empty());
        assert(dec(digits_value(t) as nat) =~= t);
    } else {
        lemma_canonical_digits(u);
        let a = digits_value(u);
        let b = t.last() - 48;
        assert(0 <= b < 10);
        let n = 10 * a + b;
        assert(n / 10 == a && n % 10 == b) by (nonlinear_arith)
            requires n == 10 * a + b, 0 <= b < 10;
        assert(dec(n as nat) =~= t);
    }
}
} // verus!
