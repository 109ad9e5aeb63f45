//! Decimal parsing of unsigned 64-bit integers.
//!
//! A string of ASCII digits denotes a number in base ten. `normal` is the
//! scalar reference parser: it accepts exactly those strings whose every
//! character is a digit and whose value fits in a `u64`. `lanes` is a
//! lane-level formulation of a wide parser that combines up to twenty digits
//! in base ten to the eighth through three halving rounds; it also rejects
//! strings longer than twenty digits outright and applies a slightly
//! conservative overflow test. The empty string denotes zero to both.

pub mod lanes;
pub mod normal;

use vstd::prelude::*;

verus! {

/// `c` is an ASCII decimal digit.
pub open spec fn is_digit(c: char) -> bool {
    48 <= c as u32 <= 57
}

/// The numeric value of the digit `c`.
pub open spec fn digit_value(c: char) -> nat {
    (c as u32 - 48) as nat
}

/// Every character of `s` is an ASCII decimal digit.
pub open spec fn all_digits(s: Seq<char>) -> bool {
    forall|i: int| 0 <= i < s.len() ==> is_digit(s[i])
}

/// The value denoted by the digit string `s` in base ten; the empty string
/// denotes zero.
pub open spec fn digits_value(s: Seq<char>) -> nat
    decreases s.len(),
{
    if s.len() == 0 {
        0
    } else {
        digits_value(s.drop_last()) * 10 + digit_value(s.last())
    }
}

/// The value of a digit string is no less than the value of any of its
/// prefixes.
pub(crate) proof fn lemma_digits_value_prefix(s: Seq<char>, k: int)
    requires
        0 <= k <= s.len(),
    ensures
        digits_value(s.take(k)) <= digits_value(s),
    decreases s.len() - k,
{
    if k == s.len() {
        assert(s.take(k) =~= s);
    } else {
        assert(s.take(k + 1).drop_last() =~= s.take(k));
        assert(s.take(k + 1).last() == s[k]);
        assert(digits_value(s.take(k + 1)) == digits_value(s.take(k)) * 10 + digit_value(s[k]));
        lemma_digits_value_prefix(s, k + 1);
    }
}

/// Ten raised to the power `k`.
pub open spec fn pow10(k: nat) -> nat
    decreases k,
{
    if k == 0 {
        1
    } else {
        10 * pow10((k - 1) as nat)
    }
}

/// A digit string is at least as large as ten to the power of one less than
/// its length, provided it does not begin with a zero.
proof fn lemma_digits_value_lower_bound(s: Seq<char>)
    requires
        all_digits(s),
        s.len() > 0,
        s[0] != '0',
    ensures
        digits_value(s) >= pow10((s.len() - 1) as nat),
    decreases s.len(),
{
    if s.len() == 1 {
        assert(is_digit(s[0]));
        assert(s[0] as u32 != '0' as u32) by {
            vstd::utf8::char_u32_cast(s[0], s[0] as u32);
            vstd::utf8::char_u32_cast('0', '0' as u32);
        }
        assert('0' as u32 == 48);
        assert(digit_value(s[0]) >= 1);
    } else {
        lemma_digits_value_lower_bound(s.drop_last());
        assert(s.drop_last()[0] == s[0]);
        assert(digits_value(s) == digits_value(s.drop_last()) * 10 + digit_value(s.last()));
        assert(digits_value(s.drop_last()) * 10 >= pow10((s.len() - 2) as nat) * 10) by (
        nonlinear_arith)
            requires
                digits_value(s.drop_last()) >= pow10((s.len() - 2) as nat),
        ;
    }
}

/// A digit string of more than twenty digits that does not begin with a
/// zero denotes a value above `u64::MAX`, so the parser rejects it.
pub proof fn lemma_long_digit_string_overflows(s: Seq<char>)
    requires
        all_digits(s),
        s.len() >= 21,
        s[0] != '0',
    ensures
        digits_value(s) > u64::MAX,
{
    lemma_digits_value_lower_bound(s);
    assert(pow10(20) == 100000000000000000000) by {
        reveal_with_fuel(pow10, 21);
    }
    assert(pow10((s.len() - 1) as nat) >= pow10(20)) by {
        lemma_pow10_increases(20, (s.len() - 1) as nat);
    }
}

/// Ten to a higher power is no smaller.
pub(crate) proof fn lemma_pow10_increases(a: nat, b: nat)
    requires
        a <= b,
    ensures
        pow10(a) <= pow10(b),
    decreases b,
{
    if a < b {
        lemma_pow10_increases(a, (b - 1) as nat);
        assert(pow10(b) == 10 * pow10((b - 1) as nat));
        assert(pow10((b - 1) as nat) <= 10 * pow10((b - 1) as nat)) by (nonlinear_arith)
            requires
                pow10((b - 1) as nat) >= 0,
        ;
    }
}

/// Concatenation splits a digit string's value positionally: the head's
/// value is scaled by ten to the length of the tail.
pub proof fn lemma_digits_value_concat(a: Seq<char>, b: Seq<char>)
    ensures
        digits_value(a + b) == digits_value(a) * pow10(b.len()) + digits_value(b),
    decreases b.len(),
{
    if b.len() == 0 {
        assert(a + b =~= a);
        assert(pow10(0) == 1);
    } else {
        let b1 = b.drop_last();
        lemma_digits_value_concat(a, b1);
        assert((a + b).drop_last() =~= a + b1);
        assert((a + b).last() == b.last());
        assert(digits_value(a + b) == digits_value(a + b1) * 10 + digit_value(b.last()));
        assert((digits_value(a) * pow10(b1.len()) + digits_value(b1)) * 10 == digits_value(a)
            * (pow10(b1.len()) * 10) + digits_value(b1) * 10) by (nonlinear_arith);
        assert(pow10(b1.len()) * 10 == pow10(b.len()));
        assert(digits_value(b) == digits_value(b1) * 10 + digit_value(b.last()));
    }
}

/// A string of zero digits denotes zero.
pub proof fn lemma_digits_value_all_zeros(z: Seq<char>)
    requires
        forall|i: int| 0 <= i < z.len() ==> z[i] == '0',
    ensures
        digits_value(z) == 0,
    decreases z.len(),
{
    if z.len() > 0 {
        lemma_digits_value_all_zeros(z.drop_last());
        assert('0' as u32 == 48);
        assert(digit_value(z.last()) == 0);
    }
}

/// Leading zeros do not change a digit string's value.
pub proof fn lemma_digits_value_zeros_prefix(z: Seq<char>, s: Seq<char>)
    requires
        forall|i: int| 0 <= i < z.len() ==> z[i] == '0',
    ensures
        digits_value(z + s) == digits_value(s),
{
    lemma_digits_value_all_zeros(z);
    lemma_digits_value_concat(z, s);
}

/// A digit string's value is below ten to the power of its length.
pub proof fn lemma_digits_value_upper(s: Seq<char>)
    requires
        all_digits(s),
    ensures
        digits_value(s) < pow10(s.len()),
    decreases s.len(),
{
    if s.len() > 0 {
        lemma_digits_value_upper(s.drop_last());
        assert(is_digit(s.last()));
        assert(digit_value(s.last()) <= 9);
        assert(digits_value(s.drop_last()) * 10 + 9 < pow10((s.len() - 1) as nat) * 10) by (
        nonlinear_arith)
            requires
                digits_value(s.drop_last()) < pow10((s.len() - 1) as nat),
        ;
    }
}

} // verus!
