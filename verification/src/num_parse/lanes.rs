//! Lane-level formulation of the wide parser.
//!
//! The digits are placed right-aligned in a frame of 32 lanes padded with
//! leading zeros. Three halving rounds then combine neighbouring lanes with
//! weights ten, one hundred and ten thousand, leaving four lanes of eight
//! decimal digits each; the three live limbs are recombined in base ten to
//! the eighth. A string is accepted when every character is a digit, it is
//! at most twenty digits long and the limb test below finds no overflow.

use crate::num_parse::all_digits;
use crate::num_parse::digit_value;
use crate::num_parse::digits_value;
use crate::num_parse::is_digit;
use vstd::prelude::*;

verus! {

/// The wide parser's acceptance test: digits only, at most twenty of them,
/// and for seventeen digits or more a limb test — the four leading digits
/// at most 1844 and the sixteen trailing digits at most 6744073709551615.
/// The limb test is conservative: it rejects a few values that fit in a
/// `u64`, such as 10009999999999999999.
pub open spec fn wide_accepts(s: Seq<char>) -> bool {
    &&& all_digits(s)
    &&& s.len() <= 20
    &&& (s.len() <= 16 || (digits_value(s.take(s.len() - 16)) <= 1844 && digits_value(
        s.subrange(s.len() - 16, s.len() as int),
    ) <= 6744073709551615))
}

/// A string the wide parser accepts denotes a value that fits in a `u64`,
/// so the scalar reference parser accepts it too, with the same value.
pub proof fn lemma_wide_accepts_fits(s: Seq<char>)
    requires
        wide_accepts(s),
    ensures
        digits_value(s) <= u64::MAX,
{
    if s.len() <= 16 {
        crate::num_parse::lemma_digits_value_upper(s);
        crate::num_parse::lemma_pow10_increases(s.len(), 16);
        assert(crate::num_parse::pow10(16) == 10000000000000000) by {
            reveal_with_fuel(crate::num_parse::pow10, 17);
        }
    } else {
        let k = s.len() - 16;
        let head = s.take(k as int);
        let tail = s.subrange(k as int, s.len() as int);
        assert(s =~= head + tail);
        crate::num_parse::lemma_digits_value_concat(head, tail);
        assert(crate::num_parse::pow10(16) == 10000000000000000) by {
            reveal_with_fuel(crate::num_parse::pow10, 17);
        }
        assert(digits_value(head) * 10000000000000000 <= 1844 * 10000000000000000) by (
        nonlinear_arith)
            requires
                digits_value(head) <= 1844,
        ;
    }
}

/// Parses `s` as an unsigned decimal integer by the wide algorithm.
///
/// Returns the denoted value exactly when `wide_accepts` holds of `s`, and
/// `None` otherwise. On any accepted string the scalar reference parser
/// returns the same value.
#[verifier::loop_isolation(false)]
#[verifier::rlimit(100)]
pub fn parse_u64(s: &str) -> (r: Option<u64>)
    ensures
        r is Some <==> wide_accepts(s@),
        r is Some ==> r->0 == digits_value(s@),
{
    let mut digits: Vec<u32> = Vec::new();
    for c in it: s.chars()
        invariant
            it.seq() == s@,
            digits@.len() == it.index(),
            all_digits(s@.take(it.index() as int)),
            forall|i: int| 0 <= i < digits@.len() ==> digits@[i] == digit_value(s@[i]),
    {
        proof {
            assert(c == s@[it.index() as int]);
            assert(s@.take(it.index() + 1).drop_last() =~= s@.take(it.index() as int));
            assert(s@.take(it.index() + 1).last() == s@[it.index() as int]);
        }
        let code: u32 = c as u32;
        if code < 48 || code > 57 {
            proof {
                assert(!is_digit(s@[it.index() as int]));
            }
            return None;
        }
        digits.push(code - 48);
    }
    proof {
        assert(s@.take(s@.len() as int) =~= s@);
    }
    let n: usize = digits.len();
    if n > 20 {
        return None;
    }
    let base: usize = 32 - n;
    let ghost fc = Seq::new(
        32,
        |j: int|
            if j < 32 - s@.len() {
                '0'
            } else {
                s@[j - (32 - s@.len())]
            },
    );
    proof {
        assert('0' as u32 == 48);
        assert(forall|j: int| 0 <= j < 32 ==> is_digit(#[trigger] fc[j]));
    }
    let mut f: [u32; 32] = [0u32;32];
    let mut fi: usize = 0;
    while fi < n
        invariant
            fi <= n,
            n == digits@.len() == s@.len() <= 20,
            base == 32 - n,
            all_digits(s@),
            forall|i: int| 0 <= i < digits@.len() ==> digits@[i] == digit_value(s@[i]),
            f@.len() == 32,
            forall|j: int| 0 <= j < base + fi ==> f@[j] == digit_value(fc[j]),
            forall|j: int| base + fi <= j < 32 ==> f@[j] == 0,
        decreases n - fi,
    {
        f[base + fi] = digits[fi];
        proof {
            assert(fc[base + fi] == s@[fi as int]);
        }
        fi += 1;
    }
    proof {
        assert('0' as u32 == 48);
        assert(forall|j: int| 0 <= j < 32 ==> f@[j] == digit_value(#[trigger] fc[j]));
        assert(forall|j: int| 0 <= j < 32 ==> #[trigger] f@[j] <= 9);
    }
    let mut g: [u32; 16] = [0u32;16];
    let mut gi: usize = 0;
    while gi < 16
        invariant
            gi <= 16,
            f@.len() == 32,
            g@.len() == 16,
            forall|j: int| 0 <= j < 32 ==> f@[j] == digit_value(#[trigger] fc[j]),
            forall|j: int| 0 <= j < 32 ==> #[trigger] f@[j] <= 9,
            forall|j: int|
                0 <= j < gi ==> #[trigger] g@[j] == digits_value(fc.subrange(2 * j, 2 * j + 2))
                    && g@[j] <= 99,
        decreases 16 - gi,
    {
        let v: u32 = 10 * f[2 * gi] + f[2 * gi + 1];
        g[gi] = v;
        proof {
            let w = fc.subrange(2 * gi, 2 * gi + 2);
            assert(w.drop_last() =~= fc.subrange(2 * gi, 2 * gi + 1));
            assert(w.drop_last().drop_last() =~= Seq::<char>::empty());
            assert(w.last() == fc[2 * gi + 1] && w.drop_last().last() == fc[2 * gi]);
            assert(digits_value(Seq::<char>::empty()) == 0);
            assert(digits_value(w.drop_last()) == digit_value(fc[2 * gi]));
            assert(digits_value(w) == digit_value(fc[2 * gi]) * 10 + digit_value(fc[2 * gi + 1]));
            assert(v == digits_value(w) && v <= 99);
        }
        gi += 1;
    }
    let mut h: [u32; 8] = [0u32;8];
    let mut hi_i: usize = 0;
    while hi_i < 8
        invariant
            hi_i <= 8,
            g@.len() == 16,
            h@.len() == 8,
            forall|j: int|
                0 <= j < 16 ==> #[trigger] g@[j] == digits_value(fc.subrange(2 * j, 2 * j + 2))
                    && g@[j] <= 99,
            forall|j: int|
                0 <= j < hi_i ==> #[trigger] h@[j] == digits_value(fc.subrange(4 * j, 4 * j + 4))
                    && h@[j] <= 9999,
        decreases 8 - hi_i,
    {
        let v: u32 = 100 * g[2 * hi_i] + g[2 * hi_i + 1];
        h[hi_i] = v;
        proof {
            let a = fc.subrange(4 * hi_i, 4 * hi_i + 2);
            let b = fc.subrange(4 * hi_i + 2, 4 * hi_i + 4);
            assert(fc.subrange(4 * hi_i, 4 * hi_i + 4) =~= a + b);
            crate::num_parse::lemma_digits_value_concat(a, b);
            assert(crate::num_parse::pow10(2) == 100) by {
                reveal_with_fuel(crate::num_parse::pow10, 3);
            }
            assert(v == digits_value(fc.subrange(4 * hi_i, 4 * hi_i + 4)) && v <= 9999);
        }
        hi_i += 1;
    }
    let mut w4: [u32; 4] = [0u32;4];
    let mut wi: usize = 0;
    while wi < 4
        invariant
            wi <= 4,
            h@.len() == 8,
            w4@.len() == 4,
            forall|j: int|
                0 <= j < 8 ==> #[trigger] h@[j] == digits_value(fc.subrange(4 * j, 4 * j + 4))
                    && h@[j] <= 9999,
            forall|j: int|
                0 <= j < wi ==> #[trigger] w4@[j] == digits_value(fc.subrange(8 * j, 8 * j + 8))
                    && w4@[j] <= 99999999,
        decreases 4 - wi,
    {
        let v: u32 = 10000 * h[2 * wi] + h[2 * wi + 1];
        w4[wi] = v;
        proof {
            let a = fc.subrange(8 * wi, 8 * wi + 4);
            let b = fc.subrange(8 * wi + 4, 8 * wi + 8);
            assert(fc.subrange(8 * wi, 8 * wi + 8) =~= a + b);
            crate::num_parse::lemma_digits_value_concat(a, b);
            assert(crate::num_parse::pow10(4) == 10000) by {
                reveal_with_fuel(crate::num_parse::pow10, 5);
            }
            assert(v == digits_value(fc.subrange(8 * wi, 8 * wi + 8)) && v <= 99999999);
        }
        wi += 1;
    }
    let lo: u64 = w4[3] as u64;
    let mid: u64 = w4[2] as u64;
    let hi: u64 = w4[1] as u64;
    if n <= 8 {
        proof {
            let z = fc.subrange(24, 32 - s@.len() as int);
            assert(fc.subrange(24, 32) =~= z + s@);
            crate::num_parse::lemma_digits_value_zeros_prefix(z, s@);
        }
        return Some(lo);
    }
    let lo16: u64 = lo + 100000000 * mid;
    proof {
        let a = fc.subrange(16, 24);
        let b = fc.subrange(24, 32);
        assert(fc.subrange(16, 32) =~= a + b);
        crate::num_parse::lemma_digits_value_concat(a, b);
        assert(crate::num_parse::pow10(8) == 100000000) by {
            reveal_with_fuel(crate::num_parse::pow10, 9);
        }
    }
    if n <= 16 {
        proof {
            let z = fc.subrange(16, 32 - s@.len() as int);
            assert(fc.subrange(16, 32) =~= z + s@);
            crate::num_parse::lemma_digits_value_zeros_prefix(z, s@);
        }
        return Some(lo16);
    }
    proof {
        let zh = fc.subrange(8, 32 - s@.len() as int);
        let head = s@.take(s@.len() - 16);
        assert(fc.subrange(8, 16) =~= zh + head);
        crate::num_parse::lemma_digits_value_zeros_prefix(zh, head);
        assert(fc.subrange(16, 32) =~= s@.subrange(s@.len() - 16, s@.len() as int));
    }
    proof {
        assert(hi as nat == digits_value(s@.take(s@.len() - 16)));
        assert(lo16 as nat == digits_value(s@.subrange(s@.len() - 16, s@.len() as int)));
    }
    if hi > 1844 || lo16 > 6744073709551615 {
        return None;
    }
    let res: u64 = hi * 10000000000000000 + lo16;
    proof {
        let z8 = fc.subrange(0, 8);
        let a = fc.subrange(8, 16);
        let b = fc.subrange(16, 32);
        assert(fc.subrange(0, 16) =~= z8 + a);
        assert(fc =~= fc.subrange(0, 16) + b);
        crate::num_parse::lemma_digits_value_zeros_prefix(z8, a);
        crate::num_parse::lemma_digits_value_concat(fc.subrange(0, 16), b);
        assert(crate::num_parse::pow10(16) == 10000000000000000) by {
            reveal_with_fuel(crate::num_parse::pow10, 17);
        }
        let zf = fc.subrange(0, 32 - s@.len() as int);
        assert(fc =~= zf + s@);
        crate::num_parse::lemma_digits_value_zeros_prefix(zf, s@);
        assert(digits_value(fc.subrange(0, 16)) * 10000000000000000 == digits_value(a)
            * 10000000000000000);
    }
    Some(res)
}

} // verus!
