//! The scalar reference parser.

use crate::num_parse::all_digits;
use crate::num_parse::digit_value;
use crate::num_parse::digits_value;
use crate::num_parse::is_digit;
use crate::num_parse::lemma_digits_value_prefix;
use vstd::prelude::*;

verus! {

/// Parses `s` as an unsigned decimal integer.
///
/// Returns the denoted value exactly when every character of `s` is an ASCII
/// digit and the value fits in a `u64`; returns `None` otherwise. The empty
/// string parses to zero.
pub fn parse_u64(s: &str) -> (r: Option<u64>)
    ensures
        r is Some <==> all_digits(s@) && digits_value(s@) <= u64::MAX,
        r is Some ==> r->0 == digits_value(s@),
{
    let mut res: u64 = 0;
    for c in it: s.chars()
        invariant
            it.seq() == s@,
            all_digits(s@.take(it.index() as int)),
            res == digits_value(s@.take(it.index() as int)),
    {
        proof {
            assert(c == s@[it.index() as int]);
            assert(s@.take(it.index() + 1).drop_last() =~= s@.take(it.index() as int));
            assert(s@.take(it.index() + 1).last() == s@[it.index() as int]);
        }
        let code: u32 = c as u32;
        if code < 48 || code > 57 {
            proof {
                assert(!is_digit(s@[it.index() as int]));
            }
            return None;
        }
        let digit: u64 = (code - 48) as u64;
        let scaled: Option<u64> = res.checked_mul(10);
        match scaled {
            None => {
                proof {
                    lemma_digits_value_prefix(s@, it.index() + 1);
                }
                return None;
            },
            Some(m) => {
                let grown: Option<u64> = m.checked_add(digit);
                match grown {
                    None => {
                        proof {
                            lemma_digits_value_prefix(s@, it.index() + 1);
                        }
                        return None;
                    },
                    Some(next) => {
                        proof {
                            assert(code == c as u32);
                            assert(is_digit(s@[it.index() as int]));
                            assert(digit as nat == digit_value(s@[it.index() as int]));
                            assert(next as nat == digits_value(s@.take(it.index() + 1)));
                        }
                        res = next;
                    },
                }
            },
        }
    }
    proof {
        assert(s@.take(s@.len() as int) =~= s@);
    }
    Some(res)
}

} // verus!
