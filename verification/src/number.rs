//! Reading a number token's text as a machine integer.
//!
//! The value domain chosen for parsed numbers is `i32`: a token is converted
//! exactly when its text is a plain signed decimal — an optional `-` followed
//! by digits only — whose value fits that type.  Texts with a fraction or an
//! exponent, and values outside the `i32` range, are rejected.

use vstd::prelude::*;

use crate::tokenizer::chars_vec;
use crate::tokenizer::is_digit;
use crate::tokenizer::is_digit_char;

verus! {

/// Whether every character of `s` is a decimal digit.
pub open spec fn all_digits(s: Seq<char>) -> bool {
    forall|k: int| 0 <= k < s.len() ==> is_digit_char(#[trigger] s[k])
}

/// The numeric value of a single decimal digit.
pub open spec fn digit_val(c: char) -> int {
    c as u32 - 48
}

/// The value of a digit string read in base ten.
pub open spec fn digits_val(s: Seq<char>) -> int
    decreases s.len(),
{
    if s.len() == 0 {
        0
    } else {
        digits_val(s.drop_last()) * 10 + digit_val(s.last())
    }
}

/// The integer the text denotes, if it is an optional `-` followed by one or
/// more digits and the signed value fits an `i32`; `None` otherwise.
pub open spec fn spec_i32_of(s: Seq<char>) -> Option<int> {
    let neg = s.len() > 0 && s[0] == '-';
    let mag = if neg {
        s.subrange(1, s.len() as int)
    } else {
        s
    };
    if mag.len() == 0 || !all_digits(mag) {
        None
    } else {
        let v = if neg {
            -digits_val(mag)
        } else {
            digits_val(mag)
        };
        if -0x8000_0000 <= v <= 0x7fff_ffff {
            Some(v)
        } else {
            None
        }
    }
}

proof fn lemma_digits_val_nonneg(s: Seq<char>)
    requires
        all_digits(s),
    ensures
        digits_val(s) >= 0,
    decreases s.len(),
{
    if s.len() > 0 {
        assert(all_digits(s.drop_last()));
        lemma_digits_val_nonneg(s.drop_last());
    }
}

/// Reads `text` as a plain signed decimal `i32`.  Returns the exact value
/// the text denotes, and `None` precisely when the text is not an optional
/// `-` followed by digits, or its value does not fit an `i32`.
pub fn parse_i32(text: &str) -> (r: Option<i32>)
    ensures
        match r {
            Some(v) => spec_i32_of(text@) == Some(v as int),
            None => spec_i32_of(text@) is None,
        },
{
    let cs = chars_vec(text);
    let n = cs.len();
    let neg = n > 0 && cs[0] == '-';
    let start: usize = if neg {
        1
    } else {
        0
    };
    if start >= n {
        return None;
    }
    let mut acc: u64 = 0;
    let mut i = start;
    while i < n
        invariant
            start <= i <= n,
            n == cs@.len(),
            cs@ == text@,
            neg == (cs@.len() > 0 && cs@[0] == '-'),
            start == (if neg {
                1int
            } else {
                0int
            }),
            forall|k: int| start <= k < i ==> is_digit_char(#[trigger] cs@[k]),
            acc == digits_val(cs@.subrange(start as int, i as int)) || (acc > 0xffff_ffffu64
                && digits_val(cs@.subrange(start as int, i as int)) > 0xffff_ffff),
        decreases n - i,
    {
        let c = cs[i];
        if !is_digit(c) {
            proof {
                if neg {
                    assert(text@.subrange(1, text@.len() as int)[i as int - 1] == cs@[
                        i as int
                    ]);
                } else {
                    assert(text@[i as int] == cs@[i as int]);
                }
            }
            return None;
        }
        let d: u32 = (c as u32) - 48;
        proof {
            let sub = cs@.subrange(start as int, i as int);
            let sub2 = cs@.subrange(start as int, i as int + 1);
            assert(sub2.drop_last() =~= sub);
            assert(sub2.last() == cs@[i as int]);
            assert(all_digits(sub));
            lemma_digits_val_nonneg(sub);
        }
        if acc <= 0xffff_ffffu64 {
            acc = acc * 10 + d as u64;
        }
        i = i + 1;
    }
    proof {
        let mag = cs@.subrange(start as int, n as int);
        if neg {
            assert(mag =~= text@.subrange(1, text@.len() as int));
        } else {
            assert(mag =~= text@);
        }
        lemma_digits_val_nonneg(mag);
    }
    if acc > 0x8000_0000u64 {
        return None;
    }
    if neg {
        if acc == 0x8000_0000u64 {
            Some(i32::MIN)
        } else {
            Some(-(acc as i32))
        }
    } else {
        if acc == 0x8000_0000u64 {
            None
        } else {
            Some(acc as i32)
        }
    }
}

} // verus!
