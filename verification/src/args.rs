//! The arguments of the command line that are numbers.

use crate::assembler::text::chars_of;
use vstd::prelude::*;

verus! {

/// Whether `c` is a decimal digit.
pub open spec fn is_digit(c: char) -> bool {
    '0' <= c && c <= '9'
}

/// The number that the decimal digits `s` write.
pub open spec fn digits_value(s: Seq<char>) -> nat
    decreases s.len(),
{
    if s.len() == 0 {
        0
    } else {
        digits_value(s.drop_last()) * 10 + (s.last() as u32 - '0' as u32) as nat
    }
}

/// `s` without the `+` that it may begin with.
pub open spec fn unsigned_part(s: Seq<char>) -> Seq<char> {
    if s.len() > 0 && s[0] == '+' {
        s.skip(1)
    } else {
        s
    }
}

/// Whether `s` holds decimal digits only.
pub open spec fn all_digits(s: Seq<char>) -> bool {
    forall|i: int| 0 <= i < s.len() ==> is_digit(#[trigger] s[i])
}

/// The number that `s` writes in 32 bits without a sign: decimal digits, at
/// least one, after a `+` at most, that write a number which fits.
pub open spec fn decimal_u32(s: Seq<char>) -> Option<u32> {
    let digits = unsigned_part(s);
    if digits.len() > 0 && all_digits(digits) && digits_value(digits) <= u32::MAX {
        Some(digits_value(digits) as u32)
    } else {
        None
    }
}

/// More digits write no smaller a number.
pub proof fn lemma_digits_grow(s: Seq<char>, n: int)
    requires
        0 <= n <= s.len(),
        forall|i: int| 0 <= i < s.len() ==> is_digit(#[trigger] s[i]),
    ensures
        digits_value(s.take(n)) <= digits_value(s),
    decreases s.len() - n,
{
    if n < s.len() {
        lemma_digits_grow(s, n + 1);
        let longer = s.take(n + 1);
        assert(longer.drop_last() =~= s.take(n));
        assert(is_digit(s[n]));
        assert(longer.last() == s[n]);
    } else {
        assert(s.take(n) =~= s);
    }
}

/// Reads the size of a codel: a positive number.
pub fn parse_codel_size(arg: &str) -> (r: Result<u32, String>)
    ensures
        match r {
            Ok(size) => decimal_u32(arg@) == Some(size) && size > 0,
            Err(e) => match decimal_u32(arg@) {
                None => e@ == "codel-size must be an integer"@,
                Some(size) => size == 0 && e@ == "codel-size must be non-zero"@,
            },
        },
{
    let chars = chars_of(arg);
    let start: usize = if chars.len() > 0 && chars[0] == '+' {
        1
    } else {
        0
    };
    let ghost digits = chars@.skip(start as int);
    assert(chars@.skip(0) =~= chars@);
    if chars.len() == start {
        return Err("codel-size must be an integer".to_owned());
    }
    let mut value: u64 = 0;
    let mut i: usize = start;
    assert(digits.take(0) =~= Seq::<char>::empty());
    while i < chars.len()
        invariant
            start <= i <= chars@.len(),
            chars@ == arg@,
            chars@.len() > start,
            start == if arg@.len() > 0 && arg@[0] == '+' {
                1int
            } else {
                0int
            },
            digits == chars@.skip(start as int),
            digits == unsigned_part(arg@),
            forall|k: int| 0 <= k < i - start ==> is_digit(#[trigger] digits[k]),
            value == digits_value(digits.take(i - start)),
            value <= u32::MAX,
        decreases chars.len() - i,
    {
        let c = chars[i];
        assert(digits[i - start] == c);
        if !('0' <= c && c <= '9') {
            assert(!is_digit(digits[i - start]));
            assert(0 <= i - start < digits.len());
            assert(!all_digits(digits));
            assert(decimal_u32(arg@).is_none());
            return Err("codel-size must be an integer".to_owned());
        }
        let digit: u64 = (c as u32 - '0' as u32) as u64;
        let next = value * 10 + digit;
        proof {
            let longer = digits.take(i - start + 1);
            assert(longer.drop_last() =~= digits.take(i - start));
            assert(longer.last() == c);
            assert(next == digits_value(longer));
        }
        if next > u32::MAX as u64 {
            proof {
                if all_digits(digits) {
                    lemma_digits_grow(digits, i - start + 1);
                    assert(digits_value(digits) > u32::MAX);
                }
                assert(decimal_u32(arg@).is_none());
            }
            return Err("codel-size must be an integer".to_owned());
        }
        value = next;
        i += 1;
    }
    assert(digits.take(digits.len() as int) =~= digits);
    if value == 0 {
        return Err("codel-size must be non-zero".to_owned());
    }
    Ok(value as u32)
}

} // verus!
