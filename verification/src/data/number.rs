//! Integers written in decimal.

use crate::text::chars_of;
use vstd::prelude::*;

verus! {

/// Whether the character is one of the digits `0` to `9`.
pub open spec fn is_digit(c: char) -> bool {
    48 <= c as u32 <= 57
}

/// Whether the text is made of digits alone.
pub open spec fn all_digits(s: Seq<char>) -> bool {
    forall|i: int| 0 <= i < s.len() ==> is_digit(#[trigger] s[i])
}

/// The number that the digits of `s` write in decimal.
pub open spec fn digits_value(s: Seq<char>) -> int
    decreases s.len(),
{
    if s.len() == 0 {
        0
    } else {
        digits_value(s.drop_last()) * 10 + (s.last() as u32 - 48)
    }
}

/// The integer that a text writes: an optional sign, a `-` only where
/// `signed` is set, followed by at least one digit and nothing else.
pub open spec fn integer_of_text(s: Seq<char>, signed: bool) -> Option<int> {
    if s.len() == 0 {
        None
    } else if s[0] == '+' {
        if s.len() > 1 && all_digits(s.skip(1)) {
            Some(digits_value(s.skip(1)))
        } else {
            None
        }
    } else if s[0] == '-' && signed {
        if s.len() > 1 && all_digits(s.skip(1)) {
            Some(-digits_value(s.skip(1)))
        } else {
            None
        }
    } else if all_digits(s) {
        Some(digits_value(s))
    } else {
        None
    }
}

/// The integer that a text writes, where it lies between `min` and `max`.
pub open spec fn integer_in_range(s: Seq<char>, signed: bool, min: int, max: int) -> Option<int> {
    match integer_of_text(s, signed) {
        Some(v) => if min <= v <= max {
            Some(v)
        } else {
            None
        },
        None => None,
    }
}

/// More digits never write a smaller number.
proof fn lemma_digits_grow(s: Seq<char>, k: int)
    requires
        0 <= k <= s.len(),
        all_digits(s),
    ensures
        0 <= digits_value(s.take(k)) <= digits_value(s),
    decreases s.len() - k,
{
    if k < s.len() {
        lemma_digits_grow(s, k + 1);
        assert(s.take(k + 1).drop_last() == s.take(k));
        assert(is_digit(s[k]));
        lemma_digits_nonnegative(s.take(k));
    } else {
        assert(s.take(k) == s);
        lemma_digits_nonnegative(s);
    }
}

proof fn lemma_digits_nonnegative(s: Seq<char>)
    ensures
        0 <= digits_value(s) || !all_digits(s),
    decreases s.len(),
{
    if s.len() > 0 && all_digits(s) {
        assert(is_digit(s[s.len() - 1]));
        assert(all_digits(s.drop_last())) by {
            assert forall|i: int| 0 <= i < s.drop_last().len() implies is_digit(
                #[trigger] s.drop_last()[i],
            ) by {
                assert(is_digit(s[i]));
            }
        }
        lemma_digits_nonnegative(s.drop_last());
    }
}

/// The largest magnitude that `parse_integer` is asked for.
pub const MAGNITUDE_LIMIT: i128 = 0x1_0000_0000_0000_0000;

/// Reads an integer written in decimal that lies between `min` and `max`.
pub fn parse_integer(s: &str, signed: bool, min: i128, max: i128) -> (r: Option<i128>)
    requires
        -MAGNITUDE_LIMIT <= min,
        max <= MAGNITUDE_LIMIT,
    ensures
        r matches Some(v) ==> integer_in_range(s@, signed, min as int, max as int) == Some(
            v as int,
        ),
        r is None ==> integer_in_range(s@, signed, min as int, max as int) is None,
{
    let v = chars_of(s);
    if v.len() == 0 {
        return None;
    }
    let negative = v[0] == '-' && signed;
    let start: usize = if v[0] == '+' || negative {
        1
    } else {
        0
    };
    if start == v.len() {
        return None;
    }
    let ghost digits = v@.skip(start as int);
    let mut acc: i128 = 0;
    let mut i: usize = start;
    assert(digits.take(0) == Seq::<char>::empty());
    while i < v.len()
        invariant
            start <= i <= v.len(),
            v@ == s@,
            v.len() > 0,
            negative == (v@[0] == '-' && signed),
            start == (if v@[0] == '+' || negative {
                1usize
            } else {
                0usize
            }),
            -MAGNITUDE_LIMIT <= min,
            max <= MAGNITUDE_LIMIT,
            digits == v@.skip(start as int),
            all_digits(digits.take(i - start)),
            acc == digits_value(digits.take(i - start)),
            0 <= acc <= MAGNITUDE_LIMIT,
        decreases v.len() - i,
    {
        let d = v[i] as u32;
        proof {
            assert(digits.take(i - start + 1).drop_last() == digits.take(i - start));
            assert(digits.take(i - start + 1).last() == v@[i as int]);
        }
        if d < 48 || d > 57 {
            proof {
                assert(!is_digit(digits[i - start]));
                assert(!all_digits(digits));
                if start == 0 {
                    assert(digits == v@);
                }
            }
            return None;
        }
        acc = acc * 10 + (d - 48) as i128;
        proof {
            assert forall|j: int| 0 <= j < digits.take(i - start + 1).len() implies is_digit(
                #[trigger] digits.take(i - start + 1)[j],
            ) by {
                if j < i - start {
                    assert(is_digit(digits.take(i - start)[j]));
                }
            }
        }
        if acc > MAGNITUDE_LIMIT {
            proof {
                if all_digits(digits) {
                    lemma_digits_grow(digits, i - start + 1);
                }
                if start == 0 {
                    assert(digits == v@);
                }
            }
            return None;
        }
        i += 1;
    }
    proof {
        assert(digits.take(v.len() - start) == digits);
        if start == 0 {
            assert(digits == v@);
        }
    }
    let value = if negative {
        -acc
    } else {
        acc
    };
    if min <= value && value <= max {
        Some(value)
    } else {
        None
    }
}

} // verus!
