//! Decimal integer parsing with exact validity and value specifications.

use vstd::prelude::*;

verus! {

/// Whether `c` is a decimal digit.
pub open spec fn is_digit(c: char) -> bool {
    '0' <= c && c <= '9'
}

/// The numeric value of the digit `c`.
pub open spec fn digit_val(c: char) -> int {
    c as int - '0' as int
}

/// Whether every character of `s` is a decimal digit.
pub open spec fn all_digits(s: Seq<char>) -> bool {
    forall|i: int| 0 <= i < s.len() ==> is_digit(#[trigger] s[i])
}

/// The value of `s` read as a string of decimal digits (most significant
/// first); meaningful when `all_digits(s)`.
pub open spec fn digits_val(s: Seq<char>) -> int
    decreases s.len(),
{
    if s.len() == 0 {
        0
    } else {
        digits_val(s.drop_last()) * 10 + digit_val(s.last())
    }
}

/// Whether `s` has the shape of a decimal signed integer: an optional `+` or
/// `-` sign followed by at least one digit, nothing else.
pub open spec fn int_shape(s: Seq<char>) -> bool {
    if s.len() == 0 {
        false
    } else if s[0] == '+' || s[0] == '-' {
        s.len() >= 2 && all_digits(s.skip(1))
    } else {
        all_digits(s)
    }
}

/// The value of a shaped signed integer string.
pub open spec fn int_value(s: Seq<char>) -> int {
    if s.len() > 0 && s[0] == '-' {
        -digits_val(s.skip(1))
    } else if s.len() > 0 && s[0] == '+' {
        digits_val(s.skip(1))
    } else {
        digits_val(s)
    }
}

/// Whether `s` has the shape of a decimal unsigned integer: an optional `+`
/// sign followed by at least one digit, nothing else.
pub open spec fn uint_shape(s: Seq<char>) -> bool {
    if s.len() == 0 {
        false
    } else if s[0] == '+' {
        s.len() >= 2 && all_digits(s.skip(1))
    } else {
        all_digits(s)
    }
}

/// The value of a shaped unsigned integer string.
pub open spec fn uint_value(s: Seq<char>) -> int {
    if s.len() > 0 && s[0] == '+' {
        digits_val(s.skip(1))
    } else {
        digits_val(s)
    }
}

/// Whether `s` denotes a value representable as `isize`.
pub open spec fn valid_isize(s: Seq<char>) -> bool {
    int_shape(s) && isize::MIN <= int_value(s) <= isize::MAX
}

/// Whether `s` denotes a value representable as `usize`.
pub open spec fn valid_usize(s: Seq<char>) -> bool {
    uint_shape(s) && 0 <= uint_value(s) <= usize::MAX
}

/// The value of an all-digit string is non-negative.
pub proof fn lemma_digits_val_nonneg(s: Seq<char>)
    requires
        all_digits(s),
    ensures
        digits_val(s) >= 0,
    decreases s.len(),
{
    if s.len() > 0 {
        assert(all_digits(s.drop_last()));
        lemma_digits_val_nonneg(s.drop_last());
    }
}

/// Reading further digits never decreases the value: the value of a prefix
/// bounds the value of the whole string from below.
pub proof fn lemma_digits_val_prefix(s: Seq<char>, k: int)
    requires
        all_digits(s),
        0 <= k <= s.len(),
    ensures
        digits_val(s.take(k)) <= digits_val(s),
    decreases s.len() - k,
{
    if k < s.len() {
        assert(all_digits(s.take(k + 1)));
        lemma_digits_val_nonneg(s.take(k + 1));
        assert(s.take(k + 1).drop_last() =~= s.take(k));
        assert(digits_val(s.take(k + 1)) == digits_val(s.take(k)) * 10 + digit_val(s[k]));
        lemma_digits_val_nonneg(s.take(k));
        lemma_digits_val_prefix(s, k + 1);
    } else {
        assert(s.take(k) =~= s);
    }
}

/// Parses the digit run `s@[start..]` as a magnitude, returning its value if
/// every remaining character is a digit and the value is at most `limit`.
///
/// `Err` means exactly: either some character of `s@.skip(start as int)` is
/// not a digit, or the run is all digits with value above `limit`.
fn parse_magnitude(s: &str, start: usize, limit: u128) -> (r: Result<u128, ()>)
    requires
        start <= s@.len(),
        limit <= isize::MAX as u128 + 1 || limit == usize::MAX as u128,
    ensures
        match r {
            Ok(v) => all_digits(s@.skip(start as int)) && v == digits_val(s@.skip(start as int))
                && v <= limit,
            Err(()) => !(all_digits(s@.skip(start as int)) && digits_val(
                s@.skip(start as int),
            ) <= limit),
        },
{
    let n = s.unicode_len();
    let mut mag: u128 = 0;
    let mut i: usize = start;
    while i < n
        invariant
            start <= i <= n,
            n == s@.len(),
            limit <= isize::MAX as u128 + 1 || limit == usize::MAX as u128,
            all_digits(s@.subrange(start as int, i as int)),
            mag == digits_val(s@.subrange(start as int, i as int)),
            mag <= limit,
        decreases n - i,
    {
        let c = s.get_char(i);
        if !(c >= '0' && c <= '9') {
            assert(s@.skip(start as int)[i - start] == s@[i as int]);
            return Err(());
        }
        let d: u128 = (c as u32 - '0' as u32) as u128;
        let next: u128 = mag * 10 + d;
        proof {
            let ext = s@.subrange(start as int, i + 1);
            assert(ext.drop_last() =~= s@.subrange(start as int, i as int));
            assert(ext.last() == s@[i as int]);
            assert(digit_val(s@[i as int]) == d);
            assert(digits_val(ext) == mag * 10 + d);
            assert(all_digits(ext));
        }
        if next > limit {
            proof {
                let rest = s@.skip(start as int);
                if all_digits(rest) {
                    lemma_digits_val_prefix(rest, i + 1 - start);
                    assert(rest.take(i + 1 - start) =~= s@.subrange(start as int, i + 1));
                    assert(digits_val(s@.subrange(start as int, i + 1)) == next);
                    assert(digits_val(rest) >= next);
                }
            }
            return Err(());
        }
        mag = next;
        i = i + 1;
    }
    proof {
        assert(s@.subrange(start as int, n as int) =~= s@.skip(start as int));
    }
    Ok(mag)
}

/// Parses `s` as a decimal `isize`: an optional `+` or `-` sign followed by
/// one or more digits, denoting a value in the `isize` range.
///
/// Returns `Ok(v)` with `v` the denoted value exactly when `valid_isize(s@)`
/// holds, and `Err(())` otherwise (wrong shape, or value out of range).
pub fn parse_isize(s: &str) -> (r: Result<isize, ()>)
    ensures
        match r {
            Ok(v) => valid_isize(s@) && v as int == int_value(s@),
            Err(()) => !valid_isize(s@),
        },
{
    let n = s.unicode_len();
    if n == 0 {
        return Err(());
    }
    let c0 = s.get_char(0);
    let neg = c0 == '-';
    let has_sign = neg || c0 == '+';
    let start: usize = if has_sign {
        1
    } else {
        0
    };
    if start >= n {
        // a sign with no digits after it
        return Err(());
    }
    let limit: u128 = if neg {
        isize::MAX as u128 + 1
    } else {
        isize::MAX as u128
    };
    proof {
        if has_sign {
            assert(s@.skip(1) =~= s@.skip(start as int));
        } else {
            assert(s@.skip(0) =~= s@);
        }
    }
    match parse_magnitude(s, start, limit) {
        Err(()) => {
            proof {
                if int_shape(s@) {
                    lemma_digits_val_nonneg(s@.skip(start as int));
                }
            }
            Err(())
        },
        Ok(mag) => {
            proof {
                lemma_digits_val_nonneg(s@.skip(start as int));
            }
            if neg {
                if mag == isize::MAX as u128 + 1 {
                    Ok(isize::MIN)
                } else {
                    Ok(-(mag as isize))
                }
            } else {
                Ok(mag as isize)
            }
        },
    }
}

/// Parses `s` as a decimal `usize`: an optional `+` sign followed by one or
/// more digits, denoting a value in the `usize` range.
///
/// Returns `Ok(v)` with `v` the denoted value exactly when `valid_usize(s@)`
/// holds, and `Err(())` otherwise.
pub fn parse_usize(s: &str) -> (r: Result<usize, ()>)
    ensures
        match r {
            Ok(v) => valid_usize(s@) && v as int == uint_value(s@),
            Err(()) => !valid_usize(s@),
        },
{
    let n = s.unicode_len();
    if n == 0 {
        return Err(());
    }
    let c0 = s.get_char(0);
    let has_sign = c0 == '+';
    let start: usize = if has_sign {
        1
    } else {
        0
    };
    if start >= n {
        return Err(());
    }
    proof {
        if has_sign {
            assert(s@.skip(1) =~= s@.skip(start as int));
        } else {
            assert(s@.skip(0) =~= s@);
        }
    }
    match parse_magnitude(s, start, usize::MAX as u128) {
        Err(()) => Err(()),
        Ok(mag) => {
            proof {
                lemma_digits_val_nonneg(s@.skip(start as int));
            }
            Ok(mag as usize)
        },
    }
}

} // verus!
