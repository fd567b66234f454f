//! Parsing a signed decimal column number from a string: an optional `+` or
//! `-` sign followed by at least one ASCII digit, with nothing else, and a
//! value that fits the signed 64-bit range.

use vstd::prelude::*;

verus! {

/// Whether `c` is an ASCII decimal digit.
pub open spec fn is_digit(c: char) -> bool {
    48 <= c as u32 && c as u32 <= 57
}

/// The numeric value of an ASCII decimal digit.
pub open spec fn digit_val(c: char) -> int {
    c as u32 - 48
}

/// The value of a digit string read in base ten.
pub open spec fn digits_val(s: Seq<char>) -> int
    decreases s.len(),
{
    if s.len() == 0 {
        0
    } else {
        digits_val(s.drop_last()) * 10 + digit_val(s.last())
    }
}

pub open spec fn all_digits(s: Seq<char>) -> bool {
    forall|t: int| 0 <= t < s.len() ==> is_digit(#[trigger] s[t])
}

/// Whether `s` is a well-formed signed decimal integer: an optional sign,
/// then one or more digits, and nothing else.
pub open spec fn int_shape(s: Seq<char>) -> bool {
    if s.len() == 0 {
        false
    } else if s[0] == '+' || s[0] == '-' {
        s.len() > 1 && all_digits(s.skip(1))
    } else {
        all_digits(s)
    }
}

/// The signed value `s` denotes, for a well-formed `s`.
pub open spec fn int_value(s: Seq<char>) -> int {
    if s.len() > 0 && s[0] == '-' {
        -digits_val(s.skip(1))
    } else if s.len() > 0 && s[0] == '+' {
        digits_val(s.skip(1))
    } else {
        digits_val(s)
    }
}

/// What parsing `s` as a signed 64-bit integer yields: its value when `s` is
/// well-formed and the value fits, nothing otherwise.
pub open spec fn spec_parse_i64(s: Seq<char>) -> Option<i64> {
    if int_shape(s) && i64::MIN <= int_value(s) <= i64::MAX {
        Option::Some(int_value(s) as i64)
    } else {
        Option::None
    }
}

/// The value of a digit string is never negative.
proof fn lemma_digits_val_nonneg(s: Seq<char>)
    requires
        all_digits(s),
    ensures
        digits_val(s) >= 0,
    decreases s.len(),
{
    if s.len() > 0 {
        assert(all_digits(s.drop_last()));
        lemma_digits_val_nonneg(s.drop_last());
    }
}

/// Reading more digits never shrinks the value: the value of a prefix is at
/// most the value of the whole digit string.
proof fn lemma_digits_val_prefix(s: Seq<char>, j: int)
    requires
        all_digits(s),
        0 <= j <= s.len(),
    ensures
        digits_val(s.take(j)) <= digits_val(s),
    decreases s.len() - j,
{
    if j == s.len() {
        assert(s.take(j) =~= s);
    } else {
        lemma_digits_val_prefix(s, j + 1);
        let p = s.take(j + 1);
        assert(p.drop_last() =~= s.take(j));
        assert(all_digits(s.take(j)));
        lemma_digits_val_nonneg(s.take(j));
        assert(digits_val(p) == digits_val(s.take(j)) * 10 + digit_val(s[j]));
        assert(digits_val(s.take(j)) * 10 >= digits_val(s.take(j)));
    }
}

/// Parse `s` as a signed decimal 64-bit integer: an optional sign, one or
/// more digits, nothing else, rejecting values outside the 64-bit range.
pub fn parse_i64(s: &str) -> (r: Option<i64>)
    ensures
        r == spec_parse_i64(s@),
{
    let n = s.unicode_len();
    if n == 0 {
        return Option::None;
    }
    let c0 = s.get_char(0);
    let neg = c0 == '-';
    let has_sign = neg || c0 == '+';
    let start: usize = if has_sign {
        1
    } else {
        0
    };
    if start >= n {
        return Option::None;
    }
    let ghost body = s@.skip(start as int);
    let bound: u64 = if neg {
        9223372036854775808
    } else {
        9223372036854775807
    };
    let mut mag: u64 = 0;
    let mut k: usize = start;
    while k < n
        invariant
            n == s@.len(),
            body == s@.skip(start as int),
            start <= k <= n,
            start <= 1,
            start < n,
            neg == (s@[0] == '-'),
            has_sign == (s@[0] == '-' || s@[0] == '+'),
            has_sign ==> start == 1,
            !has_sign ==> start == 0,
            bound == if neg {
                9223372036854775808u64
            } else {
                9223372036854775807u64
            },
            all_digits(body.take(k - start)),
            mag == digits_val(body.take(k - start)),
            mag <= bound,
        decreases n - k,
    {
        let c = s.get_char(k);
        let cv = c as u32;
        proof {
            assert(body[k - start] == s@[k as int]);
        }
        if cv < 48 || cv > 57 {
            proof {
                assert(!is_digit(s@[k as int]));
                assert(!all_digits(body));
                if !has_sign {
                    assert(body =~= s@);
                }
                assert(!int_shape(s@));
            }
            return Option::None;
        }
        let d: u64 = (cv - 48) as u64;
        let ghost p = body.take(k + 1 - start);
        proof {
            assert(p.drop_last() =~= body.take(k - start));
            assert(p.last() == s@[k as int]);
            assert(all_digits(p));
            assert(digits_val(p) == mag * 10 + d);
        }
        if mag > (bound - d) / 10 {
            proof {
                lemma_digits_val_nonneg(body.take(k - start));
                assert(mag * 10 + d > bound) by (nonlinear_arith)
                    requires
                        mag > (bound - d) / 10,
                        0 <= d <= 9,
                        bound >= 9,
                        mag >= 0,
                ;
                if !has_sign {
                    assert(body =~= s@);
                }
                if int_shape(s@) {
                    assert(all_digits(body));
                    lemma_digits_val_prefix(body, k + 1 - start);
                    assert(digits_val(body) >= digits_val(p));
                    if neg {
                        assert(int_value(s@) == -digits_val(body));
                        assert(int_value(s@) < i64::MIN);
                    } else {
                        assert(int_value(s@) == digits_val(body));
                        assert(int_value(s@) > i64::MAX);
                    }
                }
            }
            return Option::None;
        }
        proof {
            assert(mag * 10 + d <= bound) by (nonlinear_arith)
                requires
                    mag <= (bound - d) / 10,
                    0 <= d <= 9,
                    9 <= bound,
                    mag >= 0,
            ;
        }
        mag = mag * 10 + d;
        k = k + 1;
    }
    proof {
        assert(body.take(n - start) =~= body);
        assert(all_digits(body));
        assert(mag == digits_val(body));
        if !has_sign {
            assert(body =~= s@);
        }
        assert(int_shape(s@));
        if neg {
            assert(int_value(s@) == -digits_val(body));
        } else {
            assert(int_value(s@) == digits_val(body));
        }
    }
    if neg {
        if mag == 9223372036854775808 {
            Option::Some(i64::MIN)
        } else {
            Option::Some(-(mag as i64))
        }
    } else {
        Option::Some(mag as i64)
    }
}

} // verus!
