//! Decimal numbers in text, read as `str::parse` reads them for `usize` and `i64`.

use vstd::prelude::*;
use crate::text::is_digit_char;

verus! {

/// The value of a run of decimal digits.
pub open spec fn digits_value(s: Seq<char>) -> nat
    decreases s.len(),
{
    if s.len() == 0 {
        0
    } else {
        digits_value(s.drop_last()) * 10 + ((s.last() as nat) - 48) as nat
    }
}

/// Every character is an ASCII digit.
pub open spec fn all_digits(s: Seq<char>) -> bool {
    forall|i: int| 0 <= i < s.len() ==> #[trigger] is_digit_char(s[i])
}

/// The value of at least one ASCII digit, when it is at most `limit`.
pub open spec fn digits_upto(digits: Seq<char>, limit: nat) -> Option<nat> {
    if digits.len() > 0 && all_digits(digits) && digits_value(digits) <= limit {
        Some(digits_value(digits))
    } else {
        None
    }
}

/// What `str::parse::<usize>` makes of a text: an optional plus sign and at least one ASCII
/// digit, whose value fits a `usize`; anything else is refused.
pub open spec fn parse_usize(s: Seq<char>) -> Option<nat> {
    if s.len() > 0 && s[0] == '+' {
        digits_upto(s.drop_first(), usize::MAX as nat)
    } else {
        digits_upto(s, usize::MAX as nat)
    }
}

/// What `str::parse::<i64>` makes of a text: an optional sign and at least one ASCII digit,
/// whose signed value fits an `i64`; anything else is refused.
pub open spec fn parse_i64(s: Seq<char>) -> Option<int> {
    if s.len() > 0 && s[0] == '-' {
        match digits_upto(s.drop_first(), 0x8000_0000_0000_0000) {
            Some(v) => Some(-v),
            None => None,
        }
    } else if s.len() > 0 && s[0] == '+' {
        match digits_upto(s.drop_first(), 0x7fff_ffff_ffff_ffff) {
            Some(v) => Some(v as int),
            None => None,
        }
    } else {
        match digits_upto(s, 0x7fff_ffff_ffff_ffff) {
            Some(v) => Some(v as int),
            None => None,
        }
    }
}

proof fn lemma_digits_value_grows(s: Seq<char>, k: int)
    requires
        0 <= k <= s.len(),
        all_digits(s),
    ensures
        digits_value(s.take(k)) <= digits_value(s),
    decreases s.len(),
{
    if k < s.len() {
        assert(s.drop_last().take(k) =~= s.take(k));
        lemma_digits_value_grows(s.drop_last(), k);
    } else {
        assert(s.take(k) =~= s);
    }
}

/// The digits `cs[start..]` read as a number of at most `limit`.
fn digits_from(cs: &Vec<char>, start: usize, limit: u64) -> (r: Option<u64>)
    requires
        start <= cs@.len(),
    ensures
        match digits_upto(cs@.skip(start as int), limit as nat) {
            Some(v) => r == Some(v as u64),
            None => r is None,
        },
{
    let ghost digits = cs@.skip(start as int);
    if start >= cs.len() {
        return None;
    }
    let mut value: u64 = 0;
    let mut i = start;
    while i < cs.len()
        invariant
            start <= i <= cs@.len(),
            start < cs@.len(),
            digits == cs@.skip(start as int),
            all_digits(digits.take(i - start)),
            value == digits_value(digits.take(i - start)),
            value <= limit,
        decreases cs@.len() - i,
    {
        let c = cs[i];
        let ghost k = i - start;
        proof {
            assert(digits.take(k + 1).drop_last() =~= digits.take(k));
            assert(digits[k] == c);
        }
        if !('0' <= c && c <= '9') {
            proof {
                assert(!is_digit_char(digits[k]));
            }
            return None;
        }
        let d = (c as u32 - 48) as u64;
        proof {
            assert(digits_value(digits.take(k + 1)) == value * 10 + d);
        }
        if d > limit || value > (limit - d) / 10 {
            proof {
                if d <= limit {
                    assert(value * 10 + d > limit) by (nonlinear_arith)
                        requires
                            value > (limit - d) / 10,
                            d <= 9,
                    ;
                }
                if all_digits(digits) {
                    lemma_digits_value_grows(digits, k + 1);
                }
            }
            return None;
        }
        proof {
            assert(value * 10 + d <= limit) by (nonlinear_arith)
                requires
                    value <= (limit - d) / 10,
                    d <= limit,
            ;
        }
        value = value * 10 + d;
        i = i + 1;
        proof {
            assert forall|j: int| 0 <= j < i - start implies #[trigger] is_digit_char(digits.take(i - start)[j]) by {
                if j < k {
                    assert(digits.take(i - start)[j] == digits.take(k)[j]);
                }
            }
        }
    }
    proof {
        assert(digits.take(i - start) =~= digits);
    }
    Some(value)
}

/// `str::parse::<usize>` on the characters `cs[from..]`.
pub fn parse_usize_from(cs: &Vec<char>, from: usize) -> (r: Option<usize>)
    requires
        from <= cs@.len(),
    ensures
        match parse_usize(cs@.skip(from as int)) {
            Some(n) => r == Some(n as usize),
            None => r is None,
        },
{
    let ghost s = cs@.skip(from as int);
    let mut start = from;
    if start < cs.len() && cs[start] == '+' {
        start = start + 1;
    }
    proof {
        if from < cs@.len() && cs@[from as int] == '+' {
            assert(cs@.skip(start as int) =~= s.drop_first());
        } else {
            assert(cs@.skip(start as int) =~= s);
        }
    }
    match digits_from(cs, start, usize::MAX as u64) {
        Some(v) => Some(v as usize),
        None => None,
    }
}

/// `str::parse::<i64>` on the characters of a text.
pub fn parse_i64_of(cs: &Vec<char>) -> (r: Option<i64>)
    ensures
        match parse_i64(cs@) {
            Some(n) => r == Some(n as i64),
            None => r is None,
        },
{
    if cs.len() > 0 && cs[0] == '-' {
        proof {
            assert(cs@.skip(1) =~= cs@.drop_first());
        }
        match digits_from(cs, 1, 0x8000_0000_0000_0000u64) {
            Some(v) => if v == 0x8000_0000_0000_0000u64 {
                Some(i64::MIN)
            } else {
                Some(-(v as i64))
            },
            None => None,
        }
    } else if cs.len() > 0 && cs[0] == '+' {
        proof {
            assert(cs@.skip(1) =~= cs@.drop_first());
        }
        match digits_from(cs, 1, 0x7fff_ffff_ffff_ffffu64) {
            Some(v) => Some(v as i64),
            None => None,
        }
    } else {
        proof {
            assert(cs@.skip(0) =~= cs@);
        }
        match digits_from(cs, 0, 0x7fff_ffff_ffff_ffffu64) {
            Some(v) => Some(v as i64),
            None => None,
        }
    }
}

} // verus!
