//! Integers written as decimal text.

use vstd::prelude::*;

verus! {

/// Whether `b` is an ASCII digit.
pub open spec fn is_digit(b: u8) -> bool {
    0x30 <= b <= 0x39
}

/// Whether `s` is one or more ASCII digits.
pub open spec fn all_digits(s: Seq<u8>) -> bool {
    &&& s.len() > 0
    &&& forall|i: int| 0 <= i < s.len() ==> is_digit(#[trigger] s[i])
}

/// The number that the digits `s` spell.
pub open spec fn digits_value(s: Seq<u8>) -> int
    decreases s.len(),
{
    if s.len() == 0 {
        0
    } else {
        10 * digits_value(s.drop_last()) + (s.last() - 0x30)
    }
}

/// Whether `s` opens with a minus sign.
pub open spec fn is_negative(s: Seq<u8>) -> bool {
    s.len() > 0 && s[0] == 0x2d
}

/// The digits of `s`: all of it but a leading `+` or `-`.
pub open spec fn magnitude(s: Seq<u8>) -> Seq<u8> {
    if s.len() > 0 && (s[0] == 0x2d || s[0] == 0x2b) {
        s.skip(1)
    } else {
        s
    }
}

/// The integer that `s` spells in decimal, if it spells one between `lo` and
/// `hi`: an optional sign, then one or more digits, and nothing else.
pub open spec fn decimal(s: Seq<u8>, lo: int, hi: int) -> Option<int> {
    let v = if is_negative(s) {
        -digits_value(magnitude(s))
    } else {
        digits_value(magnitude(s))
    };
    if all_digits(magnitude(s)) && lo <= v <= hi {
        Some(v)
    } else {
        None
    }
}

/// Digits spell a number that no prefix of them exceeds.
pub proof fn lemma_digits_value_grows(s: Seq<u8>, k: int)
    requires
        0 <= k <= s.len(),
        forall|i: int| 0 <= i < s.len() ==> is_digit(#[trigger] s[i]),
    ensures
        0 <= digits_value(s.take(k)) <= digits_value(s),
    decreases s.len() - k,
{
    if k == s.len() {
        assert(s.take(k) =~= s);
        lemma_digits_value_nonnegative(s);
    } else {
        lemma_digits_value_grows(s.drop_last(), k);
        assert(s.drop_last().take(k) =~= s.take(k));
        assert(is_digit(s[s.len() - 1]));
    }
}

/// Digits spell a number that is not negative.
pub proof fn lemma_digits_value_nonnegative(s: Seq<u8>)
    requires
        forall|i: int| 0 <= i < s.len() ==> is_digit(#[trigger] s[i]),
    ensures
        0 <= digits_value(s),
    decreases s.len(),
{
    if s.len() > 0 {
        lemma_digits_value_nonnegative(s.drop_last());
        assert(is_digit(s[s.len() - 1]));
    }
}

/// Reads a decimal integer between `lo` and `hi`.
fn parse_between(s: &[u8], lo: i64, hi: i64) -> (r: Option<i64>)
    requires
        lo <= 0 <= hi,
    ensures
        match r {
            Some(v) => decimal(s@, lo as int, hi as int) == Some(v as int),
            None => decimal(s@, lo as int, hi as int) is None,
        },
{
    let n = s.len();
    if n == 0 {
        return None;
    }
    let negative = s[0] == 0x2d;
    let start: usize = if s[0] == 0x2d || s[0] == 0x2b {
        1
    } else {
        0
    };
    if start == n {
        return None;
    }
    let limit: i128 = if negative {
        -(lo as i128)
    } else {
        hi as i128
    };
    let ghost body = magnitude(s@);
    assert(body =~= s@.skip(start as int));
    let mut acc: i128 = 0;
    let mut i: usize = start;
    while i < n
        invariant
            start <= i <= n,
            n == s.len(),
            body == magnitude(s@),
            body == s@.skip(start as int),
            negative == is_negative(s@),
            limit == if negative { -(lo as int) } else { hi as int },
            0 <= acc <= limit,
            0 <= limit <= 0x8000_0000_0000_0000,
            acc == digits_value(body.take(i - start)),
            forall|k: int| 0 <= k < i - start ==> is_digit(#[trigger] body[k]),
        decreases n - i,
    {
        let b = s[i];
        if b < 0x30 || b > 0x39 {
            assert(!is_digit(body[i - start]));
            return None;
        }
        let next: i128 = acc * 10 + (b - 0x30) as i128;
        proof {
            let grown = body.take(i + 1 - start);
            assert(grown.drop_last() =~= body.take(i - start));
            assert(grown.last() == b);
            assert(next == digits_value(grown));
        }
        if next > limit {
            proof {
                if all_digits(body) {
                    lemma_digits_value_grows(body, i + 1 - start);
                }
            }
            return None;
        }
        acc = next;
        i += 1;
    }
    assert(body.take(n - start) =~= body);
    if negative {
        Some((-acc) as i64)
    } else {
        Some(acc as i64)
    }
}

/// Reads a signed 64-bit integer from its decimal text.
pub fn parse_i64(s: &[u8]) -> (r: Option<i64>)
    ensures
        match r {
            Some(v) => decimal(s@, i64::MIN as int, i64::MAX as int) == Some(v as int),
            None => decimal(s@, i64::MIN as int, i64::MAX as int) is None,
        },
{
    parse_between(s, i64::MIN, i64::MAX)
}

/// Reads a signed 32-bit integer from its decimal text.
pub fn parse_i32(s: &[u8]) -> (r: Option<i32>)
    ensures
        match r {
            Some(v) => decimal(s@, i32::MIN as int, i32::MAX as int) == Some(v as int),
            None => decimal(s@, i32::MIN as int, i32::MAX as int) is None,
        },
{
    match parse_between(s, i32::MIN as i64, i32::MAX as i64) {
        Some(v) => Some(v as i32),
        None => None,
    }
}

} // verus!
