//! Decimal integers read from text, as `str::parse` reads them.
use vstd::prelude::*;

verus! {

/// Whether `c` is one of '0'..='9'.
pub open spec fn is_digit(c: char) -> bool {
    '0' <= c && c <= '9'
}

/// The value of the digit `c`.
pub open spec fn digit_value(c: char) -> int {
    c as int - '0' as int
}

/// Whether every character of `s` is a digit.
pub open spec fn all_digits(s: Seq<char>) -> bool {
    forall|i: int| 0 <= i < s.len() ==> is_digit(#[trigger] s[i])
}

/// The value of a string of digits, read in base ten.
pub open spec fn digits_value(s: Seq<char>) -> int
    decreases s.len(),
{
    if s.len() == 0 {
        0
    } else {
        digits_value(s.drop_last()) * 10 + digit_value(s.last())
    }
}

/// The value of `s` read as an unsigned decimal: an optional '+' and at
/// least one digit.
pub open spec fn unsigned_value(s: Seq<char>) -> Option<int> {
    let body = if s.len() > 0 && s[0] == '+' { s.skip(1) } else { s };
    if body.len() > 0 && all_digits(body) {
        Some(digits_value(body))
    } else {
        None
    }
}

/// The value of `s` read as a signed decimal: an optional '+' or '-' and at
/// least one digit.
pub open spec fn signed_value(s: Seq<char>) -> Option<int> {
    if s.len() > 0 && s[0] == '-' {
        let body = s.skip(1);
        if body.len() > 0 && all_digits(body) {
            Some(-digits_value(body))
        } else {
            None
        }
    } else {
        unsigned_value(s)
    }
}

/// What `str::parse::<u64>` gives: the value, where it fits.
pub open spec fn parse_u64_spec(s: Seq<char>) -> Option<u64> {
    match unsigned_value(s) {
        Some(v) => if v <= u64::MAX { Some(v as u64) } else { None },
        None => None,
    }
}

/// What `str::parse::<u32>` gives: the value, where it fits.
pub open spec fn parse_u32_spec(s: Seq<char>) -> Option<u32> {
    match unsigned_value(s) {
        Some(v) => if v <= u32::MAX { Some(v as u32) } else { None },
        None => None,
    }
}

/// What `str::parse::<i32>` gives: the value, where it fits.
pub open spec fn parse_i32_spec(s: Seq<char>) -> Option<i32> {
    match signed_value(s) {
        Some(v) => if i32::MIN <= v <= i32::MAX { Some(v as i32) } else { None },
        None => None,
    }
}

/// A digit string's value is never below that of its prefixes.
pub proof fn lemma_digits_value_monotone(s: Seq<char>, i: int, j: int)
    requires
        0 <= i <= j <= s.len(),
        all_digits(s),
    ensures
        0 <= digits_value(s.take(i)) <= digits_value(s.take(j)),
    decreases j - i,
{
    if i < j {
        lemma_digits_value_monotone(s, i, j - 1);
        assert(s.take(j).drop_last() == s.take(j - 1));
        assert(is_digit(s[j - 1]));
    } else {
        lemma_digits_value_nonneg(s.take(i));
    }
}

/// A digit string's value is not negative.
pub proof fn lemma_digits_value_nonneg(s: Seq<char>)
    requires
        all_digits(s),
    ensures
        digits_value(s) >= 0,
    decreases s.len(),
{
    if s.len() > 0 {
        assert(all_digits(s.drop_last())) by {
            assert forall|k: int| 0 <= k < s.drop_last().len() implies is_digit(#[trigger] s.drop_last()[k]) by {
                assert(s.drop_last()[k] == s[k]);
            }
        }
        lemma_digits_value_nonneg(s.drop_last());
        assert(is_digit(s[s.len() - 1]));
    }
}

/// Reads the digits `v[from..]` as a number no larger than `max`: `None`
/// when one of them is not a digit, there is none, or the value is larger.
fn digits_upto(v: &[char], from: usize, max: u64) -> (r: Option<u64>)
    requires
        from <= v@.len(),
        max >= 9,
    ensures
        match r {
            Some(n) => {
                let body = v@.skip(from as int);
                &&& body.len() > 0
                &&& all_digits(body)
                &&& n == digits_value(body)
                &&& n <= max
            },
            None => {
                let body = v@.skip(from as int);
                !(body.len() > 0 && all_digits(body) && digits_value(body) <= max)
            },
        },
{
    let ghost body = v@.skip(from as int);
    if from >= v.len() {
        return None;
    }
    let mut acc: u64 = 0;
    let mut i: usize = from;
    assert(body.take(0) =~= Seq::<char>::empty());
    while i < v.len()
        invariant
            from <= i <= v@.len(),
            body == v@.skip(from as int),
            forall|k: int| 0 <= k < i - from ==> is_digit(#[trigger] body[k]),
            acc == digits_value(body.take(i - from)),
            acc <= max,
            max >= 9,
        decreases v.len() - i,
    {
        let c = v[i];
        if !('0' <= c && c <= '9') {
            assert(!is_digit(body[i - from]));
            return None;
        }
        let d = (c as u64) - ('0' as u64);
        assert(body.take(i - from + 1).drop_last() =~= body.take(i - from));
        assert(body[i - from] == c);
        if acc > (max - d) / 10 {
            proof {
                assert(digits_value(body.take(i - from + 1)) == acc * 10 + d);
                assert(acc * 10 + d > max) by (nonlinear_arith)
                    requires
                        acc > (max - d) / 10,
                        d <= 9,
                        d <= max,
                ;
                if all_digits(body) {
                    lemma_digits_value_monotone(body, i - from + 1, body.len() as int);
                    assert(body.take(body.len() as int) =~= body);
                }
            }
            return None;
        }
        proof {
            assert(acc * 10 + d <= max) by (nonlinear_arith)
                requires
                    acc <= (max - d) / 10,
                    d <= max,
            ;
        }
        acc = acc * 10 + d;
        i = i + 1;
    }
    assert(body.take(i - from) =~= body);
    Some(acc)
}

/// `str::parse::<u64>` on the characters `v`.
pub fn parse_u64(v: &[char]) -> (r: Option<u64>)
    ensures
        r == parse_u64_spec(v@),
{
    let from: usize = if v.len() > 0 && v[0] == '+' { 1 } else { 0 };
    assert(v@.skip(0) =~= v@);
    digits_upto(v, from, u64::MAX)
}

/// `str::parse::<u32>` on the characters `v`.
pub fn parse_u32(v: &[char]) -> (r: Option<u32>)
    ensures
        r == parse_u32_spec(v@),
{
    let from: usize = if v.len() > 0 && v[0] == '+' { 1 } else { 0 };
    assert(v@.skip(0) =~= v@);
    match digits_upto(v, from, 0xffff_ffff) {
        Some(n) => Some(n as u32),
        None => None,
    }
}

/// `str::parse::<i32>` on the characters `v`.
pub fn parse_i32(v: &[char]) -> (r: Option<i32>)
    ensures
        r == parse_i32_spec(v@),
{
    if v.len() > 0 && v[0] == '-' {
        match digits_upto(v, 1, 0x8000_0000) {
            Some(n) => {
                let m = n as i64;
                Some((0 - m) as i32)
            },
            None => None,
        }
    } else {
        let from: usize = if v.len() > 0 && v[0] == '+' { 1 } else { 0 };
        assert(v@.skip(0) =~= v@);
        match digits_upto(v, from, 0x7fff_ffff) {
            Some(n) => Some(n as i32),
            None => None,
        }
    }
}

} // verus!
