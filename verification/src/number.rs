//! Numeric literals: base-10 integers, and the spelling of floating-point numbers.
use crate::text::{is_digit, lemma_run_end, run_end, skip, CharClass};
use vstd::prelude::*;

verus! {

/// Every character of `s` is a decimal digit.
pub open spec fn all_digits(s: Seq<char>) -> bool {
    forall|i: int| 0 <= i < s.len() ==> is_digit(#[trigger] s[i])
}

/// The number that a digit stands for.
pub open spec fn digit_value(c: char) -> int {
    c as int - '0' as int
}

/// The number that a run of digits denotes in base 10. The empty run denotes 0.
pub open spec fn decimal_value(s: Seq<char>) -> int
    decreases s.len(),
{
    if s.len() == 0 {
        0
    } else {
        10 * decimal_value(s.drop_last()) + digit_value(s.last())
    }
}

/// The digits of an integer literal: what follows the minus sign, if there is one.
pub open spec fn magnitude(s: Seq<char>) -> Seq<char> {
    if s.len() > 0 && s[0] == '-' {
        s.drop_first()
    } else {
        s
    }
}

/// An integer literal is an optional minus sign and at least one digit, nothing else.
pub open spec fn is_integer_literal(s: Seq<char>) -> bool {
    magnitude(s).len() > 0 && all_digits(magnitude(s))
}

/// The number that an integer literal denotes.
pub open spec fn integer_value(s: Seq<char>) -> int {
    if s.len() > 0 && s[0] == '-' {
        -decimal_value(magnitude(s))
    } else {
        decimal_value(magnitude(s))
    }
}

/// The 64-bit signed integer that `s` denotes, if it is an integer literal within that range.
pub open spec fn integer_of(s: Seq<char>) -> Option<i64> {
    if is_integer_literal(s) && i64::MIN <= integer_value(s) <= i64::MAX {
        Some(integer_value(s) as i64)
    } else {
        None
    }
}

/// A run of digits denotes at least what any of its prefixes denotes.
pub proof fn lemma_decimal_value_grows(s: Seq<char>, k: int)
    requires
        all_digits(s),
        0 <= k <= s.len(),
    ensures
        0 <= decimal_value(s.take(k)) <= decimal_value(s),
    decreases s.len(),
{
    if s.len() == 0 {
        assert(s.take(k) == s);
    } else if k == s.len() {
        assert(s.take(k) == s);
        lemma_decimal_value_grows(s.drop_last(), k - 1);
        assert(s.drop_last().take(k - 1) == s.drop_last());
        assert(is_digit(s.last()));
    } else {
        lemma_decimal_value_grows(s.drop_last(), k);
        assert(s.drop_last().take(k) == s.take(k));
        assert(is_digit(s.last()));
    }
}

/// Reads `s` as a base-10 integer of 64 bits. Anything but an optional minus sign followed by
/// digits is no integer, and neither is a number outside the range of `i64`.
pub fn parse_integer(s: &[char]) -> (r: Option<i64>)
    ensures
        r == integer_of(s@),
{
    let negative: bool = s.len() > 0 && s[0] == '-';
    let start: usize = if negative {
        1
    } else {
        0
    };
    if start == s.len() {
        return None;
    }
    let ghost digits = magnitude(s@);
    assert(digits == s@.subrange(start as int, s.len() as int));
    let mut below: i128 = 0;
    let mut i: usize = start;
    while i < s.len()
        invariant
            start <= i <= s.len(),
            digits == magnitude(s@),
            digits == s@.subrange(start as int, s.len() as int),
            negative == (s@.len() > 0 && s@[0] == '-'),
            all_digits(digits.take(i - start)),
            below == -decimal_value(digits.take(i - start)),
            -0x8000_0000_0000_0000 <= below <= 0,
        decreases s.len() - i,
    {
        let c: char = s[i];
        if !('0' <= c && c <= '9') {
            assert(!is_digit(digits[i - start]));
            return None;
        }
        let d: i128 = (c as u32 - '0' as u32) as i128;
        proof {
            let next = digits.take(i - start + 1);
            assert(next.drop_last() == digits.take(i - start));
            assert(next.last() == c);
            assert forall|j: int| 0 <= j < next.len() implies is_digit(#[trigger] next[j]) by {
                if j < next.len() - 1 {
                    assert(next[j] == digits.take(i - start)[j]);
                }
            }
        }
        below = below * 10 - d;
        if below < -0x8000_0000_0000_0000 {
            proof {
                if all_digits(digits) {
                    lemma_decimal_value_grows(digits, i - start + 1);
                }
            }
            return None;
        }
        i += 1;
    }
    assert(digits.take(i - start) == digits);
    if negative {
        Some(below as i64)
    } else if below == -0x8000_0000_0000_0000 {
        None
    } else {
        Some((-below) as i64)
    }
}

/// The digit that stands for a number below ten.
pub open spec fn digit_char(d: int) -> char {
    ('0' as int + d) as char
}

/// The digits of `n` in base 10, without leading zeros; `0` is the one digit `0`.
pub open spec fn decimal(n: nat) -> Seq<char>
    decreases n,
{
    if n < 10 {
        seq![digit_char(n as int)]
    } else {
        decimal(n / 10).push(digit_char((n % 10) as int))
    }
}

/// The digits of a number are digits, and they denote that number.
pub proof fn lemma_decimal(n: nat)
    ensures
        decimal(n).len() > 0,
        all_digits(decimal(n)),
        decimal_value(decimal(n)) == n,
    decreases n,
{
    if n < 10 {
        let s = decimal(n);
        assert(s.drop_last() == Seq::<char>::empty());
        assert(decimal_value(s.drop_last()) == 0);
        assert(s.last() == digit_char(n as int));
    } else {
        lemma_decimal(n / 10);
        let s = decimal(n);
        assert(s.drop_last() == decimal(n / 10));
        assert(s.last() == digit_char((n % 10) as int));
        assert forall|i: int| 0 <= i < s.len() implies is_digit(#[trigger] s[i]) by {
            if i < s.len() - 1 {
                assert(s[i] == decimal(n / 10)[i]);
            }
        }
    }
}

/// Appends the digits of `n` in base 10 to `out`.
pub fn push_decimal(out: &mut String, n: usize)
    ensures
        final(out)@ == old(out)@ + decimal(n as nat),
    decreases n,
{
    if n >= 10 {
        push_decimal(out, n / 10);
    }
    let d: u8 = (n % 10) as u8;
    out.push((d + 48) as char);
    assert(((d + 48) as char) == digit_char((n % 10) as int));
}

/// Either of two spellings of one letter.
pub open spec fn either(c: char, small: char, capital: char) -> bool {
    c == small || c == capital
}

/// The words for the floating-point numbers that have no digits: `inf`, `infinity` and `nan`,
/// in any mix of small and capital letters.
pub open spec fn is_special_float(s: Seq<char>) -> bool {
    ||| {
        &&& s.len() == 3
        &&& either(s[0], 'i', 'I')
        &&& either(s[1], 'n', 'N')
        &&& either(s[2], 'f', 'F')
    }
    ||| {
        &&& s.len() == 3
        &&& either(s[0], 'n', 'N')
        &&& either(s[1], 'a', 'A')
        &&& either(s[2], 'n', 'N')
    }
    ||| {
        &&& s.len() == 8
        &&& either(s[0], 'i', 'I')
        &&& either(s[1], 'n', 'N')
        &&& either(s[2], 'f', 'F')
        &&& either(s[3], 'i', 'I')
        &&& either(s[4], 'n', 'N')
        &&& either(s[5], 'i', 'I')
        &&& either(s[6], 't', 'T')
        &&& either(s[7], 'y', 'Y')
    }
}

/// What follows a plus or minus sign at the start of `s`, or `s` itself if it starts with none.
pub open spec fn unsigned(s: Seq<char>) -> Seq<char> {
    if s.len() > 0 && (s[0] == '+' || s[0] == '-') {
        s.drop_first()
    } else {
        s
    }
}

/// An exponent: the letter `e`, small or capital, an optional sign, and at least one digit.
pub open spec fn is_exponent(s: Seq<char>) -> bool {
    &&& s.len() > 0
    &&& either(s[0], 'e', 'E')
    &&& unsigned(s.drop_first()).len() > 0
    &&& all_digits(unsigned(s.drop_first()))
}

/// A decimal number: digits with at most one point among them, before them or after them, at
/// least one digit in all, and then an optional exponent.
pub open spec fn is_decimal(s: Seq<char>) -> bool {
    let whole = run_end(s, CharClass::Digit, 0);
    let pointed = whole < s.len() && s[whole] == '.';
    let end = if pointed {
        run_end(s, CharClass::Digit, whole + 1)
    } else {
        whole
    };
    let count = if pointed {
        end - 1
    } else {
        end
    };
    &&& count > 0
    &&& (end == s.len() || is_exponent(s.subrange(end, s.len() as int)))
}

/// The spellings of a floating-point number: an optional sign, then a decimal number or one of
/// the words `inf`, `infinity` and `nan`.
pub open spec fn is_float_literal(s: Seq<char>) -> bool {
    is_special_float(unsigned(s)) || is_decimal(unsigned(s))
}

fn is_either(c: char, small: char, capital: char) -> (r: bool)
    ensures
        r == either(c, small, capital),
{
    c == small || c == capital
}

fn is_sign(c: char) -> (r: bool)
    ensures
        r == (c == '+' || c == '-'),
{
    c == '+' || c == '-'
}

/// Tells whether `s` is one of the words for a floating-point number without digits.
fn is_special(s: &[char]) -> (r: bool)
    ensures
        r == is_special_float(s@),
{
    if s.len() == 3 {
        let inf: bool = is_either(s[0], 'i', 'I') && is_either(s[1], 'n', 'N') && is_either(
            s[2],
            'f',
            'F',
        );
        let nan: bool = is_either(s[0], 'n', 'N') && is_either(s[1], 'a', 'A') && is_either(
            s[2],
            'n',
            'N',
        );
        inf || nan
    } else if s.len() == 8 {
        is_either(s[0], 'i', 'I') && is_either(s[1], 'n', 'N') && is_either(s[2], 'f', 'F')
            && is_either(s[3], 'i', 'I') && is_either(s[4], 'n', 'N') && is_either(s[5], 'i', 'I')
            && is_either(s[6], 't', 'T') && is_either(s[7], 'y', 'Y')
    } else {
        false
    }
}

/// Tells whether the digits of `s` from `from` on are all there is, and at least one.
fn digits_to_end(s: &[char], from: usize) -> (r: bool)
    requires
        from <= s.len(),
    ensures
        r == (from < s.len() && all_digits(s@.subrange(from as int, s.len() as int))),
{
    let end: usize = skip(s, CharClass::Digit, from);
    proof {
        lemma_run_end(s@, CharClass::Digit, from as int);
        let rest = s@.subrange(from as int, s.len() as int);
        if end == s.len() {
            assert forall|i: int| 0 <= i < rest.len() implies is_digit(#[trigger] rest[i]) by {
                assert(rest[i] == s@[from + i]);
            }
        } else {
            assert(rest[end - from] == s@[end as int]);
        }
    }
    from < s.len() && end == s.len()
}

/// Tells whether `s` from `from` on is an exponent.
fn exponent_at(s: &[char], from: usize) -> (r: bool)
    requires
        from < s.len(),
    ensures
        r == is_exponent(s@.subrange(from as int, s.len() as int)),
{
    let ghost tail = s@.subrange(from as int, s.len() as int);
    assert(tail[0] == s@[from as int]);
    assert(tail.drop_first() == s@.subrange(from + 1, s.len() as int));
    if !is_either(s[from], 'e', 'E') {
        return false;
    }
    let mut at: usize = from + 1;
    if at < s.len() && is_sign(s[at]) {
        assert(tail.drop_first()[0] == s@[at as int]);
        assert(tail.drop_first().drop_first() == s@.subrange(from + 2, s.len() as int));
        at += 1;
    } else if at < s.len() {
        assert(tail.drop_first()[0] == s@[at as int]);
    }
    digits_to_end(s, at)
}

/// Tells whether `s` from `from` on is a decimal number.
fn decimal_at(s: &[char], from: usize) -> (r: bool)
    requires
        from <= s.len(),
    ensures
        r == is_decimal(s@.subrange(from as int, s.len() as int)),
{
    let body: &[char] = &s[from..s.len()];
    let whole: usize = skip(body, CharClass::Digit, 0);
    let pointed: bool = whole < body.len() && body[whole] == '.';
    let end: usize = if pointed {
        skip(body, CharClass::Digit, whole + 1)
    } else {
        whole
    };
    let count: usize = if pointed {
        end - 1
    } else {
        end
    };
    count > 0 && (end == body.len() || exponent_at(body, end))
}

/// Tells whether `s` is spelled as a floating-point number.
pub fn is_float(s: &[char]) -> (r: bool)
    ensures
        r == is_float_literal(s@),
{
    let start: usize = if s.len() > 0 && is_sign(s[0]) {
        1
    } else {
        0
    };
    let body: &[char] = &s[start..s.len()];
    assert(body@ == unsigned(s@));
    assert(body@.subrange(0, body@.len() as int) == body@);
    is_special(body) || decimal_at(body, 0)
}

} // verus!
