//! Whole numbers as decimal text: what a numeral means, reading one, and
//! writing one.

use crate::text::chars_of;
use vstd::prelude::*;

verus! {

/// The character is one of the ten decimal digits.
pub open spec fn is_digit(c: char) -> bool {
    '0' <= c <= '9'
}

/// Every character of the text is a decimal digit.
pub open spec fn all_digits(text: Seq<char>) -> bool {
    forall|i: int| 0 <= i < text.len() ==> is_digit(#[trigger] text[i])
}

/// The number that a run of decimal digits stands for; leading zeros do not
/// count.
pub open spec fn digits_value(text: Seq<char>) -> nat
    decreases text.len(),
{
    if text.len() == 0 {
        0
    } else {
        (digits_value(text.drop_last()) * 10 + (text.last() as u32 - '0' as u32)) as nat
    }
}

/// The number that a numeral with an optional sign stands for: a `-` or a
/// `+`, then one digit at least and nothing but digits.
pub open spec fn signed_value(text: Seq<char>) -> Option<int> {
    let signed = text.len() > 0 && (text[0] == '-' || text[0] == '+');
    let digits = if signed {
        text.drop_first()
    } else {
        text
    };
    if digits.len() > 0 && all_digits(digits) {
        if signed && text[0] == '-' {
            Some(-(digits_value(digits) as int))
        } else {
            Some(digits_value(digits) as int)
        }
    } else {
        None
    }
}

/// What a text is as an `i64`: its value, if it is a numeral and the value
/// fits.
pub open spec fn i64_of(text: Seq<char>) -> Option<i64> {
    match signed_value(text) {
        Some(v) => if i64::MIN <= v <= i64::MAX {
            Some(v as i64)
        } else {
            None
        },
        None => None,
    }
}

/// What a text is as a `u8`: its value, if it is a numeral without a `-` and
/// the value fits.
pub open spec fn u8_of(text: Seq<char>) -> Option<u8> {
    match signed_value(text) {
        Some(v) => if text[0] != '-' && v <= u8::MAX {
            Some(v as u8)
        } else {
            None
        },
        None => None,
    }
}

/// More digits never make a smaller number.
pub proof fn lemma_digits_value_grows(text: Seq<char>, n: int)
    requires
        all_digits(text),
        0 <= n <= text.len(),
    ensures
        digits_value(text.take(n)) <= digits_value(text),
    decreases text.len() - n,
{
    if n < text.len() {
        let longer = text.take(n + 1);
        assert(longer.drop_last() =~= text.take(n));
        assert(is_digit(text[n]));
        assert(longer.last() == text[n]);
        lemma_digits_value_grows(text, n + 1);
    } else {
        assert(text.take(n) =~= text);
    }
}

/// Reads the digits `chars[from..]`. Gives their value if there is one digit
/// at least, nothing but digits, and the value is `limit` at most.
pub fn read_digits(chars: &[char], from: usize, limit: u64) -> (value: Option<u64>)
    requires
        from <= chars.len(),
    ensures
        value == if chars@.skip(from as int).len() > 0 && all_digits(chars@.skip(from as int))
            && digits_value(chars@.skip(from as int)) <= limit {
            Some(digits_value(chars@.skip(from as int)) as u64)
        } else {
            None
        },
{
    let ghost digits = chars@.skip(from as int);
    if from == chars.len() {
        return None;
    }
    let mut acc: u128 = 0;
    let mut i = from;
    proof {
        assert(digits.take(0) =~= Seq::<char>::empty());
    }
    while i < chars.len()
        invariant
            from <= i <= chars.len(),
            digits == chars@.skip(from as int),
            all_digits(digits.take(i - from)),
            acc == digits_value(digits.take(i - from)),
            acc <= limit,
        decreases chars.len() - i,
    {
        let c = chars[i];
        proof {
            assert(digits[i - from] == c);
            assert(digits.take(i - from + 1).drop_last() =~= digits.take(i - from));
            assert(digits.take(i - from + 1).last() == c);
        }
        if c < '0' || c > '9' {
            return None;
        }
        let d = (c as u32 - '0' as u32) as u128;
        acc = acc * 10 + d;
        proof {
            assert forall|k: int| 0 <= k < i - from + 1 implies is_digit(
                #[trigger] digits.take(i - from + 1)[k],
            ) by {
                if k < i - from {
                    assert(digits.take(i - from)[k] == digits[k]);
                }
            }
        }
        if acc > limit as u128 {
            proof {
                if all_digits(digits) {
                    lemma_digits_value_grows(digits, i - from + 1);
                }
            }
            return None;
        }
        i += 1;
    }
    proof {
        assert(digits.take(i - from) =~= digits);
    }
    Some(acc as u64)
}

/// Reads a position or another signed number, as `str::parse::<i64>` does.
pub fn parse_i64(text: &str) -> (value: Option<i64>)
    ensures
        value == i64_of(text@),
{
    let chars = chars_of(text);
    let signed = chars.len() > 0 && (chars[0] == '-' || chars[0] == '+');
    let from: usize = if signed {
        1
    } else {
        0
    };
    proof {
        assert(chars@.skip(1) =~= chars@.drop_first());
        assert(chars@.skip(0) =~= chars@);
    }
    match read_digits(chars.as_slice(), from, 0x8000_0000_0000_0000) {
        None => None,
        Some(magnitude) => {
            if signed && chars[0] == '-' {
                if magnitude == 0x8000_0000_0000_0000 {
                    Some(i64::MIN)
                } else {
                    Some(-(magnitude as i64))
                }
            } else if magnitude <= 0x7fff_ffff_ffff_ffff {
                Some(magnitude as i64)
            } else {
                None
            }
        },
    }
}

/// Reads an allele code or another small unsigned number, as
/// `str::parse::<u8>` does.
pub fn parse_u8(text: &str) -> (value: Option<u8>)
    ensures
        value == u8_of(text@),
{
    let chars = chars_of(text);
    if chars.len() > 0 && chars[0] == '-' {
        return None;
    }
    let from: usize = if chars.len() > 0 && chars[0] == '+' {
        1
    } else {
        0
    };
    proof {
        assert(chars@.skip(1) =~= chars@.drop_first());
        assert(chars@.skip(0) =~= chars@);
    }
    match read_digits(chars.as_slice(), from, 255) {
        None => None,
        Some(value) => Some(value as u8),
    }
}

/// The character for one decimal digit.
pub open spec fn digit_char(d: nat) -> char
    recommends
        d < 10,
{
    (('0' as u8 + d) as u8) as char
}

/// A number in decimal digits, without leading zeros.
pub open spec fn digits_of(n: nat) -> Seq<char>
    decreases n,
{
    if n < 10 {
        seq![digit_char(n)]
    } else {
        digits_of(n / 10).push(digit_char(n % 10))
    }
}

/// A whole number as decimal text, with a `-` before a negative one.
pub open spec fn decimal(n: int) -> Seq<char> {
    if n < 0 {
        seq!['-'] + digits_of((-n) as nat)
    } else {
        digits_of(n as nat)
    }
}

/// The digits written for a number are digits, and stand for that number.
pub proof fn lemma_digits_of_reads_back(n: nat)
    ensures
        digits_of(n).len() > 0,
        all_digits(digits_of(n)),
        digits_value(digits_of(n)) == n,
    decreases n,
{
    let text = digits_of(n);
    if n < 10 {
        assert(text.drop_last() =~= Seq::<char>::empty());
        assert(digits_value(text.drop_last()) == 0);
    } else {
        lemma_digits_of_reads_back(n / 10);
        assert(text.drop_last() =~= digits_of(n / 10));
        assert forall|i: int| 0 <= i < text.len() implies is_digit(#[trigger] text[i]) by {
            if i < text.len() - 1 {
                assert(text[i] == digits_of(n / 10)[i]);
            }
        }
    }
}

/// What is written for a number reads back as that number.
pub proof fn lemma_decimal_reads_back(n: i64)
    ensures
        i64_of(decimal(n as int)) == Some(n),
{
    let text = decimal(n as int);
    if n < 0 {
        let digits = digits_of((-n) as nat);
        lemma_digits_of_reads_back((-n) as nat);
        assert(text.drop_first() =~= digits);
    } else {
        lemma_digits_of_reads_back(n as nat);
    }
}

/// Appends the digits of `n` to the text.
pub fn push_digits(out: &mut String, n: u64)
    ensures
        final(out)@ == old(out)@ + digits_of(n as nat),
{
    let mut rest = n;
    let mut tail: Vec<char> = Vec::new();
    proof {
        assert(digits_of(n as nat) =~= digits_of(rest as nat) + tail@.reverse());
    }
    while rest >= 10
        invariant
            digits_of(n as nat) == digits_of(rest as nat) + tail@.reverse(),
        decreases rest,
    {
        let ghost before = tail@;
        let ghost was = rest;
        let d = (rest % 10) as u8;
        tail.push((48u8 + d) as char);
        rest = rest / 10;
        proof {
            assert(tail@.reverse() =~= seq![digit_char(d as nat)] + before.reverse());
            assert(digits_of(was as nat) == digits_of(rest as nat).push(digit_char(d as nat)));
            assert(digits_of(rest as nat) + tail@.reverse() =~= digits_of(was as nat)
                + before.reverse());
        }
    }
    out.push((48u8 + rest as u8) as char);
    proof {
        assert(out@ + tail@.reverse() =~= old(out)@ + digits_of(n as nat));
    }
    while tail.len() > 0
        invariant
            out@ + tail@.reverse() == old(out)@ + digits_of(n as nat),
        decreases tail.len(),
    {
        let ghost before = tail@;
        let ghost front = out@;
        match tail.pop() {
            Some(c) => {
                out.push(c);
                proof {
                    assert(before.reverse() =~= seq![c] + tail@.reverse());
                    assert(out@ + tail@.reverse() =~= front + before.reverse());
                }
            },
            None => {},
        }
    }
    proof {
        assert(out@ + tail@.reverse() =~= out@);
    }
}

/// Appends a whole number in decimal to the text.
pub fn push_decimal(out: &mut String, n: i64)
    ensures
        final(out)@ == old(out)@ + decimal(n as int),
{
    if n < 0 {
        out.push('-');
        let magnitude: u64 = if n == i64::MIN {
            0x8000_0000_0000_0000
        } else {
            (-n) as u64
        };
        push_digits(out, magnitude);
        proof {
            assert(out@ =~= old(out)@ + decimal(n as int));
        }
    } else {
        push_digits(out, n as u64);
    }
}

} // verus!
