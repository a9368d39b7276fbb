//! How many records are asked for: a proportion of the pool, and the quota
//! that it gives.

use crate::numerals::{all_digits, digits_value, read_digits};
use crate::text::{chars_of, first_sep, lemma_first_sep_bounds};
use vstd::prelude::*;

verus! {

/// A proportion of the pool, as a fraction above 0 and up to 1.
#[derive(Clone, Copy, Debug, PartialEq, Eq, Structural)]
pub struct Proportion {
    pub numer: u64,
    pub denom: u64,
}

/// Ten to the power `n`.
pub open spec fn pow10(n: nat) -> nat
    decreases n,
{
    if n == 0 {
        1
    } else {
        10 * pow10((n - 1) as nat)
    }
}

/// The quota for a pool of `n` records: the proportion of `n`, rounded down,
/// and one more.
pub open spec fn quota_of(n: nat, share: Proportion) -> int {
    (n * share.numer) / (share.denom as int) + 1
}

/// What a decimal text is as a proportion. The text is digits with at most
/// one point among them, such as `1`, `0.5` or `.25`; it has one digit at
/// least, 18 digits at most behind the point, and a value above 0 and up
/// to 1.
pub open spec fn proportion_of(text: Seq<char>) -> Option<Proportion> {
    let point = first_sep(text, '.');
    let whole = text.take(point);
    let fraction = if point < text.len() {
        text.skip(point + 1)
    } else {
        Seq::empty()
    };
    let digits = whole + fraction;
    if digits.len() > 0 && all_digits(digits) && fraction.len() <= 18 && 0 < digits_value(digits)
        <= pow10(fraction.len()) {
        Some(
            Proportion {
                numer: digits_value(digits) as u64,
                denom: pow10(fraction.len()) as u64,
            },
        )
    } else {
        None
    }
}

/// Powers of ten are positive and grow with the exponent.
pub proof fn lemma_pow10_grows(a: nat, b: nat)
    requires
        a <= b,
    ensures
        1 <= pow10(a) <= pow10(b),
    decreases b,
{
    if a < b {
        lemma_pow10_grows(a, (b - 1) as nat);
    } else if a > 0 {
        lemma_pow10_grows((a - 1) as nat, (a - 1) as nat);
    }
}

/// The largest denominator, a one with 18 zeros, fits in a `u64`.
pub proof fn lemma_pow10_18()
    ensures
        pow10(18) == 1_000_000_000_000_000_000,
{
    reveal_with_fuel(pow10, 20);
}

impl Proportion {
    /// The fraction is above 0 and not above 1.
    pub open spec fn wf(&self) -> bool {
        0 < self.numer <= self.denom
    }

    /// The proportion `numer / denom`, if that is above 0 and up to 1.
    pub fn new(numer: u64, denom: u64) -> (share: Option<Proportion>)
        ensures
            share == if 0 < numer <= denom {
                Some(Proportion { numer, denom })
            } else {
                None::<Proportion>
            },
    {
        if 0 < numer && numer <= denom {
            Some(Proportion { numer, denom })
        } else {
            None
        }
    }

    /// The whole pool.
    pub fn whole() -> (share: Proportion)
        ensures
            share == (Proportion { numer: 1, denom: 1 }),
    {
        Proportion { numer: 1, denom: 1 }
    }

    /// Reads a proportion from decimal text.
    pub fn from_decimal(text: &str) -> (share: Option<Proportion>)
        ensures
            share == proportion_of(text@),
            share matches Some(p) ==> p.wf(),
    {
        let chars = chars_of(text);
        let ghost point = first_sep(text@, '.');
        proof {
            lemma_first_sep_bounds(text@, '.');
        }
        let mut digits: Vec<char> = Vec::new();
        let mut i: usize = 0;
        while i < chars.len() && chars[i] != '.'
            invariant
                0 <= i <= chars.len(),
                i <= point,
                chars@ == text@,
                point == first_sep(text@, '.'),
                0 <= point <= text@.len(),
                forall|j: int| 0 <= j < point ==> text@[j] != '.',
                point < text@.len() ==> text@[point] == '.',
                digits@ == text@.take(i as int),
            decreases chars.len() - i,
        {
            digits.push(chars[i]);
            i += 1;
            proof {
                assert(text@.take(i as int) =~= text@.take(i - 1).push(text@[i - 1]));
            }
        }
        assert(i == point);
        let places: usize = if i < chars.len() {
            chars.len() - i - 1
        } else {
            0
        };
        let ghost whole = text@.take(point);
        let ghost fraction = if point < text@.len() {
            text@.skip(point + 1)
        } else {
            Seq::<char>::empty()
        };
        assert(places == fraction.len());
        if i < chars.len() {
            i += 1;
            proof {
                assert(digits@ =~= whole + fraction.take(0));
            }
            while i < chars.len()
                invariant
                    0 <= point < i <= chars.len(),
                    chars@ == text@,
                    fraction == text@.skip(point + 1),
                    whole == text@.take(point),
                    digits@ == whole + fraction.take(i - point - 1),
                decreases chars.len() - i,
            {
                digits.push(chars[i]);
                i += 1;
                proof {
                    assert(fraction[i - point - 2] == text@[i - 1]);
                    assert(fraction.take(i - point - 1) =~= fraction.take(i - point - 2).push(
                        text@[i - 1],
                    ));
                    assert(digits@ =~= whole + fraction.take(i - point - 1));
                }
            }
            proof {
                assert(fraction.take(i - point - 1) =~= fraction);
            }
        } else {
            proof {
                assert(digits@ =~= whole + fraction);
            }
        }
        assert(digits@ == whole + fraction);
        if places > 18 {
            return None;
        }
        let mut denom: u64 = 1;
        let mut k: usize = 0;
        while k < places
            invariant
                0 <= k <= places <= 18,
                denom == pow10(k as nat),
            decreases places - k,
        {
            proof {
                lemma_pow10_grows(k as nat + 1, 18);
                lemma_pow10_18();
            }
            denom = denom * 10;
            k += 1;
        }
        proof {
            assert(digits@.skip(0) =~= digits@);
            lemma_pow10_grows(places as nat, 18);
            lemma_pow10_18();
        }
        match read_digits(digits.as_slice(), 0, denom) {
            None => None,
            Some(numer) => {
                if numer == 0 {
                    None
                } else {
                    Some(Proportion { numer, denom })
                }
            },
        }
    }
}

/// The quota for a pool of `n` records. It can be one more than the pool
/// holds, and so one more than a `usize` holds.
pub fn quota(n: usize, share: Proportion) -> (todo: u128)
    requires
        share.wf(),
    ensures
        todo == quota_of(n as nat, share),
        1 <= todo <= n + 1,
{
    proof {
        let (a, b, c) = (n as int, share.numer as int, share.denom as int);
        assert(a * b <= 0xffff_ffff_ffff_ffff * 0xffff_ffff_ffff_ffff) by (nonlinear_arith)
            requires
                0 <= a <= 0xffff_ffff_ffff_ffff,
                0 <= b <= 0xffff_ffff_ffff_ffff,
        ;
        assert(0 <= a * b <= a * c) by (nonlinear_arith)
            requires
                0 <= a,
                0 < b <= c,
        ;
        assert(0 <= (a * b) / c <= a) by (nonlinear_arith)
            requires
                0 <= a * b <= a * c,
                0 < c,
        ;
    }
    (n as u128 * share.numer as u128) / (share.denom as u128) + 1
}

} // verus!
