use vstd::prelude::*;

verus! {

/// A scale factor held exactly as the fraction `num / den`.
#[derive(Debug, PartialEq, Eq, Clone, Copy, Structural)]
pub struct Factor {
    pub num: u64,
    pub den: u64,
}

impl Factor {
    /// The factor is a fraction greater than one.
    pub open spec fn above_one(&self) -> bool {
        self.den > 0 && self.num > self.den
    }

    /// The factor is a fraction greater than zero.
    pub open spec fn positive(&self) -> bool {
        self.den > 0 && self.num > 0
    }
}

/// The most digits that a decimal factor may have.
pub const MAX_FACTOR_DIGITS: usize = 18;

/// ASCII `.`.
pub const DOT: u8 = 46;

/// ASCII `0`.
pub const ZERO: u8 = 48;

pub open spec fn is_digit(b: u8) -> bool {
    ZERO <= b <= ZERO + 9
}

pub open spec fn all_digits(s: Seq<u8>) -> bool {
    forall|k: int| 0 <= k < s.len() ==> is_digit(#[trigger] s[k])
}

/// The number that the decimal digits `s` spell.
pub open spec fn digits_value(s: Seq<u8>) -> int
    decreases s.len(),
{
    if s.len() == 0 {
        0
    } else {
        digits_value(s.drop_last()) * 10 + (s.last() - ZERO)
    }
}

pub open spec fn pow10(k: nat) -> int
    decreases k,
{
    if k == 0 {
        1
    } else {
        10 * pow10((k - 1) as nat)
    }
}

/// The position of the first `.` in `s` at or after `k`, or the length of `s`.
pub open spec fn first_dot(s: Seq<u8>, k: int) -> int
    decreases s.len() - k,
{
    if k >= s.len() {
        s.len() as int
    } else if s[k] == DOT {
        k
    } else {
        first_dot(s, k + 1)
    }
}

/// The digits before the decimal point.
pub open spec fn whole_part(s: Seq<u8>) -> Seq<u8> {
    s.take(first_dot(s, 0))
}

/// The digits after the decimal point (none when there is no point).
pub open spec fn fraction_part(s: Seq<u8>) -> Seq<u8> {
    if first_dot(s, 0) < s.len() {
        s.skip(first_dot(s, 0) + 1)
    } else {
        Seq::empty()
    }
}

/// The factor that the decimal text `s` writes: digits with at most one
/// decimal point, between one and `MAX_FACTOR_DIGITS` digits in all. It is
/// held as those digits over the power of ten that the fraction digits give.
pub open spec fn decimal_factor(s: Seq<u8>) -> Option<Factor> {
    let w = whole_part(s);
    let f = fraction_part(s);
    if all_digits(w) && all_digits(f) && 1 <= w.len() + f.len() <= MAX_FACTOR_DIGITS {
        Some(Factor { num: digits_value(w + f) as u64, den: pow10(f.len()) as u64 })
    } else {
        None
    }
}

proof fn lemma_digits_bound(s: Seq<u8>)
    requires
        all_digits(s),
    ensures
        0 <= digits_value(s) < pow10(s.len()),
    decreases s.len(),
{
    if s.len() > 0 {
        let t = s.drop_last();
        assert(all_digits(t)) by {
            assert forall|k: int| 0 <= k < t.len() implies is_digit(#[trigger] t[k]) by {
                assert(t[k] == s[k]);
            }
        }
        lemma_digits_bound(t);
        assert(is_digit(s[s.len() - 1]));
    }
}

proof fn lemma_pow10_mono(a: nat, b: nat)
    requires
        a <= b,
    ensures
        1 <= pow10(a) <= pow10(b),
    decreases b,
{
    if b > a {
        lemma_pow10_mono(a, (b - 1) as nat);
    } else if a > 0 {
        lemma_pow10_mono((a - 1) as nat, (a - 1) as nat);
    }
}

proof fn lemma_pow10_max()
    ensures
        pow10(MAX_FACTOR_DIGITS as nat) == 1_000_000_000_000_000_000,
{
    reveal_with_fuel(pow10, 19);
}

proof fn lemma_push_digit(s: Seq<u8>, d: u8)
    ensures
        digits_value(s.push(d)) == digits_value(s) * 10 + (d - ZERO),
{
    assert(s.push(d).drop_last() =~= s);
}

/// Reads a decimal factor such as `2`, `2.5` or `0.125` exactly.
pub fn parse_factor(text: &[u8]) -> (r: Option<Factor>)
    ensures
        r == decimal_factor(text@),
{
    let ghost s = text@;
    let mut num: u64 = 0;
    let mut den: u64 = 1;
    let mut count: usize = 0;
    let mut seen_dot = false;
    let ghost mut p: int = 0;
    let mut k: usize = 0;
    proof {
        lemma_pow10_max();
    }
    while k < text.len()
        invariant
            s == text@,
            k <= s.len(),
            count <= MAX_FACTOR_DIGITS,
            pow10(MAX_FACTOR_DIGITS as nat) == 1_000_000_000_000_000_000,
            !seen_dot ==> {
                &&& first_dot(s, 0) == first_dot(s, k as int)
                &&& all_digits(s.take(k as int))
                &&& num == digits_value(s.take(k as int))
                &&& den == 1
                &&& count == k
            },
            seen_dot ==> {
                &&& p == first_dot(s, 0)
                &&& 0 <= p < k
                &&& s[p] == DOT
                &&& all_digits(s.take(p))
                &&& all_digits(s.subrange(p + 1, k as int))
                &&& num == digits_value(s.take(p) + s.subrange(p + 1, k as int))
                &&& den == pow10((k - p - 1) as nat)
                &&& count == k - 1
            },
        decreases s.len() - k,
    {
        let b = text[k];
        if ZERO <= b && b <= ZERO + 9 {
            if count == MAX_FACTOR_DIGITS {
                proof {
                    if !seen_dot {
                        assert(s[k as int] != DOT);
                        assert(first_dot(s, k as int) == first_dot(s, k + 1));
                        lemma_first_dot_at_least(s, k + 1);
                    }
                }
                return None;
            }
            let ghost digits = if seen_dot {
                s.take(p) + s.subrange(p + 1, k as int)
            } else {
                s.take(k as int)
            };
            proof {
                assert(digits.len() == count);
                assert(all_digits(digits));
                lemma_digits_bound(digits);
                lemma_pow10_mono(count as nat, MAX_FACTOR_DIGITS as nat);
                lemma_pow10_mono((count + 1) as nat, MAX_FACTOR_DIGITS as nat);
                lemma_push_digit(digits, b);
                if seen_dot {
                    assert(s.take(p) + s.subrange(p + 1, k + 1) =~= digits.push(b));
                    assert(all_digits(s.subrange(p + 1, k + 1))) by {
                        assert forall|i: int| 0 <= i < k + 1 - (p + 1) implies is_digit(
                            #[trigger] s.subrange(p + 1, k + 1)[i],
                        ) by {
                            if i < k - (p + 1) {
                                assert(s.subrange(p + 1, k + 1)[i] == s.subrange(
                                    p + 1,
                                    k as int,
                                )[i]);
                            }
                        }
                    }
                    lemma_pow10_mono((k - p - 1) as nat, count as nat);
                } else {
                    assert(s.take(k + 1) =~= digits.push(b));
                    assert(s[k as int] != DOT);
                    assert(first_dot(s, k as int) == first_dot(s, k + 1));
                }
            }
            num = num * 10 + (b - ZERO) as u64;
            if seen_dot {
                den = den * 10;
            }
            count = count + 1;
        } else if b == DOT && !seen_dot {
            proof {
                p = k as int;
                assert(s.take(p) + s.subrange(p + 1, k + 1) =~= s.take(k as int));
            }
            seen_dot = true;
        } else {
            proof {
                if seen_dot {
                    assert(fraction_part(s)[k - p - 1] == s[k as int]);
                    assert(!is_digit(s[k as int]));
                } else {
                    assert(s[k as int] != DOT);
                    assert(first_dot(s, k as int) == first_dot(s, k + 1));
                    lemma_first_dot_at_least(s, k + 1);
                    assert(whole_part(s)[k as int] == s[k as int]);
                }
            }
            return None;
        }
        k = k + 1;
    }
    proof {
        if seen_dot {
            assert(fraction_part(s) =~= s.subrange(p + 1, k as int));
            assert(whole_part(s) =~= s.take(p));
        } else {
            assert(whole_part(s) =~= s.take(k as int));
            assert(fraction_part(s) =~= Seq::<u8>::empty());
            assert(s.take(k as int) + Seq::<u8>::empty() =~= s.take(k as int));
        }
    }
    if count == 0 {
        return None;
    }
    Some(Factor { num, den })
}

proof fn lemma_first_dot_at_least(s: Seq<u8>, k: int)
    requires
        0 <= k,
    ensures
        k <= first_dot(s, k) || (k > s.len() && first_dot(s, k) == s.len()),
        first_dot(s, k) <= s.len(),
        first_dot(s, k) < s.len() ==> s[first_dot(s, k)] == DOT,
    decreases s.len() - k,
{
    if k < s.len() && s[k] != DOT {
        lemma_first_dot_at_least(s, k + 1);
    }
}

} // verus!
