//! Numeric helpers: parsing a decimal integer literal, the checked power
//! used by the exponent operation, and truncating division as a spec-level
//! notion.

use vstd::prelude::*;
use vstd::arithmetic::power::pow;

verus! {

/// Whether the character is a decimal digit.
pub open spec fn is_digit(c: char) -> bool {
    '0' as int <= c as int && c as int <= '9' as int
}

/// The numeric value of a decimal digit.
pub open spec fn digit_val(c: char) -> int {
    c as int - '0' as int
}

/// Whether every character of the sequence is a decimal digit.
pub open spec fn all_digits(s: Seq<char>) -> bool {
    forall|i: int| 0 <= i < s.len() ==> is_digit(#[trigger] s[i])
}

/// The value of a sequence of decimal digits, most significant first.
pub open spec fn digits_value(s: Seq<char>) -> int
    decreases s.len(),
{
    if s.len() == 0 {
        0
    } else {
        digits_value(s.drop_last()) * 10 + digit_val(s.last())
    }
}

/// The mathematical value of an integer literal: an optional `+` or `-` sign
/// followed by at least one decimal digit. `None` where the text is not of
/// that shape.
pub open spec fn int_literal_value(s: Seq<char>) -> Option<int> {
    if s.len() == 0 {
        None
    } else if s[0] == '-' || s[0] == '+' {
        let d = s.subrange(1, s.len() as int);
        if d.len() > 0 && all_digits(d) {
            if s[0] == '-' {
                Some(-digits_value(d))
            } else {
                Some(digits_value(d))
            }
        } else {
            None
        }
    } else {
        if all_digits(s) {
            Some(digits_value(s))
        } else {
            None
        }
    }
}

/// What parsing the text as a 32-bit signed integer yields: the literal's
/// value when the text is a well-formed literal whose value fits, `None`
/// otherwise.
pub open spec fn parse_i32_spec(s: Seq<char>) -> Option<i32> {
    match int_literal_value(s) {
        Option::Some(v) => if i32::MIN <= v <= i32::MAX {
            Option::Some(v as i32)
        } else {
            Option::None
        },
        Option::None => Option::None,
    }
}

proof fn lemma_digits_value_nonneg(s: Seq<char>)
    requires
        all_digits(s),
    ensures
        digits_value(s) >= 0,
    decreases s.len(),
{
    if s.len() > 0 {
        assert(all_digits(s.drop_last())) by {
            assert(forall|i: int|
                0 <= i < s.drop_last().len() ==> #[trigger] s.drop_last()[i] == s[i]);
        }
        lemma_digits_value_nonneg(s.drop_last());
    }
}

/// Parse the text as a 32-bit signed integer.
pub fn parse_i32(s: &str) -> (r: Option<i32>)
    ensures
        r == parse_i32_spec(s@),
{
    let n = s.unicode_len();
    if n == 0 {
        return None;
    }
    let first = s.get_char(0);
    let negative = first == '-';
    let start: usize = if first == '-' || first == '+' {
        1
    } else {
        0
    };
    if start == n {
        return None;
    }
    let ghost digits = s@.subrange(start as int, n as int);
    // Magnitude of the digits read so far; once it passes 2^31 the literal
    // cannot fit, and only the digit check still matters.
    let mut acc: u64 = 0;
    let mut over = false;
    let mut i: usize = start;
    while i < n
        invariant
            n == s@.len(),
            start <= i <= n,
            start < n,
            start == 0 || start == 1,
            s@[0] == first,
            start == 1 ==> first == '-' || first == '+',
            start == 0 ==> first != '-' && first != '+',
            negative == (first == '-'),
            digits == s@.subrange(start as int, n as int),
            all_digits(s@.subrange(start as int, i as int)),
            !over ==> acc == digits_value(s@.subrange(start as int, i as int)) && acc
                <= 0x8000_0000u64,
            over ==> digits_value(s@.subrange(start as int, i as int)) > 0x8000_0000,
        decreases n - i,
    {
        let c = s.get_char(i);
        let cv = c as u32;
        if cv < 48 || cv > 57 {
            proof {
                assert(digits[i - start] == s@[i as int]);
                assert(!is_digit(digits[i - start]));
                if start == 1 {
                    assert(s@[0] == first);
                } else {
                    assert(digits =~= s@);
                }
            }
            return None;
        }
        let d = (cv - 48) as u64;
        let ghost prefix = s@.subrange(start as int, i as int);
        proof {
            assert(s@.subrange(start as int, i + 1).drop_last() =~= prefix);
            assert(s@.subrange(start as int, i + 1).last() == s@[i as int]);
            assert(forall|j: int|
                0 <= j < i + 1 - start ==> #[trigger] s@.subrange(start as int, i + 1)[j] == s@[j
                    + start]);
        }
        if !over {
            acc = acc * 10 + d;
            if acc > 0x8000_0000u64 {
                over = true;
            }
        }
        i = i + 1;
    }
    proof {
        assert(s@.subrange(start as int, i as int) =~= digits);
        lemma_digits_value_nonneg(digits);
        if start == 1 {
            assert(s@[0] == first);
        } else {
            assert(digits =~= s@);
        }
    }
    if over {
        return None;
    }
    if negative {
        if acc > 0x8000_0000u64 {
            None
        } else if acc == 0x8000_0000u64 {
            Some(i32::MIN)
        } else {
            Some(-(acc as i32))
        }
    } else {
        if acc > 0x7fff_ffffu64 {
            None
        } else {
            Some(acc as i32)
        }
    }
}

/// The result of computing `a^e` by `e` successive multiplications, each one
/// checked against the 32-bit range: `None` as soon as one multiplication
/// leaves the range.
pub open spec fn pow_checked_spec(a: i32, e: nat) -> Option<i32>
    decreases e,
{
    if e == 0 {
        Option::Some(1i32)
    } else {
        match pow_checked_spec(a, (e - 1) as nat) {
            Option::Some(r) => r.checked_mul(a),
            Option::None => Option::None,
        }
    }
}

/// A successful checked power is the mathematical power.
pub proof fn lemma_pow_checked_exact(a: i32, e: nat)
    requires
        pow_checked_spec(a, e) matches Some(r),
    ensures
        pow_checked_spec(a, e) == Some((pow(a as int, e) as i32)),
        i32::MIN <= pow(a as int, e) <= i32::MAX,
    decreases e,
{
    if e == 0 {
        assert(pow(a as int, 0) == 1) by {
            vstd::arithmetic::power::lemma_pow0(a as int);
        }
    } else {
        lemma_pow_checked_exact(a, (e - 1) as nat);
        assert(pow(a as int, e) == pow(a as int, (e - 1) as nat) * (a as int)) by {
            vstd::arithmetic::power::lemma_pow1(a as int);
            vstd::arithmetic::power::lemma_pow_adds(a as int, (e - 1) as nat, 1);
        }
    }
}

/// A base of magnitude at most one never leaves the 32-bit range.
proof fn lemma_pow_checked_small_base(a: i32, e: nat)
    requires
        -1 <= a <= 1,
    ensures
        pow_checked_spec(a, e) matches Some(r) && -1 <= r <= 1,
    decreases e,
{
    if e > 0 {
        lemma_pow_checked_small_base(a, (e - 1) as nat);
        let r = pow_checked_spec(a, (e - 1) as nat)->Some_0;
        assert(-1 <= r * a <= 1) by (nonlinear_arith)
            requires
                -1 <= r <= 1,
                -1 <= a <= 1,
        {
        }
    }
}

/// A failed checked power is no loss: the mathematical power itself lies
/// outside the 32-bit range.
pub proof fn lemma_pow_checked_complete(a: i32, e: nat)
    requires
        pow_checked_spec(a, e) is None,
    ensures
        pow(a as int, e) < i32::MIN || pow(a as int, e) > i32::MAX,
    decreases e,
{
    assert(a < -1 || a > 1) by {
        if -1 <= a <= 1 {
            lemma_pow_checked_small_base(a, e);
        }
    }
    assert(e > 0);
    let p = pow(a as int, (e - 1) as nat);
    assert(pow(a as int, e) == p * (a as int)) by {
        vstd::arithmetic::power::lemma_pow1(a as int);
        vstd::arithmetic::power::lemma_pow_adds(a as int, (e - 1) as nat, 1);
    }
    match pow_checked_spec(a, (e - 1) as nat) {
        Option::Some(r) => {
            lemma_pow_checked_exact(a, (e - 1) as nat);
            assert(r.checked_mul(a) is None);
        },
        Option::None => {
            lemma_pow_checked_complete(a, (e - 1) as nat);
            assert(p * (a as int) < i32::MIN || p * (a as int) > i32::MAX) by (nonlinear_arith)
                requires
                    p < i32::MIN || p > i32::MAX,
                    a < -1 || a > 1,
                    i32::MIN == -0x8000_0000,
                    i32::MAX == 0x7fff_ffff,
            {
            }
        },
    }
}

/// Compute `a` raised to `e` with every intermediate step checked against
/// the 32-bit range.
pub fn pow_checked(a: i32, e: u32) -> (r: Option<i32>)
    ensures
        r == pow_checked_spec(a, e as nat),
{
    let mut acc: i32 = 1;
    let mut i: u32 = 0;
    while i < e
        invariant
            i <= e,
            pow_checked_spec(a, i as nat) == Some(acc),
        decreases e - i,
    {
        match acc.checked_mul(a) {
            Some(next) => {
                acc = next;
            },
            None => {
                proof {
                    lemma_pow_checked_none(a, (i + 1) as nat, e as nat);
                }
                return None;
            },
        }
        i = i + 1;
    }
    Some(acc)
}

/// Once the checked power has failed at some exponent, it fails for every
/// larger exponent.
proof fn lemma_pow_checked_none(a: i32, e0: nat, e1: nat)
    requires
        e0 <= e1,
        pow_checked_spec(a, e0) is None,
    ensures
        pow_checked_spec(a, e1) is None,
    decreases e1 - e0,
{
    if e0 < e1 {
        lemma_pow_checked_none(a, e0, (e1 - 1) as nat);
    }
}

/// Truncating integer division: the quotient rounded toward zero.
pub open spec fn trunc_div(a: int, b: int) -> int {
    if (a < 0) == (b < 0) {
        (vstd::math::abs(a) / vstd::math::abs(b)) as int
    } else {
        -((vstd::math::abs(a) / vstd::math::abs(b)) as int)
    }
}

/// What `i32::checked_div` returns is exactly truncating division, absent
/// where undefined (division by zero) or out of range.
pub proof fn lemma_checked_div_trunc(a: i32, b: i32)
    requires
        b != 0,
    ensures
        a.checked_div(b) == (if i32::MIN <= trunc_div(a as int, b as int) <= i32::MAX {
            Some(trunc_div(a as int, b as int) as i32)
        } else {
            None::<i32>
        }),
{
    if a == 0 {
        assert(vstd::math::abs(0) / vstd::math::abs(b as int) == 0) by {
            assert(0int / (vstd::math::abs(b as int) as int) == 0);
        }
    }
}

} // verus!
