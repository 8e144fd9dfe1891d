//! Reading integers and fixed-point numbers from decimal notation.

use vstd::prelude::*;
use crate::fixed::SCALE;
use crate::text::{split, split_text};

verus! {

/// `c` is one of the ten ASCII digits.
pub open spec fn is_digit(c: char) -> bool {
    '0' <= c && c <= '9'
}

/// The number that a digit stands for.
pub open spec fn digit_value(c: char) -> int {
    c as int - '0' as int
}

/// Every character of `s` is a digit.
pub open spec fn all_digits(s: Seq<char>) -> bool {
    forall|i: int| 0 <= i < s.len() ==> is_digit(#[trigger] s[i])
}

/// The number that a sequence of digits stands for; the empty one stands for
/// zero.
pub open spec fn digits_value(s: Seq<char>) -> int
    decreases s.len(),
{
    if s.len() == 0 {
        0
    } else {
        digits_value(s.drop_last()) * 10 + digit_value(s.last())
    }
}

/// `s` starts with a sign.
pub open spec fn has_sign(s: Seq<char>) -> bool {
    s.len() > 0 && (s[0] == '-' || s[0] == '+')
}

/// `s` without its sign, if it has one.
pub open spec fn unsigned_part(s: Seq<char>) -> Seq<char> {
    if has_sign(s) {
        s.drop_first()
    } else {
        s
    }
}

/// `magnitude` with the sign that `s` starts with.
pub open spec fn with_sign_of(s: Seq<char>, magnitude: int) -> int {
    if s.len() > 0 && s[0] == '-' {
        -magnitude
    } else {
        magnitude
    }
}

/// The integer that `s` denotes: an optional sign, then one digit or more.
/// `None` where `s` is not of that form.
pub open spec fn integer_value(s: Seq<char>) -> Option<int> {
    let body = unsigned_part(s);
    if body.len() > 0 && all_digits(body) {
        Some(with_sign_of(s, digits_value(body)))
    } else {
        None
    }
}

/// What [`parse_integer`] returns: the integer that `s` denotes, if it
/// denotes one that an `i32` can hold.
pub open spec fn integer_of(s: Seq<char>) -> Option<i32> {
    match integer_value(s) {
        Some(n) => if i32::MIN <= n <= i32::MAX {
            Some(n as i32)
        } else {
            None
        },
        None => None,
    }
}

/// The digit at place `i` after the point, zero where the fraction has
/// fewer digits.
pub open spec fn fraction_digit(fraction: Seq<char>, i: int) -> int {
    if i < fraction.len() {
        digit_value(fraction[i])
    } else {
        0
    }
}

/// The first `places` digits after the point, read as one number; a digit
/// that the fraction lacks counts as zero.
pub open spec fn leading_digits(fraction: Seq<char>, places: nat) -> int
    decreases places,
{
    if places == 0 {
        0
    } else {
        leading_digits(fraction, (places - 1) as nat) * 10 + fraction_digit(fraction, places - 1)
    }
}

/// The fixed-point value of the digits after the point: the first six
/// digits, and one more step where the seventh digit is five or more (the
/// value is rounded to the nearest step, a tie going away from zero).
pub open spec fn fraction_value(fraction: Seq<char>) -> int {
    leading_digits(fraction, 6) + if fraction_digit(fraction, 6) >= 5 {
        1int
    } else {
        0int
    }
}

/// Ten to the power of `n`.
pub open spec fn power_of_ten(n: nat) -> nat
    decreases n,
{
    if n == 0 {
        1
    } else {
        10 * power_of_ten((n - 1) as nat)
    }
}

/// The fixed-point number that `s` denotes: an optional sign, digits, and
/// optionally a point and more digits, with one digit at least before or
/// after the point. `None` where `s` is not of that form.
pub open spec fn number_value(s: Seq<char>) -> Option<int> {
    let parts = split(s, '.');
    let whole = unsigned_part(parts[0]);
    let fraction = if parts.len() == 2 {
        parts[1]
    } else {
        Seq::<char>::empty()
    };
    if parts.len() <= 2 && all_digits(whole) && all_digits(fraction) && whole.len()
        + fraction.len() > 0 {
        Some(with_sign_of(parts[0], digits_value(whole) * SCALE + fraction_value(fraction)))
    } else {
        None
    }
}

/// What [`parse_number`] returns: the fixed-point number that `s` denotes,
/// if it denotes one that an `i64` can hold.
pub open spec fn number_of(s: Seq<char>) -> Option<i64> {
    match number_value(s) {
        Some(n) => if i64::MIN <= n <= i64::MAX {
            Some(n as i64)
        } else {
            None
        },
        None => None,
    }
}

/// A sequence of digits stands for at least as much as any leading part of
/// it, and for no negative number.
pub proof fn lemma_digits_value_grows(s: Seq<char>, i: int)
    requires
        all_digits(s),
        0 <= i <= s.len(),
    ensures
        0 <= digits_value(s.take(i)) <= digits_value(s),
    decreases s.len(),
{
    if s.len() == 0 {
        assert(s.take(i) =~= s);
    } else if i == s.len() {
        assert(s.take(i) =~= s);
        lemma_digits_value_grows(s.drop_last(), 0);
        assert(is_digit(s.last()));
    } else {
        lemma_digits_value_grows(s.drop_last(), i);
        assert(s.drop_last().take(i) =~= s.take(i));
        assert(is_digit(s.last()));
    }
}

/// The number that the digit `c` stands for, or `None` where `c` is no digit.
fn digit_of(c: char) -> (r: Option<u128>)
    ensures
        match r {
            Some(d) => is_digit(c) && d == digit_value(c),
            None => !is_digit(c),
        },
{
    if c >= '0' && c <= '9' {
        Some((c as u32 - '0' as u32) as u128)
    } else {
        None
    }
}

/// The number that the characters of `text` from `from` on stand for, if
/// they are all digits and the number is at most `limit`.
fn digits_from(text: &Vec<char>, from: usize, limit: u64) -> (r: Option<u128>)
    requires
        from <= text.len(),
    ensures
        match r {
            Some(n) => all_digits(text@.skip(from as int)) && n == digits_value(
                text@.skip(from as int),
            ) && n <= limit,
            None => !all_digits(text@.skip(from as int)) || digits_value(text@.skip(from as int))
                > limit,
        },
{
    let ghost s = text@.skip(from as int);
    let mut acc: u128 = 0;
    let mut i: usize = from;
    proof {
        assert(s.take(0) =~= Seq::<char>::empty());
    }
    while i < text.len()
        invariant
            from <= i <= text.len(),
            s == text@.skip(from as int),
            all_digits(s.take(i - from)),
            acc == digits_value(s.take(i - from)),
            acc <= limit,
        decreases text.len() - i,
    {
        proof {
            assert(s.take(i - from + 1).drop_last() =~= s.take(i - from));
            assert(s.take(i - from + 1).last() == text@[i as int]);
            assert(s[i - from] == text@[i as int]);
        }
        match digit_of(text[i]) {
            None => {
                return None;
            },
            Some(d) => {
                let next = acc * 10 + d;
                proof {
                    assert forall|k: int| 0 <= k < s.take(i - from + 1).len() implies is_digit(
                        #[trigger] s.take(i - from + 1)[k],
                    ) by {
                        if k < i - from {
                            assert(s.take(i - from)[k] == s.take(i - from + 1)[k]);
                        }
                    }
                }
                if next > limit as u128 {
                    proof {
                        if all_digits(s) {
                            lemma_digits_value_grows(s, i - from + 1);
                        }
                    }
                    return None;
                }
                acc = next;
            },
        }
        i += 1;
    }
    proof {
        assert(s.take(text.len() - from) =~= s);
    }
    Some(acc)
}

/// Whether every character of `text` is a digit.
fn only_digits(text: &Vec<char>) -> (r: bool)
    ensures
        r == all_digits(text@),
{
    let mut k: usize = 0;
    while k < text.len()
        invariant
            k <= text.len(),
            forall|j: int| 0 <= j < k ==> is_digit(#[trigger] text@[j]),
        decreases text.len() - k,
    {
        if digit_of(text[k]).is_none() {
            return false;
        }
        k += 1;
    }
    true
}

/// Reads an integer in decimal notation: an optional sign, then digits.
pub fn parse_integer(text: &Vec<char>) -> (r: Option<i32>)
    ensures
        r == integer_of(text@),
{
    let signed = text.len() > 0 && (text[0] == '-' || text[0] == '+');
    let from: usize = if signed {
        1
    } else {
        0
    };
    proof {
        assert(text@.skip(0) =~= text@);
        if text.len() > 0 {
            assert(text@.skip(1) =~= text@.drop_first());
        }
    }
    if from == text.len() {
        return None;
    }
    match digits_from(text, from, 2147483648u64) {
        None => None,
        Some(magnitude) => {
            if text[0] == '-' {
                Some((-(magnitude as i64)) as i32)
            } else if magnitude > 2147483647 {
                None
            } else {
                Some(magnitude as i32)
            }
        },
    }
}

/// The fixed-point value of the digits after the point.
fn fraction_of(fraction: &Vec<char>) -> (r: u64)
    requires
        all_digits(fraction@),
    ensures
        r == fraction_value(fraction@),
        r <= 1_000_000,
{
    let mut value: u64 = 0;
    let mut i: usize = 0;
    proof {
        reveal_with_fuel(power_of_ten, 7);
    }
    while i < 6
        invariant
            i <= 6,
            all_digits(fraction@),
            value == leading_digits(fraction@, i as nat),
            value < power_of_ten(i as nat) <= power_of_ten(6) == 1_000_000,
        decreases 6 - i,
    {
        let d: u64 = if i < fraction.len() {
            assert(is_digit(fraction@[i as int]));
            match digit_of(fraction[i]) {
                Some(d) => d as u64,
                None => 0,
            }
        } else {
            0
        };
        proof {
            reveal_with_fuel(power_of_ten, 7);
            assert(power_of_ten((i + 1) as nat) == 10 * power_of_ten(i as nat));
        }
        value = value * 10 + d;
        i += 1;
    }
    let up: bool = if 6 < fraction.len() {
        assert(is_digit(fraction@[6]));
        match digit_of(fraction[6]) {
            Some(d) => d >= 5,
            None => false,
        }
    } else {
        false
    };
    if up {
        value + 1
    } else {
        value
    }
}

/// Reads a fixed-point number in decimal notation: an optional sign, digits,
/// and optionally a point and more digits. Digits after the sixth place are
/// rounded away.
pub fn parse_number(text: &Vec<char>) -> (r: Option<i64>)
    ensures
        r == number_of(text@),
{
    let parts = split_text(text, '.');
    proof {
        crate::text::lemma_split_join(text@, '.');
    }
    if parts.len() > 2 {
        return None;
    }
    let first = &parts[0];
    assert(first@ == split(text@, '.')[0]);
    let signed = first.len() > 0 && (first[0] == '-' || first[0] == '+');
    let from: usize = if signed {
        1
    } else {
        0
    };
    proof {
        assert(first@.skip(0) =~= first@);
        if first.len() > 0 {
            assert(first@.skip(1) =~= first@.drop_first());
        }
    }
    let ghost whole = unsigned_part(first@);
    let empty: Vec<char> = Vec::new();
    let fraction = if parts.len() == 2 {
        &parts[1]
    } else {
        &empty
    };
    proof {
        if parts.len() == 2 {
            assert(fraction@ == split(text@, '.')[1]);
        } else {
            assert(fraction@ =~= Seq::<char>::empty());
        }
    }
    if first.len() == from && fraction.len() == 0 {
        return None;
    }
    let magnitude = match digits_from(first, from, 9_223_372_036_855u64) {
        None => {
            proof {
                if all_digits(whole) && all_digits(fraction@) {
                    lemma_fraction_value_bounds(fraction@);
                    assert(first@.skip(from as int) == whole);
                    assert(digits_value(whole) * SCALE > i64::MAX + 1) by (nonlinear_arith)
                        requires
                            digits_value(whole) > 9_223_372_036_855,
                            SCALE == 1_000_000,
                    ;
                }
            }
            return None;
        },
        Some(m) => m,
    };
    if !only_digits(fraction) {
        return None;
    }
    let steps: u128 = magnitude * 1_000_000 + fraction_of(fraction) as u128;
    if first.len() > 0 && first[0] == '-' {
        if steps > 9_223_372_036_854_775_808u128 {
            None
        } else if steps == 9_223_372_036_854_775_808u128 {
            Some(i64::MIN)
        } else {
            Some(-(steps as i64))
        }
    } else if steps > 9_223_372_036_854_775_807u128 {
        None
    } else {
        Some(steps as i64)
    }
}

/// The value of the digits after the point is at least zero and at most one.
pub proof fn lemma_fraction_value_bounds(fraction: Seq<char>)
    requires
        all_digits(fraction),
    ensures
        0 <= fraction_value(fraction) <= SCALE,
{
    lemma_leading_digits_bounds(fraction, 6);
    reveal_with_fuel(power_of_ten, 7);
    if 6 < fraction.len() {
        assert(is_digit(fraction[6]));
    }
}

/// The first `places` digits are a number of at most that many digits.
pub proof fn lemma_leading_digits_bounds(fraction: Seq<char>, places: nat)
    requires
        all_digits(fraction),
    ensures
        0 <= leading_digits(fraction, places) < power_of_ten(places),
    decreases places,
{
    if places > 0 {
        lemma_leading_digits_bounds(fraction, (places - 1) as nat);
        if places - 1 < fraction.len() {
            assert(is_digit(fraction[places - 1]));
        }
    }
}

} // verus!
