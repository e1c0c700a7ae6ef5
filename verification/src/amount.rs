//! Amounts of money in fixed point: reading them from decimal notation, with
//! rounding to four places, and writing them back.

use vstd::arithmetic::div_mod::lemma_fundamental_div_mod;
use vstd::prelude::*;
use vstd::string::StringExecFns;
use self::reader::{
    lemma_amount_by_digits, lemma_decimal_is_ascii, lemma_scaled_of_four_places,
    lemma_whole_read, read_magnitude, read_sign, LIMIT,
};
use crate::digits::{
    all_digits, digit_char, digit_text, digits_of, digits_value, is_digit, lemma_digit_char,
    lemma_digits_of, lemma_digits_value_concat, pow10, write_number,
};
use crate::error::ProcessError;

mod reader;

verus! {

/// How many of the smallest amounts make one unit: amounts are counted in
/// ten-thousandths.
pub const SCALE: i64 = 10_000;

/// How many decimal places an amount keeps.
pub const PLACES: usize = 4;

/// The integer nearest to `n / d`, for a positive `d`; where two integers
/// are equally near, the one farther from zero.
pub open spec fn round_half_away(n: int, d: int) -> int {
    if n >= 0 {
        (2 * n + d) / (2 * d)
    } else {
        -((2 * (-n) + d) / (2 * d))
    }
}

/// `round_half_away(n, d)` is at most half a step from `n / d`, and exactly
/// half a step only on the side away from zero.
pub proof fn lemma_round_half_away_is_nearest(n: int, d: int)
    requires
        d > 0,
    ensures
        -d <= 2 * (round_half_away(n, d) * d - n) <= d,
        2 * (round_half_away(n, d) * d - n) == d ==> n >= 0,
        2 * (round_half_away(n, d) * d - n) == -d ==> n < 0,
{
    let m = if n >= 0 { n } else { -n };
    let x = 2 * m + d;
    let q = x / (2 * d);
    let rem = x % (2 * d);
    lemma_fundamental_div_mod(x, 2 * d);
    assert(0 <= rem < 2 * d) by (nonlinear_arith)
        requires
            rem == x % (2 * d),
            d > 0,
    ;
    assert((2 * d) * q == 2 * (q * d)) by (nonlinear_arith);
    if n < 0 {
        assert((-q) * d == -(q * d)) by (nonlinear_arith);
    }
}

/// 1 where `text` begins with a sign, else 0.
pub open spec fn sign_len(text: Seq<char>) -> int {
    if text.len() > 0 && (text[0] == '-' || text[0] == '+') {
        1
    } else {
        0
    }
}

/// Whether `text` begins with a minus sign.
pub open spec fn is_negative(text: Seq<char>) -> bool {
    text.len() > 0 && text[0] == '-'
}

/// The place of the first decimal point at or after `from`, or the length
/// of `text` if there is none.
pub open spec fn point_at(text: Seq<char>, from: int) -> int
    decreases text.len() - from,
{
    if from < 0 || from >= text.len() || text[from] == '.' {
        from
    } else {
        point_at(text, from + 1)
    }
}

/// What stands between the sign and the decimal point.
pub open spec fn whole_digits(text: Seq<char>) -> Seq<char> {
    text.subrange(sign_len(text), point_at(text, sign_len(text)))
}

/// What stands after the decimal point.
pub open spec fn fraction_digits(text: Seq<char>) -> Seq<char> {
    let point = point_at(text, sign_len(text));
    if point < text.len() {
        text.subrange(point + 1, text.len() as int)
    } else {
        Seq::empty()
    }
}

/// Whether `text` writes a decimal number: an optional sign, digits, and
/// optionally a point and more digits, with at least one digit in all.
pub open spec fn is_decimal(text: Seq<char>) -> bool {
    &&& all_digits(whole_digits(text))
    &&& all_digits(fraction_digits(text))
    &&& whole_digits(text).len() + fraction_digits(text).len() > 0
}

/// The number that a decimal `text` writes, in ten-thousandths, rounded to
/// the nearest whole count with halves going away from zero.
pub open spec fn decimal_amount(text: Seq<char>) -> int {
    let digits = whole_digits(text) + fraction_digits(text);
    let magnitude = digits_value(digits) as int * SCALE as int;
    round_half_away(
        if is_negative(text) {
            -magnitude
        } else {
            magnitude
        },
        pow10(fraction_digits(text).len()) as int,
    )
}

/// The amount that `text` writes, if it writes a decimal number whose
/// rounded amount fits the fixed-point representation.
pub open spec fn amount_of_text(text: Seq<char>) -> Option<i64> {
    if is_decimal(text) && i64::MIN <= decimal_amount(text) <= i64::MAX {
        Some(decimal_amount(text) as i64)
    } else {
        None
    }
}

/// Reads a decimal number as an amount in ten-thousandths.
///
/// The text is an optional sign, digits, and optionally a point and more
/// digits, with at least one digit in all and nothing else. Digits after
/// the fourth decimal place are rounded away, a half or more going away
/// from zero. A text of another form, or a number whose rounded amount does
/// not fit, is malformed.
pub fn parse_amount(text: &str) -> (amount: Result<i64, ProcessError>)
    ensures
        amount == match amount_of_text(text@) {
            Some(value) => Ok::<i64, ProcessError>(value),
            None => Err(ProcessError::MalformedTransaction),
        },
{
    if !text.is_ascii() {
        proof {
            if is_decimal(text@) {
                lemma_decimal_is_ascii(text@);
            }
        }
        return Err(ProcessError::MalformedTransaction);
    }
    let (negative, start) = read_sign(text);
    let magnitude = match read_magnitude(text, start) {
        Some(magnitude) => magnitude,
        None => {
            proof {
                if is_decimal(text@) {
                    lemma_amount_by_digits(text@);
                }
            }
            return Err(ProcessError::MalformedTransaction);
        },
    };
    proof {
        lemma_amount_by_digits(text@);
    }
    if negative {
        if magnitude > LIMIT {
            Err(ProcessError::MalformedTransaction)
        } else if magnitude == LIMIT {
            Ok(i64::MIN)
        } else {
            Ok(-(magnitude as i64))
        }
    } else {
        if magnitude >= LIMIT {
            Err(ProcessError::MalformedTransaction)
        } else {
            Ok(magnitude as i64)
        }
    }
}

/// The four digits that write a number of ten-thousandths below one unit.
pub open spec fn places_of(n: nat) -> Seq<char> {
    seq![
        digit_char(n / 1000 % 10),
        digit_char(n / 100 % 10),
        digit_char(n / 10 % 10),
        digit_char(n % 10),
    ]
}

/// An amount in decimal notation: a minus sign if it is negative, its whole
/// units, the point, and its four decimal places.
pub open spec fn text_of_amount(amount: int) -> Seq<char> {
    let magnitude = (if amount < 0 {
        -amount
    } else {
        amount
    }) as nat;
    let sign = if amount < 0 {
        seq!['-']
    } else {
        Seq::<char>::empty()
    };
    sign + digits_of(magnitude / 10_000) + seq!['.'] + places_of(magnitude % 10_000)
}

/// Splits an amount in its sign, its whole units and its ten-thousandths,
/// as they are written in decimal notation.
pub fn split_amount(amount: i64) -> (parts: (bool, u64, u16))
    ensures
        parts.0 == (amount < 0),
        parts.2 < SCALE,
        amount == if amount < 0 {
            -(parts.1 * SCALE + parts.2)
        } else {
            parts.1 * SCALE + parts.2
        },
{
    let magnitude: u64 = if amount < 0 {
        (-(amount + 1)) as u64 + 1
    } else {
        amount as u64
    };
    (amount < 0, magnitude / 10_000, (magnitude % 10_000) as u16)
}

/// Writes an amount in decimal notation, with its four decimal places.
pub fn format_amount(amount: i64) -> (text: String)
    ensures
        text@ == text_of_amount(amount as int),
{
    let (negative, units, rest) = split_amount(amount);
    let mut text = String::new();
    if negative {
        proof {
            reveal_strlit("-");
        }
        text.append("-");
    }
    write_number(&mut text, units);
    proof {
        reveal_strlit(".");
    }
    text.append(".");
    text.append(digit_text((rest / 1000 % 10) as u8));
    text.append(digit_text((rest / 100 % 10) as u8));
    text.append(digit_text((rest / 10 % 10) as u8));
    text.append(digit_text((rest % 10) as u8));
    proof {
        let magnitude = (if amount < 0 {
            -amount
        } else {
            amount as int
        }) as nat;
        assert(units == magnitude / 10_000 && rest == magnitude % 10_000) by (nonlinear_arith)
            requires
                magnitude == units * 10_000 + rest,
                0 <= rest < 10_000,
        ;
    }
    text
}

proof fn lemma_places_of(n: nat)
    requires
        n < 10_000,
    ensures
        places_of(n).len() == 4,
        all_digits(places_of(n)),
        digits_value(places_of(n)) == n,
{
    let a = n / 1000 % 10;
    let b = n / 100 % 10;
    let c = n / 10 % 10;
    let d = n % 10;
    lemma_digit_char(a);
    lemma_digit_char(b);
    lemma_digit_char(c);
    lemma_digit_char(d);
    let s4 = places_of(n);
    let s3 = seq![digit_char(a), digit_char(b), digit_char(c)];
    let s2 = seq![digit_char(a), digit_char(b)];
    let s1 = seq![digit_char(a)];
    assert(s4.drop_last() =~= s3);
    assert(s3.drop_last() =~= s2);
    assert(s2.drop_last() =~= s1);
    assert(digits_value(s1.drop_last()) == 0);
    assert(digits_value(s1) == a);
    assert(digits_value(s2) == 10 * a + b);
    assert(digits_value(s3) == 100 * a + 10 * b + c);
}

/// What is written reads back: the text of an amount is a decimal number,
/// and that number is the amount.
pub proof fn lemma_text_reads_back(amount: i64)
    ensures
        is_decimal(text_of_amount(amount as int)),
        fraction_digits(text_of_amount(amount as int)).len() == 4,
        amount_of_text(text_of_amount(amount as int)) == Some(amount),
{
    let text = text_of_amount(amount as int);
    let magnitude = (if amount < 0 {
        -amount
    } else {
        amount as int
    }) as nat;
    let units = magnitude / 10_000;
    let rest = magnitude % 10_000;
    let whole = digits_of(units);
    let places = places_of(rest);
    lemma_digits_of(units);
    lemma_places_of(rest);
    let start = sign_len(text);
    let stop = start + whole.len();
    assert(text.subrange(start, stop) =~= whole);
    assert(text[stop] == '.');
    lemma_whole_read(text, stop);
    assert(whole_digits(text) == whole);
    assert(fraction_digits(text) == places);
    lemma_amount_by_digits(text);
    lemma_digits_value_concat(whole, places);
    lemma_scaled_of_four_places(whole, places);
    assert(pow10(4) == 10_000) by {
        reveal_with_fuel(pow10, 5);
    }
    assert(units * 10_000 + rest == magnitude);
}

} // verus!
