//! The steps of reading a decimal number, and why the digits read give
//! the rounded amount.

use vstd::arithmetic::div_mod::lemma_fundamental_div_mod_converse;
use vstd::prelude::*;
use vstd::string::{is_ascii_spec_bytes, StrSliceExecFns};
use vstd::utf8::is_ascii_chars;
use crate::amount::{
    decimal_amount, fraction_digits, is_decimal, is_negative, point_at, round_half_away, sign_len,
    whole_digits, PLACES,
};
use crate::digits::{
    all_digits, digit_at, digit_value, digits_value, is_digit, lemma_digits_value_bound,
    lemma_digits_value_concat, lemma_pow10_positive, lemma_pow10_sum, pow10,
};

verus! {

/// The digits of a fraction that remain after rounding: the first four.
pub(super) open spec fn kept(fraction: Seq<char>) -> Seq<char> {
    if fraction.len() > 4 {
        fraction.take(4)
    } else {
        fraction
    }
}

/// Whether the digits that rounding drops amount to a half or more: the
/// fifth digit is 5 or greater.
pub(super) open spec fn rounds_up(fraction: Seq<char>) -> bool {
    fraction.len() > 4 && digit_value(fraction[4]) >= 5
}

/// The rounded count of ten-thousandths, as the digits give it: the whole
/// digits and the kept digits, filled up with zeros to four places, and one
/// more when the dropped digits round up.
pub(super) open spec fn scaled(whole: Seq<char>, fraction: Seq<char>) -> nat {
    digits_value(whole + kept(fraction)) * pow10((4 - kept(fraction).len()) as nat) + if rounds_up(
        fraction,
    ) {
        1nat
    } else {
        0nat
    }
}

proof fn lemma_pow10_of_4()
    ensures
        pow10(4) == 10_000,
{
    reveal_with_fuel(pow10, 5);
}

/// Rounding half away from zero at the fourth place comes to looking at
/// the fifth digit.
proof fn lemma_rounding_by_digits(whole: Seq<char>, fraction: Seq<char>)
    requires
        all_digits(whole),
        all_digits(fraction),
    ensures
        round_half_away(
            digits_value(whole + fraction) as int * 10_000,
            pow10(fraction.len()) as int,
        ) == scaled(whole, fraction),
{
    let k = fraction.len();
    let n = digits_value(whole + fraction) as int;
    let d = pow10(k) as int;
    lemma_pow10_positive(k);
    lemma_pow10_of_4();
    if k <= 4 {
        let e = (4 - k) as nat;
        let pe = pow10(e) as int;
        lemma_pow10_sum(k, e);
        assert(d * pe == 10_000);
        let q = n * pe;
        let x = 2 * (n * 10_000) + d;
        assert(x == q * (2 * d) + d) by (nonlinear_arith)
            requires
                x == 2 * (n * 10_000) + d,
                q == n * pe,
                d * pe == 10_000,
        ;
        lemma_fundamental_div_mod_converse(x, 2 * d, q, d);
    } else {
        let j = (k - 4) as nat;
        let pj = pow10(j) as int;
        let head = whole + fraction.take(4);
        let tail = fraction.skip(4);
        assert(whole + fraction =~= head + tail);
        lemma_digits_value_concat(head, tail);
        let a = digits_value(head) as int;
        let b = digits_value(tail) as int;
        assert(n == a * pj + b);
        assert forall|i: int| 0 <= i < tail.len() implies is_digit(#[trigger] tail[i]) by {
            assert(tail[i] == fraction[i + 4]);
        }
        lemma_digits_value_bound(tail);
        assert(b < pj);
        lemma_pow10_sum(4, j);
        assert(d == 10_000 * pj);
        // the first dropped digit decides
        let first = tail.take(1);
        let rest = tail.skip(1);
        assert(tail =~= first + rest);
        lemma_digits_value_concat(first, rest);
        assert(first.drop_last() =~= Seq::<char>::empty());
        assert(digits_value(first) == digit_value(fraction[4])) by {
            assert(first.last() == fraction[4]);
            assert(digits_value(first.drop_last()) == 0);
        }
        assert forall|i: int| 0 <= i < rest.len() implies is_digit(#[trigger] rest[i]) by {
            assert(rest[i] == fraction[i + 5]);
        }
        lemma_digits_value_bound(rest);
        let f = digit_value(fraction[4]) as int;
        let pr = pow10(rest.len()) as int;
        let c = digits_value(rest) as int;
        assert(is_digit(fraction[4]));
        assert(0 <= f <= 9);
        assert(pj == 10 * pr);
        assert(b == f * pr + c);
        assert(0 <= c < pr);
        let up: int = if rounds_up(fraction) { 1 } else { 0 };
        assert(up == 1 <==> 2 * b >= pj) by (nonlinear_arith)
            requires
                b == f * pr + c,
                0 <= c < pr,
                pj == 10 * pr,
                up == 1 <==> f >= 5,
                0 <= f <= 9,
        ;
        let q = a + up;
        let x = 2 * (n * 10_000) + d;
        let r = x - q * (2 * d);
        assert(r == 10_000 * (2 * b + pj - up * (2 * pj))) by (nonlinear_arith)
            requires
                r == x - q * (2 * d),
                x == 2 * (n * 10_000) + d,
                n == a * pj + b,
                d == 10_000 * pj,
                q == a + up,
        ;
        assert(0 <= r < 2 * d) by (nonlinear_arith)
            requires
                r == 10_000 * (2 * b + pj - up * (2 * pj)),
                d == 10_000 * pj,
                up == 1 <==> 2 * b >= pj,
                up == 0 || up == 1,
                0 <= b < pj,
        ;
        lemma_fundamental_div_mod_converse(x, 2 * d, q, r);
        assert(kept(fraction) == fraction.take(4));
        assert(pow10(0) == 1);
        assert(a * 1 == a);
    }
}

/// The ASCII code of the minus sign.
const MINUS: u8 = 45;

/// The ASCII code of the plus sign.
const PLUS: u8 = 43;

/// The ASCII code of the decimal point.
const POINT: u8 = 46;

/// The magnitude of the least amount, which no magnitude may exceed.
pub(super) const LIMIT: u128 = 9_223_372_036_854_775_808;

/// The first decimal point after a run of digits is the first one after
/// its beginning.
proof fn lemma_point_skips_digits(text: Seq<char>, from: int, to: int)
    requires
        0 <= from <= to <= text.len(),
        all_digits(text.subrange(from, to)),
    ensures
        point_at(text, from) == point_at(text, to),
    decreases to - from,
{
    if from < to {
        assert(text.subrange(from, to)[0] == text[from]);
        assert(is_digit(text[from]));
        assert forall|i: int| 0 <= i < to - (from + 1) implies is_digit(
            #[trigger] text.subrange(from + 1, to)[i],
        ) by {
            assert(text.subrange(from + 1, to)[i] == text.subrange(from, to)[i + 1]);
        }
        lemma_point_skips_digits(text, from + 1, to);
    }
}

/// Where the decimal point is found.
proof fn lemma_point_bounds(text: Seq<char>, from: int)
    requires
        0 <= from <= text.len(),
    ensures
        from <= point_at(text, from) <= text.len(),
        point_at(text, from) < text.len() ==> text[point_at(text, from)] == '.',
        forall|i: int| from <= i < point_at(text, from) ==> text[i] != '.',
    decreases text.len() - from,
{
    if from < text.len() && text[from] != '.' {
        lemma_point_bounds(text, from + 1);
    }
}

/// Every character of a decimal number is a sign, a digit or the point.
pub(super) proof fn lemma_decimal_is_ascii(text: Seq<char>)
    requires
        is_decimal(text),
    ensures
        is_ascii_chars(text),
{
    let start = sign_len(text);
    lemma_point_bounds(text, start);
    let point = point_at(text, start);
    assert forall|i: int| 0 <= i < text.len() implies '\0' <= #[trigger] text[i] <= '\u{7f}' by {
        if start <= i < point {
            assert(whole_digits(text)[i - start] == text[i]);
        } else if i > point {
            assert(fraction_digits(text)[i - point - 1] == text[i]);
        }
    }
}

/// The rounded amount of a decimal number, as its digits give it.
pub(super) proof fn lemma_amount_by_digits(text: Seq<char>)
    requires
        is_decimal(text),
    ensures
        decimal_amount(text) == if is_negative(text) {
            -(scaled(whole_digits(text), fraction_digits(text)) as int)
        } else {
            scaled(whole_digits(text), fraction_digits(text)) as int
        },
{
    let whole = whole_digits(text);
    let fraction = fraction_digits(text);
    lemma_rounding_by_digits(whole, fraction);
    let d = pow10(fraction.len()) as int;
    lemma_pow10_positive(fraction.len());
    if digits_value(whole + fraction) == 0 {
        lemma_fundamental_div_mod_converse(d, 2 * d, 0, d);
    }
}

/// The rounded count is no less than what any beginning of the whole and
/// kept digits writes.
proof fn lemma_scaled_at_least(whole: Seq<char>, fraction: Seq<char>, n: int)
    requires
        0 <= n <= whole.len() + kept(fraction).len(),
    ensures
        scaled(whole, fraction) >= digits_value((whole + kept(fraction)).take(n)),
{
    let digits = whole + kept(fraction);
    let head = digits.take(n);
    let tail = digits.skip(n);
    assert(digits =~= head + tail);
    lemma_digits_value_concat(head, tail);
    lemma_pow10_positive(tail.len());
    let places = (4 - kept(fraction).len()) as nat;
    lemma_pow10_positive(places);
    let x = digits_value(head) as int;
    let y = digits_value(digits) as int;
    let p = pow10(tail.len()) as int;
    let e = pow10(places) as int;
    assert(x * p >= x) by (nonlinear_arith)
        requires
            x >= 0,
            p >= 1,
    ;
    assert(y * e >= y) by (nonlinear_arith)
        requires
            y >= 0,
            e >= 1,
    ;
}

/// Reads digits from place `from` on, at most `most` of them, as further
/// digits of the number `value`. Returns where it stopped and the number
/// read, or `None` for a number above `LIMIT`.
fn read_digits(text: &str, from: usize, most: usize, value: u128) -> (read: (
    usize,
    Option<u128>,
))
    requires
        text.is_ascii(),
        from <= text@.len(),
        value <= LIMIT,
    ensures
        from <= read.0 <= text@.len(),
        read.0 - from <= most,
        all_digits(text@.subrange(from as int, read.0 as int)),
        match read.1 {
            Some(v) => {
                &&& v <= LIMIT
                &&& v == value * pow10((read.0 - from) as nat) + digits_value(
                    text@.subrange(from as int, read.0 as int),
                )
                &&& (read.0 == text@.len() || read.0 - from == most || !is_digit(
                    text@[read.0 as int],
                ))
            },
            None => value * pow10((read.0 - from) as nat) + digits_value(
                text@.subrange(from as int, read.0 as int),
            ) > LIMIT,
        },
{
    let n = ascii_len(text);
    let mut i = from;
    let mut total = value;
    assert(text@.subrange(from as int, from as int) =~= Seq::<char>::empty());
    assert(value * pow10(0) == value) by (nonlinear_arith)
        requires
            pow10(0) == 1,
    ;
    while i < n && i - from < most
        invariant
            text.is_ascii(),
            n == text@.len(),
            from <= i <= n,
            i - from <= most,
            total <= LIMIT,
            value <= LIMIT,
            all_digits(text@.subrange(from as int, i as int)),
            total == value * pow10((i - from) as nat) + digits_value(
                text@.subrange(from as int, i as int),
            ),
        decreases n - i,
    {
        let digit = match digit_at(text, i) {
            Some(digit) => digit,
            None => {
                return (i, Some(total));
            },
        };
        let ghost before = text@.subrange(from as int, i as int);
        let ghost after = text@.subrange(from as int, i + 1);
        proof {
            assert(after.drop_last() =~= before);
            assert(after.last() == text@[i as int]);
            assert forall|j: int| 0 <= j < after.len() implies is_digit(#[trigger] after[j]) by {
                if j < before.len() {
                    assert(after[j] == before[j]);
                }
            }
            let p = pow10((i - from) as nat) as int;
            let v = value as int;
            let dv = digits_value(before) as int;
            assert(10 * (v * p + dv) + digit == v * (10 * p) + (10 * dv + digit))
                by (nonlinear_arith);
            assert(pow10((i + 1 - from) as nat) == 10 * p);
        }
        total = total * 10 + digit as u128;
        i += 1;
        if total > LIMIT {
            return (i, None);
        }
    }
    (i, Some(total))
}

/// Whether digits only stand from place `from` on.
fn digits_only(text: &str, from: usize) -> (only: bool)
    requires
        text.is_ascii(),
        from <= text@.len(),
    ensures
        only == all_digits(text@.subrange(from as int, text@.len() as int)),
{
    let n = ascii_len(text);
    let mut i = from;
    while i < n
        invariant
            text.is_ascii(),
            n == text@.len(),
            from <= i <= n,
            forall|j: int| from <= j < i ==> is_digit(#[trigger] text@[j]),
        decreases n - i,
    {
        if digit_at(text, i).is_none() {
            assert(text@.subrange(from as int, n as int)[i - from] == text@[i as int]);
            return false;
        }
        i += 1;
    }
    assert forall|j: int| 0 <= j < n - from implies is_digit(
        #[trigger] text@.subrange(from as int, n as int)[j],
    ) by {
        assert(is_digit(text@[j + from]));
    }
    true
}

/// `value` with `places` zeros written after it, or `None` for a number
/// above `LIMIT`.
fn shift_places(value: u128, places: usize) -> (shifted: Option<u128>)
    requires
        value <= LIMIT,
        places <= 4,
    ensures
        match shifted {
            Some(v) => v <= LIMIT && v == value * pow10(places as nat),
            None => value * pow10(places as nat) > LIMIT,
        },
{
    let mut shifted = value;
    let mut done: usize = 0;
    assert(value * pow10(0) == value) by (nonlinear_arith)
        requires
            pow10(0) == 1,
    ;
    while done < places
        invariant
            done <= places <= 4,
            shifted <= LIMIT,
            shifted == value * pow10(done as nat),
        decreases places - done,
    {
        proof {
            let v = value as int;
            let p = pow10(done as nat) as int;
            assert(pow10((done + 1) as nat) == 10 * p);
            assert((v * p) * 10 == v * (10 * p)) by (nonlinear_arith);
            if shifted * 10 > LIMIT {
                lemma_pow10_positive((places - done - 1) as nat);
                lemma_pow10_sum((done + 1) as nat, (places - done - 1) as nat);
                let rest = pow10((places - done - 1) as nat) as int;
                let now = v * (10 * p);
                assert(now * rest >= now) by (nonlinear_arith)
                    requires
                        now >= 0,
                        rest >= 1,
                ;
                assert(v * ((10 * p) * rest) == (v * (10 * p)) * rest) by (nonlinear_arith);
            }
        }
        shifted = shifted * 10;
        done += 1;
        if shifted > LIMIT {
            return None;
        }
    }
    Some(shifted)
}

/// The number of characters of a string of ASCII characters.
fn ascii_len(text: &str) -> (n: usize)
    requires
        text.is_ascii(),
    ensures
        n == text@.len(),
{
    proof {
        is_ascii_spec_bytes(text);
    }
    text.as_bytes().len()
}

/// What the digits read up to a first character that is no digit say of
/// the parts of `text`.
pub(super) proof fn lemma_whole_read(text: Seq<char>, stop: int)
    requires
        sign_len(text) <= stop <= text.len(),
        all_digits(text.subrange(sign_len(text), stop)),
        stop < text.len() ==> !is_digit(text[stop]),
    ensures
        stop == text.len() ==> {
            &&& whole_digits(text) == text.subrange(sign_len(text), stop)
            &&& fraction_digits(text) == Seq::<char>::empty()
        },
        stop < text.len() && text[stop] == '.' ==> {
            &&& whole_digits(text) == text.subrange(sign_len(text), stop)
            &&& fraction_digits(text) == text.subrange(stop + 1, text.len() as int)
        },
        stop < text.len() && text[stop] != '.' ==> !is_decimal(text),
{
    let start = sign_len(text);
    lemma_point_skips_digits(text, start, stop);
    lemma_point_bounds(text, stop);
    if stop < text.len() && text[stop] != '.' {
        assert(whole_digits(text)[stop - start] == text[stop]);
    }
}

/// The rounded count of a decimal number is no less than what any
/// beginning of its whole digits writes.
proof fn lemma_whole_digits_count(text: Seq<char>, stop: int)
    requires
        is_decimal(text),
        sign_len(text) <= stop <= text.len(),
        all_digits(text.subrange(sign_len(text), stop)),
    ensures
        scaled(whole_digits(text), fraction_digits(text)) >= digits_value(
            text.subrange(sign_len(text), stop),
        ),
{
    let start = sign_len(text);
    let whole = whole_digits(text);
    let fraction = fraction_digits(text);
    lemma_point_skips_digits(text, start, stop);
    lemma_point_bounds(text, stop);
    lemma_scaled_at_least(whole, fraction, stop - start);
    assert((whole + kept(fraction)).take(stop - start) =~= text.subrange(start, stop));
}

/// The sign of `text`: whether it is a minus, and how many characters it
/// takes.
pub(super) fn read_sign(text: &str) -> (sign: (bool, usize))
    requires
        text.is_ascii(),
    ensures
        sign.0 == is_negative(text@),
        sign.1 == sign_len(text@),
{
    if ascii_len(text) == 0 {
        return (false, 0);
    }
    let first = text.get_ascii(0);
    if first == MINUS {
        (true, 1)
    } else if first == PLUS {
        (false, 1)
    } else {
        (false, 0)
    }
}

/// Reads the digits after the decimal point at place `point`, as further
/// digits of the number `whole`, and rounds to four places. Returns the
/// count of ten-thousandths, or `None` where something else than digits
/// follows the point or the count is above `LIMIT`.
fn read_fraction(text: &str, point: usize, whole: u128) -> (count: Option<u128>)
    requires
        text.is_ascii(),
        point < text@.len(),
        whole <= LIMIT,
    ensures
        ({
            let fraction = text@.subrange(point + 1, text@.len() as int);
            let exact = (whole * pow10(kept(fraction).len()) + digits_value(kept(fraction)))
                * pow10((4 - kept(fraction).len()) as nat) + if rounds_up(fraction) {
                1nat
            } else {
                0nat
            };
            match count {
                Some(c) => all_digits(fraction) && c == exact && c <= LIMIT + 1,
                None => !all_digits(fraction) || exact > LIMIT,
            }
        }),
{
    let n = ascii_len(text);
    let ghost fraction = text@.subrange(point + 1, n as int);
    let (end, value) = read_digits(text, point + 1, PLACES, whole);
    let ghost head = text@.subrange(point + 1, end as int);
    let kept_len = end - (point + 1);
    let mut round_up = false;
    assert(forall|i: int| 0 <= i < head.len() ==> head[i] == fraction[i]);
    if end < n {
        let fifth = match digit_at(text, end) {
            Some(digit) => digit,
            None => {
                assert(fraction[end - point - 1] == text@[end as int]);
                return None;
            },
        };
        if !digits_only(text, end + 1) {
            proof {
                let rest = text@.subrange(end + 1, n as int);
                assert(forall|i: int|
                    0 <= i < rest.len() ==> rest[i] == fraction[i + end - point]);
            }
            return None;
        }
        proof {
            let rest = text@.subrange(end + 1, n as int);
            assert forall|i: int| 0 <= i < fraction.len() implies is_digit(
                #[trigger] fraction[i],
            ) by {
                if i < head.len() {
                    assert(head[i] == fraction[i]);
                } else if i == head.len() {
                    assert(fraction[i] == text@[end as int]);
                } else {
                    assert(rest[i - head.len() - 1] == fraction[i]);
                }
            }
        }
        round_up = fifth >= 5;
    } else {
        assert(head =~= fraction);
    }
    assert(all_digits(fraction));
    let value = match value {
        Some(value) => value,
        None => {
            proof {
                // the digits read so far are among the kept ones
                let k = kept(fraction);
                let more = k.skip(head.len() as int);
                assert(k =~= head + more);
                lemma_digits_value_concat(head, more);
                lemma_pow10_sum(head.len(), more.len());
                lemma_pow10_positive(head.len());
                lemma_pow10_positive(more.len());
                lemma_pow10_positive((4 - k.len()) as nat);
                let w = whole as int;
                let ph = pow10(head.len()) as int;
                let pm = pow10(more.len()) as int;
                let dh = digits_value(head) as int;
                let dm = digits_value(more) as int;
                let e = pow10((4 - k.len()) as nat) as int;
                let read = w * ph + dh;
                let all = w * (ph * pm) + (dh * pm + dm);
                assert(all >= read) by (nonlinear_arith)
                    requires
                        all == w * (ph * pm) + (dh * pm + dm),
                        read == w * ph + dh,
                        w >= 0,
                        dh >= 0,
                        dm >= 0,
                        ph >= 1,
                        pm >= 1,
                ;
                assert(all * e >= all) by (nonlinear_arith)
                    requires
                        all >= 0,
                        e >= 1,
                ;
            }
            return None;
        },
    };
    assert(kept(fraction) =~= head);
    assert(round_up == rounds_up(fraction)) by {
        if end < n {
            assert(fraction[4] == text@[end as int]);
        }
    }
    let shifted = match shift_places(value, PLACES - kept_len) {
        Some(shifted) => shifted,
        None => {
            return None;
        },
    };
    if round_up {
        Some(shifted + 1)
    } else {
        Some(shifted)
    }
}

/// Reads the number that follows the sign and rounds it to four places.
/// Returns the count of ten-thousandths, or `None` where `text` is no
/// decimal number or the count is above `LIMIT`.
pub(super) fn read_magnitude(text: &str, start: usize) -> (count: Option<u128>)
    requires
        text.is_ascii(),
        start == sign_len(text@),
    ensures
        match count {
            Some(c) => {
                &&& is_decimal(text@)
                &&& c == scaled(whole_digits(text@), fraction_digits(text@))
                &&& c <= LIMIT + 1
            },
            None => !is_decimal(text@) || scaled(whole_digits(text@), fraction_digits(text@))
                > LIMIT,
        },
{
    let n = ascii_len(text);
    let (stop, whole) = read_digits(text, start, n, 0);
    let ghost digits = text@.subrange(start as int, stop as int);
    assert(0 * pow10((stop - start) as nat) == 0) by (nonlinear_arith);
    let whole = match whole {
        Some(whole) => whole,
        None => {
            proof {
                if is_decimal(text@) {
                    lemma_whole_digits_count(text@, stop as int);
                }
            }
            return None;
        },
    };
    proof {
        lemma_whole_read(text@, stop as int);
    }
    if stop == n {
        if stop == start {
            return None;
        }
        proof {
            assert(digits + Seq::<char>::empty() =~= digits);
            assert(all_digits(Seq::<char>::empty()));
        }
        return shift_places(whole, PLACES);
    }
    if text.get_ascii(stop) != POINT {
        return None;
    }
    let count = read_fraction(text, stop, whole);
    proof {
        let fraction = text@.subrange(stop + 1, n as int);
        lemma_digits_value_concat(digits, kept(fraction));
    }
    if stop == start && stop + 1 == n {
        return None;
    }
    count
}

/// With exactly four decimal places nothing is rounded: the count is what
/// the whole digits and the four places write together.
pub(super) proof fn lemma_scaled_of_four_places(whole: Seq<char>, places: Seq<char>)
    requires
        places.len() == 4,
    ensures
        scaled(whole, places) == digits_value(whole + places),
{
    let value = digits_value(whole + places) as int;
    assert(pow10(0) == 1);
    assert(value * 1 == value);
}

} // verus!
