//! Strings of decimal digits and the numbers they write.

use vstd::prelude::*;
use vstd::string::{StrSliceExecFns, StringExecFns};

verus! {

/// Ten to the power `n`.
pub open spec fn pow10(n: nat) -> nat
    decreases n,
{
    if n == 0 {
        1
    } else {
        10 * pow10((n - 1) as nat)
    }
}

/// Whether `c` is one of the ten decimal digits.
pub open spec fn is_digit(c: char) -> bool {
    '0' <= c <= '9'
}

/// The number that a digit stands for.
pub open spec fn digit_value(c: char) -> nat {
    (c as int - '0' as int) as nat
}

/// The digit that writes a number below ten.
pub open spec fn digit_char(d: nat) -> char {
    if d == 0 {
        '0'
    } else if d == 1 {
        '1'
    } else if d == 2 {
        '2'
    } else if d == 3 {
        '3'
    } else if d == 4 {
        '4'
    } else if d == 5 {
        '5'
    } else if d == 6 {
        '6'
    } else if d == 7 {
        '7'
    } else if d == 8 {
        '8'
    } else {
        '9'
    }
}

/// Whether `s` holds digits only.
pub open spec fn all_digits(s: Seq<char>) -> bool {
    forall|i: int| 0 <= i < s.len() ==> is_digit(#[trigger] s[i])
}

/// The number that a string of digits writes in base ten; 0 for none.
pub open spec fn digits_value(s: Seq<char>) -> nat
    decreases s.len(),
{
    if s.len() == 0 {
        0
    } else {
        10 * digits_value(s.drop_last()) + digit_value(s.last())
    }
}

/// The digits that write `n` in base ten, without zeros in front; one zero
/// for 0.
pub open spec fn digits_of(n: nat) -> Seq<char>
    decreases n,
{
    if n < 10 {
        seq![digit_char(n)]
    } else {
        digits_of(n / 10).push(digit_char(n % 10))
    }
}

/// Every power of ten is positive.
pub proof fn lemma_pow10_positive(n: nat)
    ensures
        pow10(n) > 0,
    decreases n,
{
    if n > 0 {
        lemma_pow10_positive((n - 1) as nat);
    }
}

/// Powers of ten multiply as their exponents add.
pub proof fn lemma_pow10_sum(a: nat, b: nat)
    ensures
        pow10(a + b) == pow10(a) * pow10(b),
    decreases a,
{
    if a == 0 {
        assert(pow10(0) * pow10(b) == pow10(b)) by (nonlinear_arith)
            requires
                pow10(0) == 1,
        ;
    } else {
        lemma_pow10_sum((a - 1) as nat, b);
        assert(10 * (pow10((a - 1) as nat) * pow10(b)) == (10 * pow10((a - 1) as nat)) * pow10(b))
            by (nonlinear_arith);
    }
}

/// The digit that writes a number below ten stands for that number.
pub proof fn lemma_digit_char(d: nat)
    requires
        d < 10,
    ensures
        is_digit(digit_char(d)),
        digit_value(digit_char(d)) == d,
{
}

/// Two strings of digits written one after the other: the first is worth
/// as many times ten more as the second has digits.
pub proof fn lemma_digits_value_concat(a: Seq<char>, b: Seq<char>)
    ensures
        digits_value(a + b) == digits_value(a) * pow10(b.len()) + digits_value(b),
    decreases b.len(),
{
    if b.len() == 0 {
        assert(digits_value(a) * pow10(0) == digits_value(a)) by (nonlinear_arith)
            requires
                pow10(0) == 1,
        ;
    } else {
        let front = b.drop_last();
        assert((a + b).drop_last() =~= a + front);
        lemma_digits_value_concat(a, front);
        let x = digits_value(a) as int;
        let p = pow10(front.len()) as int;
        let y = digits_value(front) as int;
        assert(10 * (x * p + y) == x * (10 * p) + 10 * y) by (nonlinear_arith);
    }
}

/// A string of `n` digits writes a number below ten to the `n`.
pub proof fn lemma_digits_value_bound(s: Seq<char>)
    requires
        all_digits(s),
    ensures
        digits_value(s) < pow10(s.len()),
    decreases s.len(),
{
    if s.len() > 0 {
        lemma_digits_value_bound(s.drop_last());
    }
}

/// The digits that write a number are digits, at least one, and write
/// that number.
pub proof fn lemma_digits_of(n: nat)
    ensures
        digits_of(n).len() > 0,
        all_digits(digits_of(n)),
        digits_value(digits_of(n)) == n,
    decreases n,
{
    if n < 10 {
        lemma_digit_char(n);
        assert(digits_value(digits_of(n).drop_last()) == 0);
    } else {
        lemma_digits_of(n / 10);
        lemma_digit_char(n % 10);
        let front = digits_of(n / 10);
        assert(digits_of(n).drop_last() =~= front);
    }
}

/// The ASCII code of the digit 0.
const ZERO: u8 = 48;

/// The ASCII code of the digit 9.
const NINE: u8 = 57;

/// The digit at place `i`, if a digit stands there.
pub(crate) fn digit_at(text: &str, i: usize) -> (digit: Option<u8>)
    requires
        text.is_ascii(),
        i < text@.len(),
    ensures
        match digit {
            Some(v) => is_digit(text@[i as int]) && v == digit_value(text@[i as int]),
            None => !is_digit(text@[i as int]),
        },
{
    let b = text.get_ascii(i);
    if b >= ZERO && b <= NINE {
        Some(b - ZERO)
    } else {
        None
    }
}

/// The text of one digit.
pub(crate) fn digit_text(d: u8) -> (text: &'static str)
    requires
        d < 10,
    ensures
        text@ == seq![digit_char(d as nat)],
{
    proof {
        reveal_strlit("0");
        reveal_strlit("1");
        reveal_strlit("2");
        reveal_strlit("3");
        reveal_strlit("4");
        reveal_strlit("5");
        reveal_strlit("6");
        reveal_strlit("7");
        reveal_strlit("8");
        reveal_strlit("9");
    }
    match d {
        0 => "0",
        1 => "1",
        2 => "2",
        3 => "3",
        4 => "4",
        5 => "5",
        6 => "6",
        7 => "7",
        8 => "8",
        _ => "9",
    }
}

/// Writes the digits of `n` at the end of `text`.
pub(crate) fn write_number(text: &mut String, n: u64)
    ensures
        final(text)@ == old(text)@ + digits_of(n as nat),
    decreases n,
{
    if n >= 10 {
        write_number(text, n / 10);
    }
    text.append(digit_text((n % 10) as u8));
    proof {
        if n >= 10 {
            assert(old(text)@ + digits_of(n as nat) =~= (old(text)@ + digits_of((n / 10) as nat))
                + seq![digit_char((n % 10) as nat)]);
        }
    }
}

} // verus!
