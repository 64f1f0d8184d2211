//! Reading a number literal as an exact decimal.

use vstd::prelude::*;
use crate::chars::chars_of;
use crate::error::{JsonError, JsonErrorView};
use crate::grammar::{
    digits_end, exponent_digits_start, fraction_end, has_char_at, integer_end, is_digit,
    is_number_literal,
};
use crate::lexer::number_literal_end;
use crate::value::Number;

verus! {

/// The value of a decimal digit; zero for any other character.
pub open spec fn digit_value(c: char) -> nat {
    if is_digit(c) {
        (c as u32 - 48) as nat
    } else {
        0
    }
}

/// The number written by `acc` followed by the digits `s[from..to]`.
pub open spec fn digits_value(acc: nat, s: Seq<char>, from: int, to: int) -> nat
    decreases to - from,
{
    if from >= to {
        acc
    } else {
        digits_value(acc * 10 + digit_value(s[from]), s, from + 1, to)
    }
}

/// What a number literal says, with no bound on its parts.
pub ghost struct Decimal {
    pub negative: bool,
    /// The digits of the integer part and of the fraction, read as one number.
    pub mantissa: nat,
    /// How many digits the fraction has.
    pub fraction_digits: nat,
    /// The exponent as it is written; zero if there is none.
    pub written_exponent: int,
}

impl Decimal {
    /// The power of ten by which the mantissa is scaled.
    pub open spec fn exponent(self) -> int {
        self.written_exponent - self.fraction_digits
    }

    /// Whether a [`Number`] can hold this decimal: the mantissa fits in 64
    /// bits, and the written exponent, its negation and the scaled exponent
    /// fit in 64 bits with a sign.
    pub open spec fn representable(self) -> bool {
        &&& self.mantissa <= u64::MAX
        &&& -i64::MAX <= self.written_exponent <= i64::MAX
        &&& i64::MIN <= self.exponent() <= i64::MAX
    }

    pub open spec fn to_number(self) -> Number {
        Number {
            negative: self.negative,
            mantissa: self.mantissa as u64,
            exponent: self.exponent() as i64,
        }
    }
}

/// The parts of the number literal `text`.
pub open spec fn literal_value(text: Seq<char>) -> Decimal
    recommends
        is_number_literal(text),
{
    let negative = has_char_at(text, 0, '-');
    let a: int = if negative { 1 } else { 0 };
    let b = integer_end(text, 0)->0;
    let c = fraction_end(text, b)->0;
    let whole = digits_value(0, text, a, b);
    let d = exponent_digits_start(text, c);
    let magnitude = digits_value(0, text, d, text.len() as int);
    Decimal {
        negative,
        mantissa: if c > b { digits_value(whole, text, b + 1, c) } else { whole },
        fraction_digits: if c > b { (c - b - 1) as nat } else { 0 },
        written_exponent: if c >= text.len() {
            0
        } else if has_char_at(text, c + 1, '-') {
            -(magnitude as int)
        } else {
            magnitude as int
        },
    }
}

/// The number that the text of a number token stands for: `InvalidLiteral` if
/// the text is no number literal, `NumberOutOfRange` if its value is not
/// representable.
pub open spec fn number_of(text: Seq<char>) -> Result<Number, JsonErrorView> {
    if !is_number_literal(text) {
        Err(JsonErrorView::InvalidLiteral)
    } else if !literal_value(text).representable() {
        Err(JsonErrorView::NumberOutOfRange)
    } else {
        Ok(literal_value(text).to_number())
    }
}

/// Reading more digits never makes the number smaller.
pub proof fn lemma_digits_value_grows(acc: nat, s: Seq<char>, from: int, to: int)
    ensures
        digits_value(acc, s, from, to) >= acc,
    decreases to - from,
{
    if from < to {
        lemma_digits_value_grows(acc * 10 + digit_value(s[from]), s, from + 1, to);
    }
}

/// Reads the digits `chars[from..to]` after `acc`; `None` if the result does
/// not fit in 64 bits.
pub fn read_digits(acc: u64, chars: &Vec<char>, from: usize, to: usize) -> (r: Option<u64>)
    requires
        from <= to <= chars@.len(),
    ensures
        match r {
            Some(v) => v == digits_value(acc as nat, chars@, from as int, to as int),
            None => digits_value(acc as nat, chars@, from as int, to as int) > u64::MAX,
        },
{
    let mut value: u64 = acc;
    let mut k: usize = from;
    while k < to
        invariant
            from <= k <= to <= chars@.len(),
            digits_value(acc as nat, chars@, from as int, to as int) == digits_value(
                value as nat,
                chars@,
                k as int,
                to as int,
            ),
        decreases to - k,
    {
        let u: u32 = chars[k] as u32;
        let digit: u64 = if 48 <= u && u <= 57 {
            (u - 48) as u64
        } else {
            0
        };
        if value > (u64::MAX - digit) / 10 {
            proof {
                lemma_digits_value_grows(
                    (value * 10 + digit) as nat,
                    chars@,
                    k + 1,
                    to as int,
                );
            }
            return None;
        }
        value = value * 10 + digit;
        k += 1;
    }
    Some(value)
}

/// Reads the text of a number token.
pub fn read_number(text: &str) -> (r: Result<Number, JsonError>)
    ensures
        match number_of(text@) {
            Ok(n) => r is Ok && r->Ok_0 == n,
            Err(e) => r is Err && r->Err_0@ == e,
        },
{
    let chars = chars_of(text);
    let n: usize = chars.len();
    match number_literal_end(&chars, 0) {
        Some(e) => {
            if e != n {
                return Err(JsonError::InvalidLiteral);
            }
        },
        None => {
            return Err(JsonError::InvalidLiteral);
        },
    }
    let negative: bool = chars[0] == '-';
    let a: usize = if negative { 1 } else { 0 };
    let mut b: usize = a + 1;
    if chars[a] != '0' {
        while b < n && 48 <= chars[b] as u32 && chars[b] as u32 <= 57
            invariant
                a < b <= n,
                n == chars@.len(),
                digits_end(chars@, a as int) == digits_end(chars@, b as int),
            decreases n - b,
        {
            b += 1;
        }
    }
    let mut c: usize = b;
    if b < n && chars[b] == '.' {
        c = b + 1;
        while c < n && 48 <= chars[c] as u32 && chars[c] as u32 <= 57
            invariant
                b < c <= n,
                n == chars@.len(),
                digits_end(chars@, b + 1) == digits_end(chars@, c as int),
            decreases n - c,
        {
            c += 1;
        }
    }
    assert(integer_end(chars@, 0) == Some(b as int));
    assert(fraction_end(chars@, b as int) == Some(c as int));
    let whole: u64 = match read_digits(0, &chars, a, b) {
        Some(v) => v,
        None => {
            proof {
                if c > b {
                    lemma_digits_value_grows(
                        digits_value(0, chars@, a as int, b as int),
                        chars@,
                        b + 1,
                        c as int,
                    );
                }
            }
            return Err(JsonError::NumberOutOfRange);
        },
    };
    let mantissa: u64 = if c > b {
        match read_digits(whole, &chars, b + 1, c) {
            Some(v) => v,
            None => {
                return Err(JsonError::NumberOutOfRange);
            },
        }
    } else {
        whole
    };
    let fraction_digits: usize = if c > b { c - b - 1 } else { 0 };
    let mut written: i128 = 0;
    if c < n {
        let minus: bool = c + 1 < n && chars[c + 1] == '-';
        let d: usize = if c + 1 < n && (chars[c + 1] == '+' || chars[c + 1] == '-') {
            c + 2
        } else {
            c + 1
        };
        assert(d == exponent_digits_start(chars@, c as int));
        let magnitude: u64 = match read_digits(0, &chars, d, n) {
            Some(v) => v,
            None => {
                return Err(JsonError::NumberOutOfRange);
            },
        };
        if magnitude > 0x7FFF_FFFF_FFFF_FFFF {
            return Err(JsonError::NumberOutOfRange);
        }
        written = if minus { -(magnitude as i128) } else { magnitude as i128 };
    }
    let exponent: i128 = written - (fraction_digits as i128);
    if exponent < -0x8000_0000_0000_0000 || exponent > 0x7FFF_FFFF_FFFF_FFFF {
        return Err(JsonError::NumberOutOfRange);
    }
    Ok(Number { negative, mantissa, exponent: exponent as i64 })
}

} // verus!
