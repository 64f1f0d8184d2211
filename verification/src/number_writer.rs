//! Writing a number as a literal that reads back as the number.

use vstd::prelude::*;
use crate::error::JsonErrorView;
use crate::grammar::{
    digits_end, exponent_digits_start, exponent_end, fraction_end, has_digit_at, integer_end,
    is_digit, is_number_literal,
};
use crate::number::{digit_value, digits_value, literal_value, number_of};
use crate::value::Number;
use crate::writer::{lemma_text_split, text_at};

verus! {

/// The character of a decimal digit.
pub open spec fn digit_char(d: nat) -> char {
    if d == 0 {
        '0'
    } else if d == 1 {
        '1'
    } else if d == 2 {
        '2'
    } else if d == 3 {
        '3'
    } else if d == 4 {
        '4'
    } else if d == 5 {
        '5'
    } else if d == 6 {
        '6'
    } else if d == 7 {
        '7'
    } else if d == 8 {
        '8'
    } else {
        '9'
    }
}

/// The decimal digits of `m`, without leading zeros.
pub open spec fn decimal(m: nat) -> Seq<char>
    decreases m,
{
    if m < 10 {
        seq![digit_char(m)]
    } else {
        decimal(m / 10).push(digit_char(m % 10))
    }
}

/// A minus sign, if there is one to write.
pub open spec fn sign_text(negative: bool) -> Seq<char> {
    if negative {
        seq!['-']
    } else {
        Seq::empty()
    }
}

/// A literal for `n`: its mantissa, then `e` and its exponent. The least
/// exponent cannot be written after `e`; for it the last digit of the mantissa
/// is written as a fraction.
pub open spec fn number_text(n: Number) -> Seq<char> {
    if n.exponent == i64::MIN {
        sign_text(n.negative) + decimal((n.mantissa / 10) as nat) + seq![
            '.',
            digit_char((n.mantissa % 10) as nat),
            'e',
            '-',
        ] + decimal(i64::MAX as nat)
    } else {
        sign_text(n.negative) + decimal(n.mantissa as nat) + seq!['e'] + sign_text(n.exponent < 0)
            + decimal(
            (if n.exponent < 0 {
                -n.exponent
            } else {
                n.exponent as int
            }) as nat,
        )
    }
}

proof fn lemma_decimal_shape(m: nat)
    ensures
        decimal(m).len() >= 1,
        (decimal(m).len() == 1) == (m < 10),
        m >= 1 ==> decimal(m)[0] != '0',
        forall|k: int| 0 <= k < decimal(m).len() ==> is_digit(#[trigger] decimal(m)[k]),
    decreases m,
{
    if m >= 10 {
        lemma_decimal_shape(m / 10);
        assert(decimal(m)[0] == decimal(m / 10)[0]);
        assert forall|k: int| 0 <= k < decimal(m).len() implies is_digit(#[trigger] decimal(m)[k]) by {
            if k < decimal(m / 10).len() {
                assert(decimal(m)[k] == decimal(m / 10)[k]);
            }
        }
    }
}

proof fn lemma_digits_value_append(acc: nat, s: Seq<char>, from: int, to: int)
    requires
        from <= to,
    ensures
        digits_value(acc, s, from, to + 1) == digits_value(acc, s, from, to) * 10 + digit_value(
            s[to],
        ),
    decreases to - from,
{
    if from < to {
        lemma_digits_value_append(acc * 10 + digit_value(s[from]), s, from + 1, to);
    } else {
        assert(digits_value(acc * 10 + digit_value(s[from]), s, from + 1, to + 1) == acc * 10
            + digit_value(s[from]));
    }
}

proof fn lemma_decimal_value(s: Seq<char>, i: int, m: nat)
    requires
        text_at(s, i, decimal(m)),
    ensures
        digits_value(0, s, i, i + decimal(m).len()) == m,
    decreases m,
{
    let len = decimal(m).len() as int;
    assert(s[i + (len - 1)] == decimal(m)[len - 1]);
    if m < 10 {
        assert(digits_value(0, s, i, i + 1) == digits_value(digit_value(s[i]), s, i + 1, i + 1));
    } else {
        lemma_decimal_shape(m / 10);
        assert forall|k: int| 0 <= k < decimal(m / 10).len() implies s[i + k] == #[trigger] decimal(
            m / 10,
        )[k] by {
            assert(decimal(m)[k] == decimal(m / 10)[k]);
        }
        lemma_decimal_value(s, i, m / 10);
        lemma_digits_value_append(0, s, i, i + len - 1);
    }
}

proof fn lemma_digits_block(s: Seq<char>, a: int, b: int)
    requires
        0 <= a <= b <= s.len(),
        forall|k: int| a <= k < b ==> is_digit(#[trigger] s[k]),
        b == s.len() || !is_digit(s[b]),
    ensures
        digits_end(s, a) == b,
    decreases b - a,
{
    if a < b {
        lemma_digits_block(s, a + 1, b);
    }
}

/// The digits of `m` standing at `a`, and no digit after them, are one block
/// of digits.
proof fn lemma_decimal_block(s: Seq<char>, a: int, m: nat)
    requires
        text_at(s, a, decimal(m)),
        a + decimal(m).len() == s.len() || !is_digit(s[a + decimal(m).len()]),
    ensures
        has_digit_at(s, a),
        digits_end(s, a) == a + decimal(m).len(),
        s[a] == '0' ==> decimal(m).len() == 1,
        digits_value(0, s, a, a + decimal(m).len()) == m,
{
    lemma_decimal_shape(m);
    lemma_decimal_value(s, a, m);
    assert(s[a + 0] == decimal(m)[0]);
    assert forall|k: int| a <= k < a + decimal(m).len() implies is_digit(#[trigger] s[k]) by {
        assert(s[a + (k - a)] == decimal(m)[k - a]);
    }
    lemma_digits_block(s, a, a + decimal(m).len());
}

#[verifier::rlimit(60)]
proof fn lemma_least_exponent_reads_back(n: Number)
    requires
        n.exponent == i64::MIN,
    ensures
        number_of(number_text(n)) == Ok::<Number, JsonErrorView>(n),
{
    let text = number_text(n);
    let sa = sign_text(n.negative);
    let a = sa.len() as int;
    assert(text_at(text, 0, text));
    let whole = (n.mantissa / 10) as nat;
    let last = (n.mantissa % 10) as nat;
    let bs = decimal(whole);
    let cs = seq!['.', digit_char(last), 'e', '-'];
    let es = decimal(i64::MAX as nat);
    lemma_decimal_shape(whole);
    lemma_decimal_shape(i64::MAX as nat);
    lemma_text_split(text, 0, sa + bs + cs, es);
    lemma_text_split(text, 0, sa + bs, cs);
    lemma_text_split(text, 0, sa, bs);
    let b = a + bs.len();
    assert(text[b + 0] == cs[0] && text[b + 1] == cs[1] && text[b + 2] == cs[2] && text[b + 3]
        == cs[3]);
    if n.negative {
        assert(text[0int + 0] == sa[0]);
    } else {
        assert(text[a + 0] == bs[0]);
    }
    lemma_decimal_block(text, a, whole);
    assert(integer_end(text, 0) == Some(b));
    assert(digits_end(text, b + 1) == b + 2) by {
        assert(digits_end(text, b + 2) == b + 2);
    }
    assert(fraction_end(text, b) == Some(b + 2));
    assert(text[(b + 4) + 0] == es[0]);
    lemma_decimal_block(text, b + 4, i64::MAX as nat);
    assert(exponent_digits_start(text, b + 2) == b + 4);
    assert(exponent_end(text, b + 2) == Some(text.len() as int));
    assert(is_number_literal(text));
    assert(digits_value(n.mantissa as nat / 10, text, b + 1, b + 2) == (n.mantissa as nat / 10)
        * 10 + last) by {
        assert(digits_value(
            (n.mantissa as nat / 10) * 10 + digit_value(text[b + 1]),
            text,
            b + 2,
            b + 2,
        ) == (n.mantissa as nat / 10) * 10 + digit_value(text[b + 1]));
    }
    assert(literal_value(text).mantissa == n.mantissa);
    assert(literal_value(text).written_exponent == -(i64::MAX as int));
}

#[verifier::rlimit(60)]
proof fn lemma_written_exponent_reads_back(n: Number)
    requires
        n.exponent != i64::MIN,
    ensures
        number_of(number_text(n)) == Ok::<Number, JsonErrorView>(n),
{
    let text = number_text(n);
    let sa = sign_text(n.negative);
    let a = sa.len() as int;
    assert(text_at(text, 0, text));
    let magnitude = (if n.exponent < 0 {
        -n.exponent
    } else {
        n.exponent as int
    }) as nat;
    let bs = decimal(n.mantissa as nat);
    let cs = seq!['e'];
    let ds = sign_text(n.exponent < 0);
    let es = decimal(magnitude);
    lemma_decimal_shape(n.mantissa as nat);
    lemma_decimal_shape(magnitude);
    lemma_text_split(text, 0, sa + bs + cs + ds, es);
    lemma_text_split(text, 0, sa + bs + cs, ds);
    lemma_text_split(text, 0, sa + bs, cs);
    lemma_text_split(text, 0, sa, bs);
    let b = a + bs.len();
    let d = b + 1 + ds.len();
    assert(text[b + 0] == cs[0]);
    if n.negative {
        assert(text[0int + 0] == sa[0]);
    } else {
        assert(text[a + 0] == bs[0]);
    }
    assert(text[d + 0] == es[0]);
    if n.exponent < 0 {
        assert(text[(b + 1) + 0] == ds[0]);
    }
    lemma_decimal_block(text, a, n.mantissa as nat);
    assert(integer_end(text, 0) == Some(b));
    assert(fraction_end(text, b) == Some(b));
    lemma_decimal_block(text, d, magnitude);
    assert(exponent_digits_start(text, b) == d);
    assert(exponent_end(text, b) == Some(text.len() as int));
    assert(is_number_literal(text));
    assert(literal_value(text).mantissa == n.mantissa);
    assert(literal_value(text).written_exponent == n.exponent);
}

/// The literal written for a number reads back as the number.
pub proof fn law_number_reads_back(n: Number)
    ensures
        number_of(number_text(n)) == Ok::<Number, JsonErrorView>(n),
{
    if n.exponent == i64::MIN {
        lemma_least_exponent_reads_back(n);
    } else {
        lemma_written_exponent_reads_back(n);
    }
}

} // verus!
