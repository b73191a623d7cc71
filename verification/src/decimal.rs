//! Decimal numerals in ASCII.

use vstd::prelude::*;
use vstd::string::*;
use vstd::utf8::*;

verus! {

/// The ASCII code of the digit zero; the other digits follow it in order.
pub const ZERO: u8 = 0x30;

/// The ASCII code of the digit nine.
pub const NINE: u8 = 0x39;

/// The character that stands for the digit `d`.
pub open spec fn digit_char(d: nat) -> char
    recommends
        d < 10,
{
    (ZERO + d) as u8 as char
}

/// The numeral of `n`: its decimal digits, most significant first, with
/// no sign, no padding and no leading zero (but for zero itself).
pub open spec fn decimal_text(n: nat) -> Seq<char>
    decreases n,
{
    if n < 10 {
        seq![digit_char(n)]
    } else {
        decimal_text(n / 10).push(digit_char(n % 10))
    }
}

fn push_digit(text: &mut String, d: u8)
    requires
        d < 10,
    ensures
        final(text)@ == old(text)@.push(digit_char(d as nat)),
{
    let digits = "0123456789";
    proof {
        reveal_strlit("0123456789");
    }
    let from: usize = d as usize;
    let digit = digits.substring_ascii(from, from + 1);
    assert(digit@ =~= seq![digit_char(d as nat)]);
    text.append(digit);
    assert(old(text)@ + seq![digit_char(d as nat)] =~= old(text)@.push(digit_char(d as nat)));
}

/// Appends the numeral of `n` to `text`.
pub fn push_decimal(text: &mut String, n: u8)
    ensures
        final(text)@ == old(text)@ + decimal_text(n as nat),
{
    let ghost before = text@;
    if n >= 100 {
        push_digit(text, n / 100);
    }
    if n >= 10 {
        push_digit(text, (n / 10) % 10);
    }
    push_digit(text, n % 10);
    proof {
        reveal_with_fuel(decimal_text, 3);
        assert(text@ =~= before + decimal_text(n as nat));
    }
}

/// The byte `b` is one of the ten ASCII digits.
pub open spec fn is_digit(b: u8) -> bool {
    ZERO <= b <= NINE
}

/// Every byte of `digits` is an ASCII digit.
pub open spec fn all_digits(digits: Seq<u8>) -> bool {
    forall|i: int| 0 <= i < digits.len() ==> is_digit(#[trigger] digits[i])
}

/// The number that a run of ASCII digits denotes in base ten.
pub open spec fn digits_value(digits: Seq<u8>) -> nat
    recommends
        all_digits(digits),
    decreases digits.len(),
{
    if digits.len() == 0 {
        0
    } else {
        10 * digits_value(digits.drop_last()) + (digits.last() - ZERO) as nat
    }
}

/// The byte that `numeral` denotes, if it denotes one.
///
/// A numeral is one or more ASCII digits and nothing else: no sign, no
/// white space, no digit of another script. Leading zeros are allowed. A
/// numeral whose value is above 255 denotes no byte.
pub open spec fn parsed_decimal(numeral: Seq<u8>) -> Option<u8> {
    if numeral.len() > 0 && all_digits(numeral) && digits_value(numeral) <= 255 {
        Some(digits_value(numeral) as u8)
    } else {
        None
    }
}

/// A run of digits denotes at least what any of its prefixes denotes.
proof fn lemma_value_grows(digits: Seq<u8>, k: int)
    requires
        all_digits(digits),
        0 <= k <= digits.len(),
    ensures
        digits_value(digits.take(k)) <= digits_value(digits),
    decreases digits.len() - k,
{
    if k == digits.len() {
        assert(digits.take(k) =~= digits);
    } else {
        lemma_value_grows(digits, k + 1);
        assert(digits.take(k + 1).drop_last() =~= digits.take(k));
        assert(is_digit(digits.take(k + 1).last()));
    }
}

/// Reads a numeral: see [`parsed_decimal`].
pub fn parse_decimal(numeral: &[u8]) -> (value: Option<u8>)
    ensures
        value == parsed_decimal(numeral@),
{
    let n = numeral.len();
    if n == 0 {
        return None;
    }
    let ghost digits = numeral@;
    let mut value: u8 = 0;
    let mut i: usize = 0;
    while i < n
        invariant
            i <= n,
            n == numeral@.len(),
            digits == numeral@,
            all_digits(digits.take(i as int)),
            value == digits_value(digits.take(i as int)),
        decreases n - i,
    {
        let b = numeral[i];
        if b < ZERO || b > NINE {
            assert(!is_digit(digits[i as int]));
            return None;
        }
        let d: u8 = b - ZERO;
        proof {
            let upto = digits.take(i + 1);
            assert(upto.drop_last() =~= digits.take(i as int));
            assert(upto.last() == b);
            assert forall|j: int| 0 <= j < upto.len() implies is_digit(#[trigger] upto[j]) by {
                if j < i {
                    assert(upto[j] == digits.take(i as int)[j]);
                }
            }
            assert(digits_value(upto) == 10 * value + d);
            if 10 * value + d > 255 && all_digits(digits) {
                lemma_value_grows(digits, i + 1);
            }
        }
        if value > 25 || (value == 25 && d > 5) {
            return None;
        }
        value = value * 10 + d;
        i += 1;
    }
    assert(digits.take(i as int) =~= digits);
    Some(value)
}

/// The numeral of a number is made of ASCII digits, at least one, and
/// these digits denote the number.
pub proof fn lemma_decimal_text(n: nat)
    ensures
        decimal_text(n).len() >= 1,
        is_ascii_chars(decimal_text(n)),
        encode_utf8(decimal_text(n)).len() == decimal_text(n).len(),
        all_digits(encode_utf8(decimal_text(n))),
        digits_value(encode_utf8(decimal_text(n))) == n,
    decreases n,
{
    let text = decimal_text(n);
    let bytes = encode_utf8(text);
    if n < 10 {
        assert(is_ascii_chars(text));
        is_ascii_chars_encode_utf8(text);
        assert(bytes[0] == text[0] as u8);
        assert(bytes.drop_last().len() == 0);
        reveal_with_fuel(digits_value, 2);
    } else {
        let head = decimal_text(n / 10);
        lemma_decimal_text(n / 10);
        assert(text == head.push(digit_char(n % 10)));
        assert(is_ascii_chars(text)) by {
            assert forall|i: int| 0 <= i < text.len() implies '\0' <= #[trigger] text[i]
                <= '\u{7f}' by {
                if i < head.len() {
                    assert(text[i] == head[i]);
                }
            }
        }
        is_ascii_chars_encode_utf8(text);
        is_ascii_chars_encode_utf8(head);
        assert(bytes.last() == text[text.len() - 1] as u8);
        assert(bytes.drop_last() =~= encode_utf8(head)) by {
            assert forall|i: int| 0 <= i < head.len() implies bytes.drop_last()[i] == encode_utf8(
                head,
            )[i] by {
                assert(bytes[i] == text[i] as u8);
                assert(encode_utf8(head)[i] == head[i] as u8);
            }
        }
        assert forall|i: int| 0 <= i < bytes.len() implies is_digit(#[trigger] bytes[i]) by {
            if i < head.len() {
                assert(bytes[i] == bytes.drop_last()[i]);
            }
        }
    }
}

/// Reading the numeral of a byte gives the byte back.
pub proof fn lemma_decimal_round_trip(n: u8)
    ensures
        parsed_decimal(encode_utf8(decimal_text(n as nat))) == Some(n),
{
    lemma_decimal_text(n as nat);
}

} // verus!
