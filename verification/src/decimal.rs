//! Decimal integers in text.

use vstd::prelude::*;
use crate::topic::is_digit;

verus! {

/// The byte `+`.
pub const PLUS: u8 = 0x2b;

/// The byte `-`.
pub const MINUS: u8 = 0x2d;

/// Whether `text` is made of ASCII digits alone.
pub open spec fn all_digits(text: Seq<u8>) -> bool {
    forall|i: int| 0 <= i < text.len() ==> is_digit(#[trigger] text[i])
}

/// The number that a run of decimal digits denotes.
pub open spec fn digits_value(digits: Seq<u8>) -> int
    decreases digits.len(),
{
    if digits.len() == 0 {
        0
    } else {
        digits_value(digits.drop_last()) * 10 + (digits.last() - 0x30)
    }
}

/// Whether `text` starts with a sign.
pub open spec fn is_signed(text: Seq<u8>) -> bool {
    text.len() > 0 && (text[0] == PLUS || text[0] == MINUS)
}

/// The digits of `text`: all of it but a leading sign.
pub open spec fn digits_of(text: Seq<u8>) -> Seq<u8> {
    if is_signed(text) {
        text.drop_first()
    } else {
        text
    }
}

/// The integer that `text` denotes in decimal: an optional `+` or `-`, then
/// one digit or more and nothing else. `None` where `text` is not of that
/// form.
pub open spec fn decimal_value(text: Seq<u8>) -> Option<int> {
    let digits = digits_of(text);
    if digits.len() == 0 || !all_digits(digits) {
        None
    } else if text[0] == MINUS {
        Some(-digits_value(digits))
    } else {
        Some(digits_value(digits))
    }
}

/// The 64-bit integer that `text` denotes in decimal. `None` where `text`
/// denotes no integer, or one that 64 bits cannot hold.
pub open spec fn decimal_i64(text: Seq<u8>) -> Option<i64> {
    match decimal_value(text) {
        Some(v) => if i64::MIN <= v <= i64::MAX {
            Some(v as i64)
        } else {
            None
        },
        None => None,
    }
}

/// The digits read so far never denote more than all of them do.
pub proof fn lemma_digits_grow(digits: Seq<u8>, i: int)
    requires
        all_digits(digits),
        0 <= i <= digits.len(),
    ensures
        0 <= digits_value(digits.subrange(0, i)) <= digits_value(digits),
    decreases digits.len() - i,
{
    if i == digits.len() {
        assert(digits.subrange(0, i) =~= digits);
        lemma_digits_nonnegative(digits);
    } else {
        let head = digits.subrange(0, i + 1);
        assert(head.drop_last() =~= digits.subrange(0, i));
        assert(head.last() == digits[i]);
        assert(is_digit(digits[i]));
        lemma_digits_grow(digits, i + 1);
        assert forall|j: int| 0 <= j < i implies is_digit(#[trigger] digits.subrange(0, i)[j]) by {
            assert(digits.subrange(0, i)[j] == digits[j]);
        }
        lemma_digits_nonnegative(digits.subrange(0, i));
    }
}

/// A run of digits denotes no negative number.
pub proof fn lemma_digits_nonnegative(digits: Seq<u8>)
    requires
        all_digits(digits),
    ensures
        0 <= digits_value(digits),
    decreases digits.len(),
{
    if digits.len() > 0 {
        let head = digits.drop_last();
        assert forall|j: int| 0 <= j < head.len() implies is_digit(#[trigger] head[j]) by {
            assert(head[j] == digits[j]);
        }
        lemma_digits_nonnegative(head);
        assert(is_digit(digits[digits.len() - 1]));
    }
}

/// Reads a 64-bit integer written in decimal.
pub fn parse_decimal(text: &[u8]) -> (value: Option<i64>)
    ensures
        value == decimal_i64(text@),
{
    let n = text.len();
    if n == 0 {
        return None;
    }
    let negative = text[0] == MINUS;
    let start: usize = if text[0] == MINUS || text[0] == PLUS {
        1
    } else {
        0
    };
    if start == n {
        return None;
    }
    let ghost digits = digits_of(text@);
    assert(digits =~= text@.subrange(start as int, n as int));
    let mut acc: i64 = 0;
    let mut i: usize = start;
    while i < n
        invariant
            n == text@.len(),
            start <= i <= n,
            start < n,
            digits == text@.subrange(start as int, n as int),
            digits == digits_of(text@),
            negative == (text@[0] == MINUS),
            all_digits(digits.subrange(0, i - start)),
            acc == if negative {
                -digits_value(digits.subrange(0, i - start))
            } else {
                digits_value(digits.subrange(0, i - start))
            },
        decreases n - i,
    {
        let b = text[i];
        if !(0x30 <= b && b <= 0x39) {
            assert(!is_digit(digits[i - start]));
            return None;
        }
        let d: i64 = (b - 0x30) as i64;
        proof {
            let head = digits.subrange(0, i - start + 1);
            assert(head.drop_last() =~= digits.subrange(0, i - start));
            assert(head.last() == b);
            assert forall|j: int| 0 <= j < head.len() implies is_digit(#[trigger] head[j]) by {
                if j < i - start {
                    assert(head[j] == digits.subrange(0, i - start)[j]);
                }
            }
            lemma_digits_nonnegative(digits.subrange(0, i - start));
            if all_digits(digits) {
                lemma_digits_grow(digits, i - start + 1);
            }
        }
        let scaled = match acc.checked_mul(10) {
            Some(scaled) => scaled,
            None => {
                return None;
            },
        };
        let next = if negative {
            scaled.checked_sub(d)
        } else {
            scaled.checked_add(d)
        };
        acc = match next {
            Some(next) => next,
            None => {
                return None;
            },
        };
        i += 1;
    }
    assert(digits.subrange(0, n - start) =~= digits);
    Some(acc)
}

} // verus!
