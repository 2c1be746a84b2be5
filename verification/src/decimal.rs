//! Integers as decimal text, both ways.
use vstd::prelude::*;

use crate::chars::{char_code, push_char};

verus! {

/// The character of the decimal digit `d`.
pub open spec fn digit_char(d: int) -> char {
    (0x30 + d) as char
}

/// The decimal text of a natural number, without leading zeros.
pub open spec fn decimal(n: nat) -> Seq<char>
    decreases n,
{
    if n < 10 {
        seq![digit_char(n as int)]
    } else {
        decimal(n / 10).push(digit_char((n % 10) as int))
    }
}

/// The decimal text of an integer: a minus sign before a negative one.
pub open spec fn signed_decimal(v: int) -> Seq<char> {
    if v < 0 {
        seq!['-'] + decimal((-v) as nat)
    } else {
        decimal(v as nat)
    }
}

/// Whether the character is a decimal digit.
pub open spec fn is_digit_char(c: char) -> bool {
    0x30 <= c as u32 <= 0x39
}

/// The number that the digits of `s` from `from` up to `to` spell.
pub open spec fn digits_value(s: Seq<char>, from: int, to: int) -> int
    decreases to - from,
{
    if to <= from {
        0
    } else {
        digits_value(s, from, to - 1) * 10 + (s[to - 1] as u32 - 0x30)
    }
}

/// Whether `s` starts with a sign.
pub open spec fn has_sign(s: Seq<char>) -> bool {
    s.len() > 0 && (s[0] == '-' || s[0] == '+')
}

/// The integer that a text spells: an optional sign and one digit or more.
pub open spec fn integer_value(s: Seq<char>) -> Option<int> {
    let start = if has_sign(s) {
        1int
    } else {
        0int
    };
    if start < s.len() && (forall|i: int| start <= i < s.len() ==> is_digit_char(#[trigger] s[i])) {
        let magnitude = digits_value(s, start, s.len() as int);
        Some(
            if s[0] == '-' {
                -magnitude
            } else {
                magnitude
            },
        )
    } else {
        None
    }
}

/// The integer that a text spells for a type with the range `min..=max`: a
/// type without negative values takes no minus sign, not even before zero.
pub open spec fn integer_in(s: Seq<char>, min: int, max: int) -> Option<int> {
    match integer_value(s) {
        Some(v) => if min <= v <= max && (min < 0 || s[0] != '-') {
            Some(v)
        } else {
            None
        },
        None => None,
    }
}

proof fn lemma_digits_value_grows(s: Seq<char>, from: int, mid: int, to: int)
    requires
        from <= mid <= to <= s.len(),
        0 <= from,
        forall|i: int| from <= i < to ==> is_digit_char(#[trigger] s[i]),
    ensures
        0 <= digits_value(s, from, mid) <= digits_value(s, from, to),
    decreases to - from,
{
    if from < to {
        if mid < to {
            lemma_digits_value_grows(s, from, mid, to - 1);
        } else {
            lemma_digits_value_grows(s, from, mid - 1, to - 1);
        }
    }
}

/// Appends the decimal text of `n`.
pub fn push_decimal(buffer: &mut String, n: u128)
    ensures
        final(buffer)@ == old(buffer)@ + decimal(n as nat),
    decreases n,
{
    if n >= 10 {
        push_decimal(buffer, n / 10);
    }
    push_char(buffer, (0x30 + (n % 10) as u8) as char);
    assert(buffer@ =~= old(buffer)@ + decimal(n as nat));
}

/// The decimal text of `n`.
pub fn format_unsigned(n: u128) -> (text: String)
    ensures
        text@ == decimal(n as nat),
{
    let mut text = String::new();
    push_decimal(&mut text, n);
    assert(text@ =~= decimal(n as nat));
    text
}

/// The decimal text of `v`.
pub fn format_signed(v: i128) -> (text: String)
    ensures
        text@ == signed_decimal(v as int),
{
    let mut text = String::new();
    if v < 0 {
        push_char(&mut text, '-');
        let magnitude: u128 = if v == i128::MIN {
            0x8000_0000_0000_0000_0000_0000_0000_0000u128
        } else {
            (-v) as u128
        };
        push_decimal(&mut text, magnitude);
    } else {
        push_decimal(&mut text, v as u128);
    }
    assert(text@ =~= signed_decimal(v as int));
    text
}

/// Reads an integer: whether it has a minus sign, and its magnitude.
/// `None` where the text spells no integer, or one whose magnitude is
/// beyond `u128`.
pub fn parse_integer(text: &str) -> (r: Option<(bool, u128)>)
    ensures
        match r {
            Some((negative, magnitude)) => integer_value(text@) == Some(
                if negative {
                    -(magnitude as int)
                } else {
                    magnitude as int
                },
            ) && negative == (text@[0] == '-'),
            None => integer_value(text@) matches Some(v) ==> v > u128::MAX || v < -(u128::MAX as int),
        },
{
    let ghost s = text@;
    let mut negative = false;
    let mut signed = false;
    let mut any_digit = false;
    let mut magnitude: u128 = 0;
    for c in it: text.chars()
        invariant
            it.seq() == s,
            s == text@,
            signed == (has_sign(s) && it.index() > 0),
            negative == (signed && s[0] == '-'),
            any_digit == (it.index() > if signed {
                1int
            } else {
                0int
            }),
            magnitude == digits_value(s, if has_sign(s) { 1int } else { 0int }, it.index() as int),
            forall|i: int|
                (if has_sign(s) { 1int } else { 0int }) <= i < it.index() ==> is_digit_char(
                    #[trigger] s[i],
                ),
    {
        let ghost start = if has_sign(s) { 1int } else { 0int };
        assert(it.index() < s.len());
        let u = char_code(c);
        if !any_digit && !signed && (u == 0x2d || u == 0x2b) {
            signed = true;
            negative = u == 0x2d;
        } else if 0x30 <= u && u <= 0x39 {
            let digit = (u - 0x30) as u128;
            let next = match magnitude.checked_mul(10) {
                Some(tenfold) => tenfold.checked_add(digit),
                None => None,
            };
            match next {
                Some(value) => {
                    magnitude = value;
                    any_digit = true;
                },
                None => {
                    proof {
                        if integer_value(s) is Some {
                            lemma_digits_value_grows(s, start, it.index() + 1, s.len() as int);
                        }
                    }
                    return None;
                },
            }
        } else {
            assert(!is_digit_char(s[it.index() as int]));
            return None;
        }
    }
    if !any_digit {
        return None;
    }
    Some((negative, magnitude))
}

/// Reads an integer of a type without negative values, whose greatest value is `max`.
pub fn unsigned_in(text: &str, max: u128) -> (r: Option<u128>)
    ensures
        match r {
            Some(v) => integer_in(text@, 0, max as int) == Some(v as int),
            None => integer_in(text@, 0, max as int) is None,
        },
{
    match parse_integer(text) {
        Some((negative, magnitude)) => {
            if !negative && magnitude <= max {
                Some(magnitude)
            } else {
                None
            }
        },
        None => None,
    }
}

/// Reads an integer of a type with negative values, whose range is `min..=max`.
pub fn signed_in(text: &str, min: i128, max: i128) -> (r: Option<i128>)
    requires
        min < 0 <= max,
    ensures
        match r {
            Some(v) => integer_in(text@, min as int, max as int) == Some(v as int),
            None => integer_in(text@, min as int, max as int) is None,
        },
{
    match parse_integer(text) {
        Some((negative, magnitude)) => {
            if negative {
                if magnitude <= 0x7fff_ffff_ffff_ffff_ffff_ffff_ffff_ffffu128 {
                    let v = -(magnitude as i128);
                    if min <= v {
                        Some(v)
                    } else {
                        None
                    }
                } else if magnitude == 0x8000_0000_0000_0000_0000_0000_0000_0000u128 && min
                    == i128::MIN {
                    Some(i128::MIN)
                } else {
                    None
                }
            } else if magnitude <= 0x7fff_ffff_ffff_ffff_ffff_ffff_ffff_ffffu128 && magnitude as i128
                <= max {
                Some(magnitude as i128)
            } else {
                None
            }
        },
        None => None,
    }
}

} // verus!
