//! What holds of parsing and serializing together.
use vstd::prelude::*;
use vstd::utf8::{
    codepoint_width_2, codepoint_width_3, codepoint_width_4, encode_scalar, encode_utf8,
    last_continuation_byte, leading_byte_width_1, leading_byte_width_2, leading_byte_width_3,
    leading_byte_width_4, second_last_continuation_byte, third_last_continuation_byte,
};

use crate::grammar::{
    array, ascii_chars, byte_at, document, elements, escape, frac_end, hex4_at, hex_at, hex_value,
    in_range_at, int_end, is_digit, is_number_text, is_plain, lemma_string_body_bounds, lit_false,
    lit_null, lit_true, literal, members, multibyte_at, number, number_end, object, simple_escape,
    skip_digits, skip_layout, string_body, unicode_escape, value, ParseFault,
};
use crate::json::{
    has_key, index_of_key, keys_sorted, lemma_rank_is, put, rank, rank_upto, JsonModel,
};
use crate::order::{key_lt, lemma_key_lt_asymmetric};
use crate::stream::starts_with_at;
use crate::text::{
    escape_char, escape_from, hex_char, high_unit, items_from, low_unit, members_from, quote,
    text_false, text_null, text_of, text_true, unit_escape,
};

verus! {

/// Whether the bytes `t` stand in `s` from index `p` on.
pub open spec fn occurs(s: Seq<u8>, p: int, t: Seq<u8>) -> bool {
    &&& 0 <= p
    &&& p + t.len() <= s.len()
    &&& forall|i: int| 0 <= i < t.len() ==> s[p + i] == #[trigger] t[i]
}

/// Where two sequences stand in the input one after the other, each stands at its place.
pub proof fn lemma_occurs_split(s: Seq<u8>, p: int, a: Seq<u8>, b: Seq<u8>)
    requires
        occurs(s, p, a + b),
    ensures
        occurs(s, p, a),
        occurs(s, p + a.len(), b),
{
    let t = a + b;
    assert forall|i: int| 0 <= i < a.len() implies s[p + i] == #[trigger] a[i] by {
        assert(t[i] == a[i]);
    }
    assert forall|i: int| 0 <= i < b.len() implies s[p + a.len() + i] == #[trigger] b[i] by {
        assert(t[a.len() + i] == b[i]);
    }
}

/// The encoding of a text in two parts is the encodings of the parts, one after the other.
pub proof fn lemma_encode_concat(a: Seq<char>, b: Seq<char>)
    ensures
        encode_utf8(a + b) == encode_utf8(a) + encode_utf8(b),
    decreases a.len(),
{
    if a.len() == 0 {
        assert(a + b =~= b);
        assert(encode_utf8(a) =~= Seq::<u8>::empty());
        assert(encode_utf8(a) + encode_utf8(b) =~= encode_utf8(b));
    } else {
        assert((a + b).drop_first() =~= a.drop_first() + b);
        assert((a + b)[0] == a[0]);
        lemma_encode_concat(a.drop_first(), b);
        assert(encode_utf8(a + b) =~= encode_utf8(a) + encode_utf8(b));
    }
}

/// The encoding of one character.
pub proof fn lemma_encode_one(c: char)
    ensures
        encode_utf8(seq![c]) == encode_scalar(c as u32),
{
    let t = seq![c];
    assert(t.drop_first() =~= Seq::<char>::empty());
    assert(encode_utf8(t.drop_first()) =~= Seq::<u8>::empty());
    assert(encode_utf8(t) =~= encode_scalar(c as u32));
}

/// The code of a character is a number that `u32` holds.
pub proof fn lemma_char_range(c: char)
    ensures
        0 <= c as int <= 0x10ffff,
        (c as u32) as int == c as int,
        (c as u32) as char == c,
{
}

/// An ASCII text is encoded byte for character.
pub proof fn lemma_encode_ascii(t: Seq<char>)
    requires
        forall|i: int| 0 <= i < t.len() ==> (#[trigger] t[i]) as u32 <= 0x7f,
    ensures
        encode_utf8(t).len() == t.len(),
        forall|i: int| 0 <= i < t.len() ==> (#[trigger] encode_utf8(t)[i]) == t[i] as u8,
{
    assert forall|i: int| 0 <= i < t.len() implies '\0' <= #[trigger] t[i] <= '\u{7f}' by {
        lemma_char_range(t[i]);
    }
    vstd::utf8::is_ascii_chars_encode_utf8(t);
}

proof fn lemma_hex_digit(d: int)
    requires
        0 <= d < 16,
    ensures
        hex_value(hex_char(d) as u8) == Some(d),
        hex_char(d) as u32 <= 0x7f,
        hex_char(d) as u8 == hex_char(d) as u32,
{
}

proof fn lemma_hex_sum(u: u32)
    by (bit_vector)
    requires
        u <= 0xffff,
    ensures
        (u / 4096 % 16) * 4096 + (u / 256 % 16) * 256 + (u / 16 % 16) * 16 + u % 16 == u,
{
}

/// Four hexadecimal digits in the input spell the number whose digits they are.
proof fn lemma_hex4(s: Seq<u8>, p: int, a: int, b: int, c: int, d: int)
    requires
        0 <= a < 16,
        0 <= b < 16,
        0 <= c < 16,
        0 <= d < 16,
        occurs(s, p, encode_utf8(seq!['\\', 'u', hex_char(a), hex_char(b), hex_char(c), hex_char(d)])),
    ensures
        encode_utf8(seq!['\\', 'u', hex_char(a), hex_char(b), hex_char(c), hex_char(d)]).len() == 6,
        s[p] == 0x5c,
        s[p + 1] == 0x75,
        hex4_at(s, p + 2) == Some(a * 4096 + b * 256 + c * 16 + d),
{
    let t = seq!['\\', 'u', hex_char(a), hex_char(b), hex_char(c), hex_char(d)];
    lemma_hex_digit(a);
    lemma_hex_digit(b);
    lemma_hex_digit(c);
    lemma_hex_digit(d);
    lemma_encode_ascii(t);
    let e = encode_utf8(t);
    assert(e[0] == 0x5c && e[1] == 0x75);
    assert(s[p + 0] == e[0]);
    assert(s[p + 1] == e[1]);
    assert(s[p + 2] == e[2]);
    assert(s[p + 3] == e[3]);
    assert(s[p + 4] == e[4]);
    assert(s[p + 5] == e[5]);
    assert(hex_at(s, p + 2) == Some(a));
    assert(hex_at(s, p + 3) == Some(b));
    assert(hex_at(s, p + 4) == Some(c));
    assert(hex_at(s, p + 5) == Some(d));
}

/// A `\uXXXX` escape in the input spells the unit it was written for.
proof fn lemma_unit_escape(s: Seq<u8>, p: int, u: int)
    requires
        0 <= u <= 0xffff,
        occurs(s, p, encode_utf8(unit_escape(u))),
    ensures
        encode_utf8(unit_escape(u)).len() == 6,
        s[p] == 0x5c,
        s[p + 1] == 0x75,
        hex4_at(s, p + 2) == Some(u),
{
    let v = u as u32;
    lemma_hex_sum(v);
    let a = (v / 4096 % 16) as int;
    let b = (v / 256 % 16) as int;
    let c = (v / 16 % 16) as int;
    let d = (v % 16) as int;
    assert(a == u / 4096 % 16 && b == u / 256 % 16 && c == u / 16 % 16 && d == u % 16);
    lemma_hex4(s, p, a, b, c, d);
}

proof fn lemma_width_1(v: u32)
    by (bit_vector)
    requires
        v <= 0x7f,
    ensures
        leading_byte_width_1(v) == v,
{
}

proof fn lemma_width_2(v: u32)
    by (bit_vector)
    requires
        0x80 <= v <= 0x7ff,
    ensures
        ({
            let b1 = leading_byte_width_2(v);
            let b2 = last_continuation_byte(v);
            &&& 0xc2 <= b1 <= 0xdf
            &&& 0x80 <= b2 <= 0xbf
            &&& codepoint_width_2(b1, b2) == v
        }),
{
}

proof fn lemma_width_3(v: u32)
    by (bit_vector)
    requires
        0x800 <= v <= 0xffff,
        !(0xd800 <= v <= 0xdfff),
    ensures
        ({
            let b1 = leading_byte_width_3(v);
            let b2 = second_last_continuation_byte(v);
            let b3 = last_continuation_byte(v);
            &&& 0xe0 <= b1 <= 0xef
            &&& (if b1 == 0xe0 { 0xa0u8 } else { 0x80u8 }) <= b2
            &&& b2 <= (if b1 == 0xed { 0x9fu8 } else { 0xbfu8 })
            &&& 0x80 <= b3 <= 0xbf
            &&& codepoint_width_3(b1, b2, b3) == v
        }),
{
}

proof fn lemma_width_4(v: u32)
    by (bit_vector)
    requires
        0x10000 <= v <= 0x10ffff,
    ensures
        ({
            let b1 = leading_byte_width_4(v);
            let b2 = third_last_continuation_byte(v);
            let b3 = second_last_continuation_byte(v);
            let b4 = last_continuation_byte(v);
            &&& 0xf0 <= b1 <= 0xf4
            &&& (if b1 == 0xf0 { 0x90u8 } else { 0x80u8 }) <= b2
            &&& b2 <= (if b1 == 0xf4 { 0x8fu8 } else { 0xbfu8 })
            &&& 0x80 <= b3 <= 0xbf
            &&& 0x80 <= b4 <= 0xbf
            &&& codepoint_width_4(b1, b2, b3, b4) == v
        }),
{
}

/// The UTF-8 bytes of a character beyond ASCII are a multi-byte sequence
/// that the grammar takes for that character.
proof fn lemma_raw_char(s: Seq<u8>, p: int, c: char)
    requires
        c as u32 >= 0x80,
        occurs(s, p, encode_scalar(c as u32)),
    ensures
        0xc2 <= s[p] <= 0xf4,
        multibyte_at(s, p) == Some((c, encode_scalar(c as u32).len() as int)),
{
    let v = c as u32;
    let b = encode_scalar(v);
    assert(s[p + 0] == b[0]);
    assert(s[p + 1] == b[1]);
    if v <= 0x7ff {
        lemma_width_2(v);
    } else if v <= 0xffff {
        lemma_width_3(v);
        assert(s[p + 2] == b[2]);
    } else {
        lemma_width_4(v);
        assert(s[p + 2] == b[2]);
        assert(s[p + 3] == b[3]);
    }
}

/// Where the input holds a character as the serializer writes it, the
/// grammar reads that character and goes on after it.
proof fn lemma_char_step(s: Seq<u8>, p: int, c: char, ensure_ascii: bool, acc: Seq<char>)
    requires
        occurs(s, p, encode_utf8(escape_char(c, ensure_ascii))),
    ensures
        encode_utf8(escape_char(c, ensure_ascii)).len() > 0,
        string_body(s, p, acc) == string_body(
            s,
            p + encode_utf8(escape_char(c, ensure_ascii)).len(),
            acc.push(c),
        ),
{
    let t = escape_char(c, ensure_ascii);
    let b = encode_utf8(t);
    let v = c as u32;
    if c == '"' || c == '\\' || c == '\u{8}' || c == '\u{c}' || c == '\n' || c == '\r' || c
        == '\t' {
        lemma_encode_ascii(t);
        assert(s[p + 0] == b[0]);
        assert(s[p + 1] == b[1]);
        assert(simple_escape(s[p + 1]) == Some(c));
    } else if 0x20 <= v <= 0x7e {
        lemma_encode_ascii(t);
        assert(s[p + 0] == b[0]);
        assert(is_plain(s[p]));
        assert(s[p] as char == c);
    } else if v < 0x80 || (ensure_ascii && v < 0x10000) {
        lemma_unit_escape(s, p, v as int);
        assert(unicode_escape(s, p + 2) == Ok::<(char, int), ParseFault>(
            (c, p + 6),
        ));
    } else if !ensure_ascii {
        lemma_encode_one(c);
        lemma_raw_char(s, p, c);
    } else {
        let high = high_unit(v as int);
        let low = low_unit(v as int);
        let first = encode_utf8(unit_escape(high));
        let second = encode_utf8(unit_escape(low));
        lemma_encode_concat(unit_escape(high), unit_escape(low));
        lemma_occurs_split(s, p, first, second);
        lemma_unit_escape(s, p, high);
        lemma_unit_escape(s, p + 6, low);
        assert(unicode_escape(s, p + 2) == Ok::<(char, int), ParseFault>(
            (c, p + 12),
        ));
    }
}

/// Where the input holds the rest of a string as the serializer writes it,
/// from character `k` on and with the closing quotation mark, the grammar
/// reads the string to its end.
proof fn lemma_string_tail(s: Seq<u8>, p: int, x: Seq<char>, ensure_ascii: bool, k: int)
    requires
        0 <= k <= x.len(),
        occurs(s, p, encode_utf8(escape_from(x, ensure_ascii, k) + seq!['"'])),
    ensures
        string_body(s, p, x.subrange(0, k)) == Ok::<(Seq<char>, int), ParseFault>(
            (x, p + encode_utf8(escape_from(x, ensure_ascii, k) + seq!['"']).len()),
        ),
    decreases x.len() - k,
{
    let rest = escape_from(x, ensure_ascii, k) + seq!['"'];
    if k == x.len() {
        assert(rest =~= seq!['"']);
        lemma_encode_ascii(rest);
        assert(s[p + 0] == encode_utf8(rest)[0]);
        assert(x.subrange(0, k) =~= x);
    } else {
        let head = escape_char(x[k], ensure_ascii);
        let tail = escape_from(x, ensure_ascii, k + 1) + seq!['"'];
        assert(rest =~= head + tail);
        lemma_encode_concat(head, tail);
        lemma_occurs_split(s, p, encode_utf8(head), encode_utf8(tail));
        lemma_char_step(s, p, x[k], ensure_ascii, x.subrange(0, k));
        assert(x.subrange(0, k).push(x[k]) =~= x.subrange(0, k + 1));
        lemma_string_tail(s, p + encode_utf8(head).len(), x, ensure_ascii, k + 1);
    }
}

/// Where the input holds a string as the serializer writes it, the grammar reads that string.
pub proof fn lemma_quoted(s: Seq<u8>, p: int, x: Seq<char>, ensure_ascii: bool)
    requires
        occurs(s, p, encode_utf8(quote(x, ensure_ascii))),
    ensures
        s[p] == 0x22,
        string_body(s, p + 1, Seq::empty()) == Ok::<(Seq<char>, int), ParseFault>(
            (x, p + encode_utf8(quote(x, ensure_ascii)).len()),
        ),
{
    let open = seq!['"'];
    let rest = escape_from(x, ensure_ascii, 0) + seq!['"'];
    assert(quote(x, ensure_ascii) =~= open + rest);
    lemma_encode_concat(open, rest);
    lemma_encode_ascii(open);
    lemma_occurs_split(s, p, encode_utf8(open), encode_utf8(rest));
    assert(s[p + 0] == encode_utf8(open)[0]);
    lemma_string_tail(s, p + 1, x, ensure_ascii, 0);
    assert(x.subrange(0, 0) =~= Seq::<char>::empty());
}

// ---------------------------------------------------------------- numbers

/// Whether the byte at `end`, if there is one, is a comma or a closing
/// bracket or brace: what follows a value in a canonical text.
pub open spec fn ends_token(s: Seq<u8>, end: int) -> bool {
    end >= s.len() || s[end] == 0x2c || s[end] == 0x5d || s[end] == 0x7d
}

proof fn lemma_skip_digits_run(s: Seq<u8>, p: int)
    requires
        0 <= p <= s.len(),
    ensures
        p <= skip_digits(s, p) <= s.len(),
        forall|i: int| p <= i < skip_digits(s, p) ==> is_digit(#[trigger] s[i]),
        skip_digits(s, p) < s.len() ==> !is_digit(s[skip_digits(s, p)]),
    decreases s.len() - p,
{
    if p < s.len() && is_digit(s[p]) {
        lemma_skip_digits_run(s, p + 1);
    }
}

proof fn lemma_skip_digits_shift(s: Seq<u8>, p: int, b: Seq<u8>, j: int)
    requires
        occurs(s, p, b),
        0 <= j <= b.len(),
        p + b.len() < s.len() ==> !is_digit(s[p + b.len()]),
    ensures
        skip_digits(s, p + j) == p + skip_digits(b, j),
    decreases b.len() - j,
{
    if j < b.len() {
        assert(s[p + j] == b[j]);
        if is_digit(b[j]) {
            lemma_skip_digits_shift(s, p, b, j + 1);
        }
    }
}

/// A byte of `b` as it stands in `s`, and nothing of a number's alphabet after the end of `b`.
proof fn lemma_byte_shift(s: Seq<u8>, p: int, b: Seq<u8>, j: int)
    requires
        occurs(s, p, b),
        0 <= j,
        ends_token(s, p + b.len()),
    ensures
        j < b.len() ==> byte_at(s, p + j) == byte_at(b, j),
        j >= b.len() ==> byte_at(b, j) is None,
        j == b.len() ==> (byte_at(s, p + j) matches Some(x) ==> x == 0x2c || x == 0x5d || x
            == 0x7d),
{
    if j < b.len() {
        assert(s[p + j] == b[j]);
    }
}

/// A number that fills `b` is read from `s` where `b` stands in it before the end of a token.
proof fn lemma_number_shift(s: Seq<u8>, p: int, b: Seq<u8>)
    requires
        occurs(s, p, b),
        number_end(b, 0) == Some(b.len() as int),
        ends_token(s, p + b.len()),
    ensures
        number_end(s, p) == Some(p + b.len()),
{
    lemma_byte_shift(s, p, b, 0);
    lemma_byte_shift(s, p, b, 1);
    let start = if byte_at(b, 0) == Some(0x2du8) {
        1int
    } else {
        0int
    };
    lemma_byte_shift(s, p, b, start);
    lemma_skip_digits_run(b, start + 1);
    lemma_skip_digits_shift(s, p, b, start + 1);
    let a = int_end(b, 0)->0;
    assert(int_end(s, p) == Some(p + a));
    lemma_byte_shift(s, p, b, a);
    lemma_byte_shift(s, p, b, a + 1);
    if a + 2 <= b.len() {
        lemma_skip_digits_run(b, a + 2);
        lemma_skip_digits_shift(s, p, b, a + 2);
    }
    let c = frac_end(b, a)->0;
    assert(frac_end(s, p + a) == Some(p + c));
    lemma_byte_shift(s, p, b, c);
    lemma_byte_shift(s, p, b, c + 1);
    lemma_byte_shift(s, p, b, c + 2);
    if c + 2 <= b.len() {
        lemma_skip_digits_run(b, c + 2);
        lemma_skip_digits_shift(s, p, b, c + 2);
    }
    if c + 3 <= b.len() {
        lemma_skip_digits_run(b, c + 3);
        lemma_skip_digits_shift(s, p, b, c + 3);
    }
}

/// The bytes that a number is made of: the digits, the two signs, the
/// decimal point and the letter of the exponent.
pub open spec fn is_number_byte(b: u8) -> bool {
    is_digit(b) || b == 0x2d || b == 0x2b || b == 0x2e || b == 0x65 || b == 0x45
}

/// A number is made of the bytes of its alphabet, and starts with a digit or a minus sign.
proof fn lemma_number_alphabet(b: Seq<u8>)
    requires
        number_end(b, 0) == Some(b.len() as int),
    ensures
        b.len() > 0,
        is_digit(b[0]) || b[0] == 0x2d,
        forall|i: int| 0 <= i < b.len() ==> is_number_byte(#[trigger] b[i]),
        forall|i: int| 0 <= i < b.len() ==> (#[trigger] b[i]) < 0x80,
{
    let start = if byte_at(b, 0) == Some(0x2du8) {
        1int
    } else {
        0int
    };
    lemma_skip_digits_run(b, start + 1);
    let a = int_end(b, 0)->0;
    if a + 2 <= b.len() {
        lemma_skip_digits_run(b, a + 2);
    }
    let c = frac_end(b, a)->0;
    if c + 2 <= b.len() {
        lemma_skip_digits_run(b, c + 2);
    }
    if c + 3 <= b.len() {
        lemma_skip_digits_run(b, c + 3);
    }
    assert forall|i: int| 0 <= i < b.len() implies is_number_byte(#[trigger] b[i]) by {
        if i < a {
        } else if i < c {
        } else {
        }
    }
}

/// The text of a number is not empty and holds nothing but digits, signs,
/// the decimal point and the letter of the exponent.
pub proof fn lemma_number_text_shape(n: Seq<char>)
    requires
        is_number_text(n),
    ensures
        n.len() > 0,
        forall|i: int|
            0 <= i < n.len() ==> (#[trigger] n[i]) as u32 <= 0x7f && is_number_byte(n[i] as u8),
{
    let b = encode_utf8(n);
    lemma_number_alphabet(b);
    lemma_ascii_text(n);
    assert forall|i: int| 0 <= i < n.len() implies (#[trigger] n[i]) as u32 <= 0x7f
        && is_number_byte(n[i] as u8) by {
        assert(ascii_chars(b)[i] == b[i] as char);
        assert(is_number_byte(b[i]));
    }
}

proof fn lemma_lead_high(v: u32)
    by (bit_vector)
    requires
        0x80 <= v <= 0x10ffff,
    ensures
        leading_byte_width_2(v) >= 0xc0,
        leading_byte_width_3(v) >= 0xc0,
        leading_byte_width_4(v) >= 0xc0,
{
}

/// A text whose encoding is made of ASCII bytes is those bytes, character for byte.
proof fn lemma_ascii_text(n: Seq<char>)
    requires
        forall|i: int| 0 <= i < encode_utf8(n).len() ==> (#[trigger] encode_utf8(n)[i]) < 0x80,
    ensures
        encode_utf8(n).len() == n.len(),
        ascii_chars(encode_utf8(n)) == n,
    decreases n.len(),
{
    if n.len() == 0 {
        assert(ascii_chars(encode_utf8(n)) =~= n);
    } else {
        let c = n[0];
        let v = c as u32;
        let rest = n.drop_first();
        let head = encode_scalar(v);
        let tail = encode_utf8(rest);
        lemma_char_range(c);
        assert(encode_utf8(n) == head + tail);
        assert(encode_utf8(n)[0] == head[0]);
        if v >= 0x80 {
            lemma_lead_high(v);
        }
        lemma_width_1(v);
        assert(head =~= seq![v as u8]);
        assert forall|i: int| 0 <= i < tail.len() implies (#[trigger] tail[i]) < 0x80 by {
            assert(encode_utf8(n)[i + 1] == tail[i]);
        }
        lemma_ascii_text(rest);
        assert(ascii_chars(encode_utf8(n)) =~= n) by {
            assert forall|i: int| 0 <= i < n.len() implies ascii_chars(encode_utf8(n))[i]
                == n[i] by {
                if i > 0 {
                    assert(encode_utf8(n)[i] == tail[i - 1]);
                    assert(ascii_chars(tail)[i - 1] == rest[i - 1]);
                }
            }
        }
    }
}

// ---------------------------------------------------------------- values

/// The bytes of the canonical text of a value.
pub open spec fn bytes_of(v: JsonModel, ensure_ascii: bool) -> Seq<u8> {
    encode_utf8(text_of(v, ensure_ascii))
}

/// The encoding of a one-character ASCII text.
proof fn lemma_encode_mark(c: char)
    requires
        c as u32 <= 0x7f,
    ensures
        encode_utf8(seq![c]) == seq![c as u8],
{
    lemma_encode_ascii(seq![c]);
    assert(encode_utf8(seq![c]) =~= seq![c as u8]);
}

/// The byte with which the text of a value starts tells what the value is.
pub open spec fn starts_as(v: JsonModel, b: u8) -> bool {
    match v {
        JsonModel::Null => b == 0x6e,
        JsonModel::Bool(x) => if x {
            b == 0x74
        } else {
            b == 0x66
        },
        JsonModel::Number(_) => is_digit(b) || b == 0x2d,
        JsonModel::String(_) => b == 0x22,
        JsonModel::Array(_) => b == 0x5b,
        JsonModel::Object(_) => b == 0x7b,
    }
}

proof fn lemma_first_byte(v: JsonModel, ensure_ascii: bool)
    requires
        v.wf(),
    ensures
        bytes_of(v, ensure_ascii).len() > 0,
        starts_as(v, bytes_of(v, ensure_ascii)[0]),
{
    match v {
        JsonModel::Null => {
            lemma_encode_ascii(text_null());
        },
        JsonModel::Bool(x) => {
            lemma_encode_ascii(text_true());
            lemma_encode_ascii(text_false());
        },
        JsonModel::Number(n) => {
            lemma_number_alphabet(encode_utf8(n));
        },
        JsonModel::String(x) => {
            let rest = escape_from(x, ensure_ascii, 0) + seq!['"'];
            assert(quote(x, ensure_ascii) =~= seq!['"'] + rest);
            lemma_encode_concat(seq!['"'], rest);
            lemma_encode_mark('"');
        },
        JsonModel::Array(items) => {
            let rest = items_from(items, ensure_ascii, 0) + seq![']'];
            assert(text_of(v, ensure_ascii) =~= seq!['['] + rest);
            lemma_encode_concat(seq!['['], rest);
            lemma_encode_mark('[');
        },
        JsonModel::Object(entries) => {
            let rest = members_from(entries, ensure_ascii, 0) + seq!['}'];
            assert(text_of(v, ensure_ascii) =~= seq!['{'] + rest);
            lemma_encode_concat(seq!['{'], rest);
            lemma_encode_mark('{');
        },
    }
}

/// Where a literal's text stands in the input, the literal stands there.
proof fn lemma_literal(s: Seq<u8>, p: int, t: Seq<char>, lit: Seq<u8>)
    requires
        occurs(s, p, encode_utf8(t)),
        forall|i: int| 0 <= i < t.len() ==> (#[trigger] t[i]) as u32 <= 0x7f,
        lit.len() == t.len(),
        forall|i: int| 0 <= i < t.len() ==> lit[i] == (#[trigger] t[i]) as u8,
    ensures
        encode_utf8(t) == lit,
        starts_with_at(s, p, lit),
{
    lemma_encode_ascii(t);
    let b = encode_utf8(t);
    assert(b =~= lit) by {
        assert forall|i: int| 0 <= i < b.len() implies b[i] == lit[i] by {
            assert(b[i] == t[i] as u8);
        }
    }
    assert(s.subrange(p, p + lit.len()) =~= lit) by {
        assert forall|i: int| 0 <= i < lit.len() implies s.subrange(p, p + lit.len())[i]
            == lit[i] by {
            assert(s[p + i] == b[i]);
        }
    }
}

/// Where the value at `p` starts with a byte that is no layout, the grammar
/// reads there what the first byte asks for.
proof fn lemma_dispatch(s: Seq<u8>, p: int)
    requires
        0 <= p < s.len(),
        !crate::grammar::is_layout(s[p]),
    ensures
        value(s, p) == if s[p] == 0x22 {
            crate::grammar::string_value(s, p + 1)
        } else if is_digit(s[p]) || s[p] == 0x2d {
            number(s, p)
        } else if s[p] == 0x5b {
            array(s, p + 1)
        } else if s[p] == 0x7b {
            object(s, p + 1)
        } else if s[p] == 0x66 {
            literal(s, p, lit_false(), JsonModel::Bool(false))
        } else if s[p] == 0x74 {
            literal(s, p, lit_true(), JsonModel::Bool(true))
        } else if s[p] == 0x6e {
            literal(s, p, lit_null(), JsonModel::Null)
        } else {
            Err::<(JsonModel, int), ParseFault>(ParseFault::ExpectValue)
        },
{
    reveal(value);
    reveal(array);
    reveal(elements);
    reveal(object);
    reveal(members);
    assert(skip_layout(s, p) == p);
}

/// Where the input holds the text of a number before the end of a token, the grammar reads it.
proof fn lemma_number_read(s: Seq<u8>, p: int, n: Seq<char>)
    requires
        is_number_text(n),
        occurs(s, p, encode_utf8(n)),
        ends_token(s, p + encode_utf8(n).len()),
    ensures
        0 <= p < s.len(),
        is_digit(s[p]) || s[p] == 0x2d,
        number(s, p) == Ok::<(JsonModel, int), ParseFault>(
            (JsonModel::Number(n), p + encode_utf8(n).len()),
        ),
{
    let b = encode_utf8(n);
    lemma_number_shift(s, p, b);
    lemma_number_alphabet(b);
    lemma_ascii_text(n);
    assert(s[p + 0] == b[0]);
    assert(s.subrange(p, p + b.len()) =~= b) by {
        assert forall|i: int| 0 <= i < b.len() implies s.subrange(p, p + b.len())[i] == b[i] by {
            assert(s[p + i] == b[i]);
        }
    }
}

/// Where the input holds the text of a literal, the grammar reads the literal.
proof fn lemma_literal_read(s: Seq<u8>, p: int, t: Seq<char>, lit: Seq<u8>, v: JsonModel)
    requires
        occurs(s, p, encode_utf8(t)),
        t.len() > 0,
        forall|i: int| 0 <= i < t.len() ==> (#[trigger] t[i]) as u32 <= 0x7f,
        lit.len() == t.len(),
        forall|i: int| 0 <= i < t.len() ==> lit[i] == (#[trigger] t[i]) as u8,
    ensures
        0 <= p < s.len(),
        s[p] == lit[0],
        literal(s, p, lit, v) == Ok::<(JsonModel, int), ParseFault>((v, p + encode_utf8(t).len())),
{
    lemma_literal(s, p, t, lit);
    assert(s[p + 0] == lit[0]);
}

/// Where the input holds the text of a string, the grammar reads the string.
proof fn lemma_string_read(s: Seq<u8>, p: int, x: Seq<char>, ensure_ascii: bool)
    requires
        occurs(s, p, encode_utf8(quote(x, ensure_ascii))),
    ensures
        0 <= p < s.len(),
        s[p] == 0x22,
        crate::grammar::string_value(s, p + 1) == Ok::<(JsonModel, int), ParseFault>(
            (JsonModel::String(x), p + encode_utf8(quote(x, ensure_ascii)).len()),
        ),
{
    lemma_quoted(s, p, x, ensure_ascii);
    lemma_string_body_bounds(s, p + 1, Seq::empty());
}

/// The values without parts: where the input holds the text of one, the grammar reads it.
proof fn lemma_plain_read(s: Seq<u8>, p: int, v: JsonModel, ensure_ascii: bool)
    requires
        v.wf(),
        !(v is Array),
        !(v is Object),
        occurs(s, p, bytes_of(v, ensure_ascii)),
        ends_token(s, p + bytes_of(v, ensure_ascii).len()),
    ensures
        value(s, p) == Ok::<(JsonModel, int), ParseFault>(
            (v, p + bytes_of(v, ensure_ascii).len()),
        ),
{
    match v {
        JsonModel::Null => {
            lemma_literal_read(s, p, text_null(), lit_null(), v);
        },
        JsonModel::Bool(x) => {
            if x {
                lemma_literal_read(s, p, text_true(), lit_true(), v);
            } else {
                lemma_literal_read(s, p, text_false(), lit_false(), v);
            }
        },
        JsonModel::Number(n) => {
            lemma_number_read(s, p, n);
        },
        JsonModel::String(x) => {
            lemma_string_read(s, p, x, ensure_ascii);
        },
        _ => {},
    }
    lemma_dispatch(s, p);
}

/// The text between an opening mark and a closing mark: where the whole
/// stands in the input, the opening mark stands first and the rest after it.
proof fn lemma_opened(s: Seq<u8>, p: int, open: char, rest: Seq<char>)
    requires
        open as u32 <= 0x7f,
        occurs(s, p, encode_utf8(seq![open] + rest)),
    ensures
        0 <= p < s.len(),
        s[p] == open as u8,
        occurs(s, p + 1, encode_utf8(rest)),
        encode_utf8(seq![open] + rest).len() == 1 + encode_utf8(rest).len(),
{
    lemma_encode_concat(seq![open], rest);
    lemma_encode_mark(open);
    lemma_occurs_split(s, p, seq![open as u8], encode_utf8(rest));
    assert(s[p + 0] == seq![open as u8][0]);
}

/// The rest of an array as the serializer writes it, from item `k` on and
/// with the closing bracket.
pub open spec fn items_rest(items: Seq<JsonModel>, ensure_ascii: bool, k: int) -> Seq<u8> {
    encode_utf8(items_from(items, ensure_ascii, k) + seq![']'])
}

/// The rest of an object as the serializer writes it, from entry `k` on and
/// with the closing brace.
pub open spec fn members_rest(
    entries: Seq<(Seq<char>, JsonModel)>,
    ensure_ascii: bool,
    k: int,
) -> Seq<u8> {
    encode_utf8(members_from(entries, ensure_ascii, k) + seq!['}'])
}

/// How the rest of an array lies in the input: the text of item `k`, and
/// then the bracket, or a comma and the items that follow.
proof fn lemma_item_layout(s: Seq<u8>, p: int, items: Seq<JsonModel>, ensure_ascii: bool, k: int)
    requires
        0 <= k < items.len(),
        occurs(s, p, items_rest(items, ensure_ascii, k)),
    ensures
        ({
            let e = p + bytes_of(items[k], ensure_ascii).len();
            &&& occurs(s, p, bytes_of(items[k], ensure_ascii))
            &&& 0 <= e < s.len()
            &&& if k == items.len() - 1 {
                s[e] == 0x5d && items_rest(items, ensure_ascii, k).len() == e + 1 - p
            } else {
                &&& s[e] == 0x2c
                &&& occurs(s, e + 1, items_rest(items, ensure_ascii, k + 1))
                &&& items_rest(items, ensure_ascii, k).len() == e + 1 - p + items_rest(
                    items,
                    ensure_ascii,
                    k + 1,
                ).len()
            }
        }),
{
    let first = text_of(items[k], ensure_ascii);
    let whole = items_from(items, ensure_ascii, k) + seq![']'];
    let last = k == items.len() - 1;
    let mark = if last {
        ']'
    } else {
        ','
    };
    let tail = if last {
        Seq::<char>::empty()
    } else {
        items_from(items, ensure_ascii, k + 1) + seq![']']
    };
    let after = seq![mark] + tail;
    assert(whole =~= first + after);
    lemma_encode_concat(first, after);
    lemma_occurs_split(s, p, encode_utf8(first), encode_utf8(after));
    lemma_opened(s, p + encode_utf8(first).len(), mark, tail);
    if last {
        assert(encode_utf8(tail) =~= Seq::<u8>::empty());
    }
}

/// One item of an array, read: what the grammar makes of the items from
/// `p` on once the first of them is known.
proof fn lemma_item_unfold(s: Seq<u8>, p: int, acc: Seq<JsonModel>, item: JsonModel, e: int)
    requires
        0 <= p < e < s.len(),
        value(s, p) == Ok::<(JsonModel, int), ParseFault>((item, e)),
        s[e] == 0x2c || s[e] == 0x5d,
    ensures
        elements(s, p, acc) == if s[e] == 0x2c {
            elements(s, e + 1, acc.push(item))
        } else {
            Ok::<(JsonModel, int), ParseFault>((JsonModel::Array(acc.push(item)), e + 1))
        },
{
    reveal(value);
    reveal(array);
    reveal(elements);
    reveal(object);
    reveal(members);
    assert(skip_layout(s, e) == e);
}

/// What reading the rest of an array comes to, given that item `k` is read
/// as it should be and the items after it are.
proof fn lemma_item_step(s: Seq<u8>, p: int, items: Seq<JsonModel>, ensure_ascii: bool, k: int)
    requires
        0 <= k < items.len(),
        items[k].wf(),
        occurs(s, p, items_rest(items, ensure_ascii, k)),
        value(s, p) == Ok::<(JsonModel, int), ParseFault>(
            (items[k], p + bytes_of(items[k], ensure_ascii).len()),
        ),
        k < items.len() - 1 ==> elements(
            s,
            p + bytes_of(items[k], ensure_ascii).len() + 1,
            items.subrange(0, k + 1),
        ) == Ok::<(JsonModel, int), ParseFault>(
            (
                JsonModel::Array(items),
                p + bytes_of(items[k], ensure_ascii).len() + 1 + items_rest(
                    items,
                    ensure_ascii,
                    k + 1,
                ).len(),
            ),
        ),
    ensures
        elements(s, p, items.subrange(0, k)) == Ok::<(JsonModel, int), ParseFault>(
            (JsonModel::Array(items), p + items_rest(items, ensure_ascii, k).len()),
        ),
{
    let e = p + bytes_of(items[k], ensure_ascii).len();
    lemma_item_layout(s, p, items, ensure_ascii, k);
    lemma_first_byte(items[k], ensure_ascii);
    lemma_item_unfold(s, p, items.subrange(0, k), items[k], e);
    assert(items.subrange(0, k).push(items[k]) =~= items.subrange(0, k + 1));
    if k == items.len() - 1 {
        assert(items.subrange(0, k + 1) =~= items);
    }
}

/// What reading an array comes to, given that its items are read as they should be.
proof fn lemma_array_step(s: Seq<u8>, p: int, items: Seq<JsonModel>, ensure_ascii: bool)
    requires
        forall|i: int| 0 <= i < items.len() ==> (#[trigger] items[i]).wf(),
        occurs(s, p, bytes_of(JsonModel::Array(items), ensure_ascii)),
        items.len() > 0 ==> elements(s, p + 1, Seq::empty()) == Ok::<(JsonModel, int), ParseFault>(
            (JsonModel::Array(items), p + 1 + items_rest(items, ensure_ascii, 0).len()),
        ),
    ensures
        value(s, p) == Ok::<(JsonModel, int), ParseFault>(
            (
                JsonModel::Array(items),
                p + bytes_of(JsonModel::Array(items), ensure_ascii).len(),
            ),
        ),
{
    reveal(value);
    reveal(array);
    reveal(elements);
    reveal(object);
    reveal(members);
    let v = JsonModel::Array(items);
    let rest = items_from(items, ensure_ascii, 0) + seq![']'];
    assert(text_of(v, ensure_ascii) =~= seq!['['] + rest);
    lemma_opened(s, p, '[', rest);
    assert(skip_layout(s, p) == p);
    if items.len() == 0 {
        assert(rest =~= seq![']']);
        lemma_opened(s, p + 1, ']', Seq::empty());
        assert(seq![']'] + Seq::<char>::empty() =~= rest);
        assert(skip_layout(s, p + 1) == p + 1);
        assert(items =~= Seq::<JsonModel>::empty());
    } else {
        lemma_item_layout(s, p + 1, items, ensure_ascii, 0);
        lemma_first_byte(items[0], ensure_ascii);
        assert(s[p + 1 + 0] == bytes_of(items[0], ensure_ascii)[0]);
        assert(skip_layout(s, p + 1) == p + 1);
    }
}

/// The index after the key of an entry whose text starts at `p`.
pub open spec fn key_end(p: int, key: Seq<char>, ensure_ascii: bool) -> int {
    p + encode_utf8(quote(key, ensure_ascii)).len()
}

/// The index after the value of an entry whose text starts at `p`.
pub open spec fn member_end(p: int, key: Seq<char>, item: JsonModel, ensure_ascii: bool) -> int {
    key_end(p, key, ensure_ascii) + 1 + bytes_of(item, ensure_ascii).len()
}

/// How the rest of an object lies in the input: the key of entry `k`, a
/// colon, the value, and then the brace, or a comma and the entries that
/// follow.
proof fn lemma_member_layout(
    s: Seq<u8>,
    p: int,
    entries: Seq<(Seq<char>, JsonModel)>,
    ensure_ascii: bool,
    k: int,
)
    requires
        0 <= k < entries.len(),
        occurs(s, p, members_rest(entries, ensure_ascii, k)),
    ensures
        ({
            let key = entries[k].0;
            let item = entries[k].1;
            let ke = key_end(p, key, ensure_ascii);
            let e = member_end(p, key, item, ensure_ascii);
            &&& occurs(s, p, encode_utf8(quote(key, ensure_ascii)))
            &&& 0 <= ke < s.len()
            &&& s[ke] == 0x3a
            &&& occurs(s, ke + 1, bytes_of(item, ensure_ascii))
            &&& 0 <= e < s.len()
            &&& if k == entries.len() - 1 {
                s[e] == 0x7d && members_rest(entries, ensure_ascii, k).len() == e + 1 - p
            } else {
                &&& s[e] == 0x2c
                &&& occurs(s, e + 1, members_rest(entries, ensure_ascii, k + 1))
                &&& members_rest(entries, ensure_ascii, k).len() == e + 1 - p + members_rest(
                    entries,
                    ensure_ascii,
                    k + 1,
                ).len()
            }
        }),
{
    let key = entries[k].0;
    let item = entries[k].1;
    let quoted = quote(key, ensure_ascii);
    let first = text_of(item, ensure_ascii);
    let whole = members_from(entries, ensure_ascii, k) + seq!['}'];
    let last = k == entries.len() - 1;
    let mark = if last {
        '}'
    } else {
        ','
    };
    let tail = if last {
        Seq::<char>::empty()
    } else {
        members_from(entries, ensure_ascii, k + 1) + seq!['}']
    };
    let after_value = seq![mark] + tail;
    let after_key = seq![':'] + (first + after_value);
    assert(whole =~= quoted + after_key);
    lemma_encode_concat(quoted, after_key);
    lemma_occurs_split(s, p, encode_utf8(quoted), encode_utf8(after_key));
    let ke = key_end(p, key, ensure_ascii);
    lemma_opened(s, ke, ':', first + after_value);
    lemma_encode_concat(first, after_value);
    lemma_occurs_split(s, ke + 1, encode_utf8(first), encode_utf8(after_value));
    let e = member_end(p, key, item, ensure_ascii);
    lemma_opened(s, e, mark, tail);
    if last {
        assert(encode_utf8(tail) =~= Seq::<u8>::empty());
    }
}

/// One entry of an object, read: what the grammar makes of the entries
/// from `p` on once the key and the value of the first are known.
proof fn lemma_member_unfold(
    s: Seq<u8>,
    p: int,
    acc: Seq<(Seq<char>, JsonModel)>,
    key: Seq<char>,
    ke: int,
    item: JsonModel,
    e: int,
)
    requires
        0 <= p < ke < e < s.len(),
        s[p] == 0x22,
        string_body(s, p + 1, Seq::empty()) == Ok::<(Seq<char>, int), ParseFault>((key, ke)),
        s[ke] == 0x3a,
        value(s, ke + 1) == Ok::<(JsonModel, int), ParseFault>((item, e)),
        !has_key(acc, key),
        s[e] == 0x2c || s[e] == 0x7d,
    ensures
        members(s, p, acc) == if s[e] == 0x2c {
            members(s, skip_layout(s, e + 1), put(acc, key, item))
        } else {
            Ok::<(JsonModel, int), ParseFault>((JsonModel::Object(put(acc, key, item)), e + 1))
        },
{
    reveal(value);
    reveal(array);
    reveal(elements);
    reveal(object);
    reveal(members);
    assert(skip_layout(s, ke) == ke);
    assert(skip_layout(s, e) == e);
}

/// In sorted entries the first `k` do not hold the key of entry `k`, and
/// putting that entry to them gives the first `k + 1`.
proof fn lemma_put_next(entries: Seq<(Seq<char>, JsonModel)>, k: int)
    requires
        0 <= k < entries.len(),
        keys_sorted(entries),
    ensures
        !has_key(entries.subrange(0, k), entries[k].0),
        put(entries.subrange(0, k), entries[k].0, entries[k].1) == entries.subrange(0, k + 1),
{
    reveal(put);
    let acc = entries.subrange(0, k);
    let key = entries[k].0;
    assert(!has_key(acc, key)) by {
        if has_key(acc, key) {
            let i = index_of_key(acc, key);
            assert(acc[i] == entries[i]);
            lemma_key_lt_asymmetric(entries[i].0, entries[k].0);
        }
    }
    assert forall|i: int| 0 <= i < k implies key_lt((#[trigger] acc[i]).0, key) by {
        assert(acc[i] == entries[i]);
    }
    lemma_rank_is(acc, key, k, k);
    assert(acc.insert(k, (key, entries[k].1)) =~= entries.subrange(0, k + 1));
}

/// The rest of an object starts with the quotation mark of a key.
proof fn lemma_members_start(
    s: Seq<u8>,
    p: int,
    entries: Seq<(Seq<char>, JsonModel)>,
    ensure_ascii: bool,
    k: int,
)
    requires
        0 <= k < entries.len(),
        occurs(s, p, members_rest(entries, ensure_ascii, k)),
    ensures
        skip_layout(s, p) == p,
        byte_at(s, p) == Some(0x22u8),
{
    let key = entries[k].0;
    lemma_member_layout(s, p, entries, ensure_ascii, k);
    let rest = escape_from(key, ensure_ascii, 0) + seq!['"'];
    assert(quote(key, ensure_ascii) =~= seq!['"'] + rest);
    lemma_opened(s, p, '"', rest);
}

/// What stands where in the input for entry `k` of an object, and what
/// the entries read so far make of it.
proof fn lemma_member_facts(
    s: Seq<u8>,
    p: int,
    entries: Seq<(Seq<char>, JsonModel)>,
    ensure_ascii: bool,
    k: int,
)
    requires
        0 <= k < entries.len(),
        keys_sorted(entries),
        entries[k].1.wf(),
        occurs(s, p, members_rest(entries, ensure_ascii, k)),
    ensures
        ({
            let key = entries[k].0;
            let item = entries[k].1;
            let ke = key_end(p, key, ensure_ascii);
            let e = member_end(p, key, item, ensure_ascii);
            &&& 0 <= p < ke < e < s.len()
            &&& s[p] == 0x22
            &&& string_body(s, p + 1, Seq::empty()) == Ok::<(Seq<char>, int), ParseFault>(
                (key, ke),
            )
            &&& s[ke] == 0x3a
            &&& !has_key(entries.subrange(0, k), key)
            &&& put(entries.subrange(0, k), key, item) == entries.subrange(0, k + 1)
            &&& if k == entries.len() - 1 {
                &&& s[e] == 0x7d
                &&& members_rest(entries, ensure_ascii, k).len() == e + 1 - p
                &&& entries.subrange(0, k + 1) == entries
            } else {
                &&& s[e] == 0x2c
                &&& skip_layout(s, e + 1) == e + 1
                &&& members_rest(entries, ensure_ascii, k).len() == e + 1 - p + members_rest(
                    entries,
                    ensure_ascii,
                    k + 1,
                ).len()
            }
        }),
{
    let key = entries[k].0;
    let item = entries[k].1;
    let e = member_end(p, key, item, ensure_ascii);
    lemma_member_layout(s, p, entries, ensure_ascii, k);
    lemma_quoted(s, p, key, ensure_ascii);
    lemma_string_body_bounds(s, p + 1, Seq::empty());
    lemma_first_byte(item, ensure_ascii);
    lemma_put_next(entries, k);
    if k == entries.len() - 1 {
        assert(entries.subrange(0, k + 1) =~= entries);
    } else {
        lemma_members_start(s, e + 1, entries, ensure_ascii, k + 1);
    }
}

/// What reading the rest of an object comes to, given that the value of
/// entry `k` is read as it should be and the entries after it are.
proof fn lemma_member_step(
    s: Seq<u8>,
    p: int,
    entries: Seq<(Seq<char>, JsonModel)>,
    ensure_ascii: bool,
    k: int,
)
    requires
        0 <= k < entries.len(),
        keys_sorted(entries),
        entries[k].1.wf(),
        occurs(s, p, members_rest(entries, ensure_ascii, k)),
        value(s, key_end(p, entries[k].0, ensure_ascii) + 1) == Ok::<
            (JsonModel, int),
            ParseFault,
        >((entries[k].1, member_end(p, entries[k].0, entries[k].1, ensure_ascii))),
        k < entries.len() - 1 ==> members(
            s,
            member_end(p, entries[k].0, entries[k].1, ensure_ascii) + 1,
            entries.subrange(0, k + 1),
        ) == Ok::<(JsonModel, int), ParseFault>(
            (
                JsonModel::Object(entries),
                member_end(p, entries[k].0, entries[k].1, ensure_ascii) + 1 + members_rest(
                    entries,
                    ensure_ascii,
                    k + 1,
                ).len(),
            ),
        ),
    ensures
        members(s, p, entries.subrange(0, k)) == Ok::<(JsonModel, int), ParseFault>(
            (JsonModel::Object(entries), p + members_rest(entries, ensure_ascii, k).len()),
        ),
{
    let key = entries[k].0;
    let item = entries[k].1;
    let ke = key_end(p, key, ensure_ascii);
    let e = member_end(p, key, item, ensure_ascii);
    lemma_member_facts(s, p, entries, ensure_ascii, k);
    lemma_member_unfold(s, p, entries.subrange(0, k), key, ke, item, e);
}

/// What reading an object comes to, given that its entries are read as they should be.
proof fn lemma_object_step(
    s: Seq<u8>,
    p: int,
    entries: Seq<(Seq<char>, JsonModel)>,
    ensure_ascii: bool,
)
    requires
        occurs(s, p, bytes_of(JsonModel::Object(entries), ensure_ascii)),
        entries.len() > 0 ==> members(s, p + 1, Seq::empty()) == Ok::<(JsonModel, int), ParseFault>(
            (JsonModel::Object(entries), p + 1 + members_rest(entries, ensure_ascii, 0).len()),
        ),
    ensures
        value(s, p) == Ok::<(JsonModel, int), ParseFault>(
            (
                JsonModel::Object(entries),
                p + bytes_of(JsonModel::Object(entries), ensure_ascii).len(),
            ),
        ),
{
    reveal(value);
    reveal(array);
    reveal(elements);
    reveal(object);
    reveal(members);
    let v = JsonModel::Object(entries);
    let rest = members_from(entries, ensure_ascii, 0) + seq!['}'];
    assert(text_of(v, ensure_ascii) =~= seq!['{'] + rest);
    lemma_opened(s, p, '{', rest);
    assert(skip_layout(s, p) == p);
    if entries.len() == 0 {
        assert(rest =~= seq!['}']);
        lemma_opened(s, p + 1, '}', Seq::empty());
        assert(seq!['}'] + Seq::<char>::empty() =~= rest);
        assert(skip_layout(s, p + 1) == p + 1);
        assert(entries =~= Seq::<(Seq<char>, JsonModel)>::empty());
    } else {
        lemma_members_start(s, p + 1, entries, ensure_ascii, 0);
    }
}

/// Where the input holds the canonical text of a well-formed value before
/// the end of a token, the grammar reads that value there.
pub proof fn lemma_value_read(s: Seq<u8>, p: int, v: JsonModel, ensure_ascii: bool)
    requires
        v.wf(),
        occurs(s, p, bytes_of(v, ensure_ascii)),
        ends_token(s, p + bytes_of(v, ensure_ascii).len()),
    ensures
        value(s, p) == Ok::<(JsonModel, int), ParseFault>(
            (v, p + bytes_of(v, ensure_ascii).len()),
        ),
    decreases v, 0int,
{
    match v {
        JsonModel::Array(items) => {
            if items.len() > 0 {
                let rest = items_from(items, ensure_ascii, 0) + seq![']'];
                assert(text_of(v, ensure_ascii) =~= seq!['['] + rest);
                lemma_opened(s, p, '[', rest);
                lemma_items_read(s, p + 1, items, ensure_ascii, 0);
                assert(items.subrange(0, 0) =~= Seq::<JsonModel>::empty());
            }
            lemma_array_step(s, p, items, ensure_ascii);
        },
        JsonModel::Object(entries) => {
            if entries.len() > 0 {
                let rest = members_from(entries, ensure_ascii, 0) + seq!['}'];
                assert(text_of(v, ensure_ascii) =~= seq!['{'] + rest);
                lemma_opened(s, p, '{', rest);
                lemma_members_read(s, p + 1, entries, ensure_ascii, 0);
                assert(entries.subrange(0, 0) =~= Seq::<(Seq<char>, JsonModel)>::empty());
            }
            lemma_object_step(s, p, entries, ensure_ascii);
        },
        _ => {
            lemma_plain_read(s, p, v, ensure_ascii);
        },
    }
}

/// Where the input holds the rest of an array as the serializer writes it,
/// from item `k` on and with the closing bracket, the grammar reads the
/// array to its end.
proof fn lemma_items_read(s: Seq<u8>, p: int, items: Seq<JsonModel>, ensure_ascii: bool, k: int)
    requires
        0 <= k < items.len(),
        forall|i: int| 0 <= i < items.len() ==> (#[trigger] items[i]).wf(),
        occurs(s, p, items_rest(items, ensure_ascii, k)),
    ensures
        elements(s, p, items.subrange(0, k)) == Ok::<(JsonModel, int), ParseFault>(
            (JsonModel::Array(items), p + items_rest(items, ensure_ascii, k).len()),
        ),
    decreases items, items.len() - k,
{
    lemma_item_layout(s, p, items, ensure_ascii, k);
    lemma_value_read(s, p, items[k], ensure_ascii);
    if k < items.len() - 1 {
        lemma_items_read(
            s,
            p + bytes_of(items[k], ensure_ascii).len() + 1,
            items,
            ensure_ascii,
            k + 1,
        );
    }
    lemma_item_step(s, p, items, ensure_ascii, k);
}

/// Where the input holds the rest of an object as the serializer writes it,
/// from entry `k` on and with the closing brace, the grammar reads the
/// object to its end.
proof fn lemma_members_read(
    s: Seq<u8>,
    p: int,
    entries: Seq<(Seq<char>, JsonModel)>,
    ensure_ascii: bool,
    k: int,
)
    requires
        0 <= k < entries.len(),
        keys_sorted(entries),
        forall|i: int| 0 <= i < entries.len() ==> (#[trigger] entries[i]).1.wf(),
        occurs(s, p, members_rest(entries, ensure_ascii, k)),
    ensures
        members(s, p, entries.subrange(0, k)) == Ok::<(JsonModel, int), ParseFault>(
            (JsonModel::Object(entries), p + members_rest(entries, ensure_ascii, k).len()),
        ),
    decreases entries, entries.len() - k,
{
    let key = entries[k].0;
    let item = entries[k].1;
    lemma_member_layout(s, p, entries, ensure_ascii, k);
    assert(entries[k].1.wf());
    assert(decreases_to!(entries => entries[k]));
    assert(decreases_to!(entries[k] => entries[k].1));
    lemma_value_read(s, key_end(p, key, ensure_ascii) + 1, item, ensure_ascii);
    if k < entries.len() - 1 {
        lemma_members_read(s, member_end(p, key, item, ensure_ascii) + 1, entries, ensure_ascii, k + 1);
    }
    lemma_member_step(s, p, entries, ensure_ascii, k);
}

/// Parsing the canonical text of a well-formed value gives the value back.
pub proof fn lemma_load_dump(v: JsonModel, ensure_ascii: bool)
    requires
        v.wf(),
    ensures
        document(bytes_of(v, ensure_ascii)) == Ok::<JsonModel, ParseFault>(v),
{
    let s = bytes_of(v, ensure_ascii);
    lemma_value_read(s, 0, v, ensure_ascii);
    assert(skip_layout(s, s.len() as int) == s.len());
}

// ---------------------------------------------------------------- what parsing gives

proof fn lemma_skip_digits_unshift(s: Seq<u8>, p: int, e: int, j: int)
    requires
        0 <= p <= p + j <= e <= s.len(),
        skip_digits(s, p + j) <= e,
    ensures
        skip_digits(s.subrange(p, e), j) == skip_digits(s, p + j) - p,
    decreases e - p - j,
{
    let b = s.subrange(p, e);
    if p + j < s.len() && is_digit(s[p + j]) {
        lemma_skip_digits_run(s, p + j + 1);
        assert(b[j] == s[p + j]);
        lemma_skip_digits_unshift(s, p, e, j + 1);
    } else if j < b.len() {
        assert(b[j] == s[p + j]);
    }
}

/// A number that is read from an input fills the bytes that it was read from.
proof fn lemma_number_unshift(s: Seq<u8>, p: int, e: int)
    requires
        0 <= p,
        number_end(s, p) == Some(e),
    ensures
        p < e <= s.len(),
        number_end(s.subrange(p, e), 0) == Some(e - p),
{
    crate::grammar::lemma_number_end_bounds(s, p);
    let b = s.subrange(p, e);
    assert forall|j: int| 0 <= j < e - p implies byte_at(b, j) == byte_at(s, p + j) by {
        assert(b[j] == s[p + j]);
    }
    let start = if byte_at(s, p) == Some(0x2du8) {
        1int
    } else {
        0int
    };
    let a = int_end(s, p)->0;
    let c = frac_end(s, a)->0;
    lemma_skip_digits_run(s, p + start + 1);
    if a + 2 <= s.len() {
        lemma_skip_digits_run(s, a + 2);
    }
    if c + 2 <= s.len() {
        lemma_skip_digits_run(s, c + 2);
    }
    if c + 3 <= s.len() {
        lemma_skip_digits_run(s, c + 3);
    }
    assert(p + start < a <= c <= e);
    assert(byte_at(b, 0) == byte_at(s, p));
    assert(byte_at(b, start) == byte_at(s, p + start));
    if in_range_at(s, p + start, 0x31, 0x39) {
        lemma_skip_digits_unshift(s, p, e, start + 1);
    }
    assert(int_end(b, 0) == Some(a - p));
    if a < e {
        assert(byte_at(b, a - p) == byte_at(s, a));
    }
    if c > a {
        assert(byte_at(b, a - p + 1) == byte_at(s, a + 1));
        lemma_skip_digits_unshift(s, p, e, a - p + 2);
    }
    assert(frac_end(b, a - p) == Some(c - p));
    if c < e {
        assert(byte_at(b, c - p) == byte_at(s, c));
        assert(byte_at(b, c - p + 1) == byte_at(s, c + 1));
        if c + 2 < e {
            assert(byte_at(b, c - p + 2) == byte_at(s, c + 2));
        }
        if c + 2 <= e && skip_digits(s, c + 2) <= e {
            lemma_skip_digits_unshift(s, p, e, c - p + 2);
        }
        if c + 3 <= e && skip_digits(s, c + 3) <= e {
            lemma_skip_digits_unshift(s, p, e, c - p + 3);
        }
    }
}

/// The text of a number that is read from an input is the text of a JSON number.
proof fn lemma_number_wf(s: Seq<u8>, p: int, e: int)
    requires
        0 <= p,
        number_end(s, p) == Some(e),
    ensures
        is_number_text(ascii_chars(s.subrange(p, e))),
{
    let b = s.subrange(p, e);
    lemma_number_unshift(s, p, e);
    lemma_number_alphabet(b);
    let t = ascii_chars(b);
    assert forall|i: int| 0 <= i < t.len() implies (#[trigger] t[i]) as u32 <= 0x7f by {
        assert(b[i] < 0x80);
    }
    lemma_encode_ascii(t);
    assert(encode_utf8(t) =~= b) by {
        assert forall|i: int| 0 <= i < b.len() implies encode_utf8(t)[i] == b[i] by {
            assert(encode_utf8(t)[i] == t[i] as u8);
            assert(b[i] < 0x80);
        }
    }
}

/// Putting a new key into sorted entries leaves them sorted, with the values they had and the new one.
pub proof fn lemma_put_sorted(
    entries: Seq<(Seq<char>, JsonModel)>,
    key: Seq<char>,
    item: JsonModel,
)
    requires
        keys_sorted(entries),
        !has_key(entries, key),
        item.wf(),
        forall|i: int| 0 <= i < entries.len() ==> (#[trigger] entries[i]).1.wf(),
    ensures
        keys_sorted(put(entries, key, item)),
        forall|i: int|
            0 <= i < put(entries, key, item).len() ==> (#[trigger] put(entries, key, item)[i]).1.wf(),
{
    reveal(put);
    let r = rank(entries, key);
    let out = put(entries, key, item);
    lemma_rank_split(entries, key, entries.len() as int);
    assert forall|a: int, b: int| 0 <= a < b < out.len() implies key_lt(
        (#[trigger] out[a]).0,
        (#[trigger] out[b]).0,
    ) by {
        let a0 = if a < r { a } else { a - 1 };
        let b0 = if b < r { b } else { b - 1 };
        if a == r {
            assert(out[b] == entries[b0]);
            assert(!key_lt(entries[b0].0, key));
            assert(entries[b0].0 != key);
            crate::order::lemma_key_lt_total(key, entries[b0].0);
        } else if b == r {
            assert(out[a] == entries[a0]);
        } else {
            assert(out[a] == entries[a0]);
            assert(out[b] == entries[b0]);
        }
    }
    assert forall|i: int| 0 <= i < out.len() implies (#[trigger] out[i]).1.wf() by {
        if i < r {
            assert(out[i] == entries[i]);
        } else if i > r {
            assert(out[i] == entries[i - 1]);
        }
    }
}

/// In sorted entries the keys before the rank of `key` come before `key`, and no later one does.
proof fn lemma_rank_split(entries: Seq<(Seq<char>, JsonModel)>, key: Seq<char>, n: int)
    requires
        keys_sorted(entries),
        0 <= n <= entries.len(),
    ensures
        0 <= rank_upto(entries, key, n) <= n,
        forall|i: int| 0 <= i < rank_upto(entries, key, n) ==> key_lt((#[trigger] entries[i]).0, key),
        forall|i: int|
            rank_upto(entries, key, n) <= i < n ==> !key_lt((#[trigger] entries[i]).0, key),
    decreases n,
{
    if n > 0 {
        lemma_rank_split(entries, key, n - 1);
        let r = rank_upto(entries, key, n - 1);
        if key_lt(entries[n - 1].0, key) {
            if r < n - 1 {
                assert(!key_lt(entries[r].0, key));
                crate::order::lemma_key_lt_transitive(entries[r].0, entries[n - 1].0, key);
            }
        }
    }
}

/// Whether every item is well-formed.
pub open spec fn all_wf(items: Seq<JsonModel>) -> bool {
    forall|i: int| 0 <= i < items.len() ==> (#[trigger] items[i]).wf()
}

/// Whether the entries are sorted and every value is well-formed.
pub open spec fn entries_wf(entries: Seq<(Seq<char>, JsonModel)>) -> bool {
    keys_sorted(entries) && forall|i: int|
        0 <= i < entries.len() ==> (#[trigger] entries[i]).1.wf()
}

/// What the grammar reads is well-formed.
pub proof fn lemma_value_wf(s: Seq<u8>, pos: int)
    requires
        0 <= pos,
    ensures
        value(s, pos) matches Ok((v, _)) ==> v.wf(),
    decreases s.len() - pos, 0int,
{
    reveal(value);
    reveal(array);
    reveal(elements);
    reveal(object);
    reveal(members);
    let p = skip_layout(s, pos);
    crate::grammar::lemma_skip_layout_bounds(s, pos);
    if let Some(b) = byte_at(s, p) {
        if b == 0x22 {
        } else if is_digit(b) || b == 0x2d {
            if let Some(e) = number_end(s, p) {
                lemma_number_wf(s, p, e);
            }
        } else if b == 0x5b {
            lemma_array_wf(s, p + 1);
        } else if b == 0x7b {
            lemma_object_wf(s, p + 1);
        }
    }
}

proof fn lemma_array_wf(s: Seq<u8>, pos: int)
    requires
        0 <= pos,
    ensures
        array(s, pos) matches Ok((v, _)) ==> v.wf(),
    decreases s.len() - pos, 2int,
{
    reveal(value);
    reveal(array);
    reveal(elements);
    reveal(object);
    reveal(members);
    let p = skip_layout(s, pos);
    crate::grammar::lemma_skip_layout_bounds(s, pos);
    if byte_at(s, p) != Some(0x5du8) {
        lemma_elements_wf(s, p, Seq::empty());
    }
}

proof fn lemma_elements_wf(s: Seq<u8>, pos: int, acc: Seq<JsonModel>)
    requires
        0 <= pos,
        all_wf(acc),
    ensures
        elements(s, pos, acc) matches Ok((v, _)) ==> v.wf(),
    decreases s.len() - pos, 1int,
{
    reveal(value);
    reveal(array);
    reveal(elements);
    reveal(object);
    reveal(members);
    lemma_value_wf(s, pos);
    crate::grammar::lemma_value_bounds(s, pos);
    if let Ok((v, end)) = value(s, pos) {
        let p = skip_layout(s, end);
        crate::grammar::lemma_skip_layout_bounds(s, end);
        let next = acc.push(v);
        assert(all_wf(next)) by {
            assert forall|i: int| 0 <= i < next.len() implies (#[trigger] next[i]).wf() by {
                if i < acc.len() {
                    assert(next[i] == acc[i]);
                }
            }
        }
        if byte_at(s, p) == Some(0x2cu8) {
            lemma_elements_wf(s, p + 1, next);
        }
    }
}

proof fn lemma_object_wf(s: Seq<u8>, pos: int)
    requires
        0 <= pos,
    ensures
        object(s, pos) matches Ok((v, _)) ==> v.wf(),
    decreases s.len() - pos, 2int,
{
    reveal(value);
    reveal(array);
    reveal(elements);
    reveal(object);
    reveal(members);
    let p = skip_layout(s, pos);
    crate::grammar::lemma_skip_layout_bounds(s, pos);
    if byte_at(s, p) != Some(0x7du8) {
        lemma_members_wf(s, p, Seq::empty());
    }
}

proof fn lemma_members_wf(s: Seq<u8>, pos: int, acc: Seq<(Seq<char>, JsonModel)>)
    requires
        0 <= pos,
        entries_wf(acc),
    ensures
        members(s, pos, acc) matches Ok((v, _)) ==> v.wf(),
    decreases s.len() - pos, 1int,
{
    reveal(value);
    reveal(array);
    reveal(elements);
    reveal(object);
    reveal(members);
    if byte_at(s, pos) == Some(0x22u8) {
        lemma_string_body_bounds(s, pos + 1, Seq::empty());
        if let Ok((key, key_end)) = string_body(s, pos + 1, Seq::empty()) {
            let colon = skip_layout(s, key_end);
            crate::grammar::lemma_skip_layout_bounds(s, key_end);
            if byte_at(s, colon) == Some(0x3au8) {
                lemma_value_wf(s, colon + 1);
                crate::grammar::lemma_value_bounds(s, colon + 1);
                if let Ok((v, end)) = value(s, colon + 1) {
                    let p = skip_layout(s, end);
                    crate::grammar::lemma_skip_layout_bounds(s, end);
                    crate::grammar::lemma_skip_layout_bounds(s, p + 1);
                    if !has_key(acc, key) {
                        lemma_put_sorted(acc, key, v);
                        if byte_at(s, p) == Some(0x2cu8) {
                            lemma_members_wf(s, skip_layout(s, p + 1), put(acc, key, v));
                        }
                    }
                }
            }
        }
    }
}

/// The value of a document is well-formed.
pub proof fn lemma_document_wf(s: Seq<u8>)
    ensures
        document(s) matches Ok(v) ==> v.wf(),
{
    lemma_value_wf(s, 0);
}

// ---------------------------------------------------------------- the laws

/// Whether a text is canonical: the text that the serializer writes, with
/// the given option, for some well-formed value.
pub open spec fn canonical(t: Seq<u8>, ensure_ascii: bool) -> bool {
    exists|v: JsonModel| v.wf() && #[trigger] bytes_of(v, ensure_ascii) == t
}

/// Round trip: a canonical text is a document, and serializing the value
/// that it parses to, with the same option, gives the text back.
pub proof fn lemma_round_trip(t: Seq<u8>, ensure_ascii: bool)
    requires
        canonical(t, ensure_ascii),
    ensures
        document(t) matches Ok(v) && bytes_of(v, ensure_ascii) == t,
{
    let v = choose|v: JsonModel| v.wf() && #[trigger] bytes_of(v, ensure_ascii) == t;
    lemma_load_dump(v, ensure_ascii);
}

/// Idempotence of serializing: for the value `v` of any document, the text
/// of `v` is a document whose value has the same text; so parsing and
/// serializing a second time changes nothing.
pub proof fn lemma_dump_idempotent(t: Seq<u8>, ensure_ascii: bool)
    requires
        document(t) is Ok,
    ensures
        ({
            let v = document(t)->Ok_0;
            document(bytes_of(v, ensure_ascii)) matches Ok(w) && bytes_of(w, ensure_ascii)
                == bytes_of(v, ensure_ascii)
        }),
{
    let v = document(t)->Ok_0;
    lemma_document_wf(t);
    lemma_load_dump(v, ensure_ascii);
}

} // verus!
