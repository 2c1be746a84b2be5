//! The JSON grammar over bytes, as specification: for each production a
//! function from the input and an index to the parsed result and the index
//! after it, or to the fault on which parsing stops.
use vstd::prelude::*;
use vstd::utf8::{codepoint_width_2, codepoint_width_3, codepoint_width_4, encode_utf8};

use crate::error::{Error, ErrorModel, ErrorType};
use crate::json::{has_key, put, JsonModel};
use crate::stream::starts_with_at;

verus! {

/// The ways in which an input fails to be a JSON document.
#[derive(Clone, Copy, Debug, PartialEq, Eq, Structural)]
pub enum ParseFault {
    /// No value starts where one is expected.
    ExpectValue,
    /// A byte that the grammar does not allow at its place.
    ExtraData,
    /// The input ends inside a string.
    UnterminatedString,
    /// A byte that may not stand in a string, or an unknown escape.
    InvalidControlCharacter,
    /// A multi-byte sequence that is not well-formed UTF-8.
    InvalidUtf8,
    /// A `\u` escape that is half of a surrogate pair without its other half.
    NoSurrogate,
    /// A key that its object already holds.
    DuplicateKey,
    /// No key where an object needs one.
    ExpectString,
}

/// The message of the error that reports a fault.
pub open spec fn fault_text(f: ParseFault) -> Seq<char> {
    match f {
        ParseFault::ExpectValue => "expect value, found no data"@,
        ParseFault::ExtraData => "extra data"@,
        ParseFault::UnterminatedString => "unterminated string"@,
        ParseFault::InvalidControlCharacter => "invalid control character"@,
        ParseFault::InvalidUtf8 => "invalid utf-8 character"@,
        ParseFault::NoSurrogate => "no surrogate key"@,
        ParseFault::DuplicateKey => "exists same key"@,
        ParseFault::ExpectString => "expect string"@,
    }
}

/// The error that reports a fault.
pub open spec fn fault_error(f: ParseFault) -> ErrorModel {
    ErrorModel { kind: ErrorType::ParseError, message: fault_text(f) }
}

impl ParseFault {
    /// The parse error that reports this fault.
    pub fn error(self) -> (e: Error)
        ensures
            e@ == fault_error(self),
    {
        match self {
            ParseFault::ExpectValue => Error::new_parse_err("expect value, found no data"),
            ParseFault::ExtraData => Error::new_parse_err("extra data"),
            ParseFault::UnterminatedString => Error::new_parse_err("unterminated string"),
            ParseFault::InvalidControlCharacter => Error::new_parse_err(
                "invalid control character",
            ),
            ParseFault::InvalidUtf8 => Error::new_parse_err("invalid utf-8 character"),
            ParseFault::NoSurrogate => Error::new_parse_err("no surrogate key"),
            ParseFault::DuplicateKey => Error::new_parse_err("exists same key"),
            ParseFault::ExpectString => Error::new_parse_err("expect string"),
        }
    }
}

/// The byte at index `i`, if there is one.
pub open spec fn byte_at(s: Seq<u8>, i: int) -> Option<u8> {
    if 0 <= i < s.len() {
        Some(s[i])
    } else {
        None
    }
}

/// Whether `b` lies in `lo..=hi`.
pub open spec fn in_range(b: u8, lo: u8, hi: u8) -> bool {
    lo <= b && b <= hi
}

/// Whether there is a byte at index `i` and it lies in `lo..=hi`.
pub open spec fn in_range_at(s: Seq<u8>, i: int, lo: u8, hi: u8) -> bool {
    0 <= i < s.len() && in_range(s[i], lo, hi)
}

/// Blank, tab, line feed, carriage return: the bytes allowed between tokens.
pub open spec fn is_layout(b: u8) -> bool {
    b == 0x20 || b == 0x09 || b == 0x0a || b == 0x0d
}

/// Whether the byte is a decimal digit.
pub open spec fn is_digit(b: u8) -> bool {
    0x30 <= b <= 0x39
}

/// The index of the first byte at or after `pos` that is no layout byte.
pub open spec fn skip_layout(s: Seq<u8>, pos: int) -> int
    decreases s.len() - pos,
{
    if 0 <= pos < s.len() && is_layout(s[pos]) {
        skip_layout(s, pos + 1)
    } else {
        pos
    }
}

/// The index of the first byte at or after `pos` that is no digit.
pub open spec fn skip_digits(s: Seq<u8>, pos: int) -> int
    decreases s.len() - pos,
{
    if 0 <= pos < s.len() && is_digit(s[pos]) {
        skip_digits(s, pos + 1)
    } else {
        pos
    }
}

// ---------------------------------------------------------------- numbers

/// `[ minus ] int`, with `int = zero / ( digit1-9 *DIGIT )`: the index after it.
pub open spec fn int_end(s: Seq<u8>, pos: int) -> Option<int> {
    let p = if byte_at(s, pos) == Some(0x2du8) {
        pos + 1
    } else {
        pos
    };
    if in_range_at(s, p, 0x30, 0x30) {
        Some(p + 1)
    } else if in_range_at(s, p, 0x31, 0x39) {
        Some(skip_digits(s, p + 1))
    } else {
        None
    }
}

/// `[ frac ]`, with `frac = decimal-point 1*DIGIT`: the index after it.
pub open spec fn frac_end(s: Seq<u8>, pos: int) -> Option<int> {
    if byte_at(s, pos) == Some(0x2eu8) {
        if in_range_at(s, pos + 1, 0x30, 0x39) {
            Some(skip_digits(s, pos + 2))
        } else {
            None
        }
    } else {
        Some(pos)
    }
}

/// `[ exp ]`, with `exp = e [ minus / plus ] 1*DIGIT`: the index after it.
pub open spec fn exp_end(s: Seq<u8>, pos: int) -> Option<int> {
    if byte_at(s, pos) == Some(0x65u8) || byte_at(s, pos) == Some(0x45u8) {
        let p = if byte_at(s, pos + 1) == Some(0x2du8) || byte_at(s, pos + 1) == Some(0x2bu8) {
            pos + 2
        } else {
            pos + 1
        };
        if in_range_at(s, p, 0x30, 0x39) {
            Some(skip_digits(s, p + 1))
        } else {
            None
        }
    } else {
        Some(pos)
    }
}

/// `number = [ minus ] int [ frac ] [ exp ]`: the index after the longest
/// number that starts at `pos`, or `None` where none starts there.
pub open spec fn number_end(s: Seq<u8>, pos: int) -> Option<int> {
    match int_end(s, pos) {
        None => None,
        Some(a) => match frac_end(s, a) {
            None => None,
            Some(b) => exp_end(s, b),
        },
    }
}

/// A number at `pos`: its text, kept as it stands, and the index after it.
pub open spec fn number(s: Seq<u8>, pos: int) -> Result<(JsonModel, int), ParseFault> {
    match number_end(s, pos) {
        Some(end) => Ok((JsonModel::Number(ascii_chars(s.subrange(pos, end))), end)),
        None => Err(ParseFault::ExtraData),
    }
}

/// One character for each byte, with the byte as its code: for ASCII bytes,
/// the text that they spell.
pub open spec fn ascii_chars(bytes: Seq<u8>) -> Seq<char> {
    Seq::new(bytes.len(), |i: int| bytes[i] as char)
}

/// Whether a text, taken as a whole, is one JSON number.
pub open spec fn is_number_text(n: Seq<char>) -> bool {
    number_end(encode_utf8(n), 0) == Some(encode_utf8(n).len() as int)
}

// ---------------------------------------------------------------- strings

/// The bytes that may stand for themselves in a string.
pub open spec fn is_plain(b: u8) -> bool {
    0x20 <= b <= 0x21 || 0x23 <= b <= 0x5b || 0x5d <= b <= 0x7e
}

/// The least second byte of a well-formed sequence that `lead` starts.
pub open spec fn second_low(lead: u8) -> u8 {
    if lead == 0xe0 {
        0xa0
    } else if lead == 0xf0 {
        0x90
    } else {
        0x80
    }
}

/// The greatest second byte of a well-formed sequence that `lead` starts.
pub open spec fn second_high(lead: u8) -> u8 {
    if lead == 0xed {
        0x9f
    } else if lead == 0xf4 {
        0x8f
    } else {
        0xbf
    }
}

/// The character that the well-formed multi-byte sequence at `pos` encodes,
/// and the sequence's length; `None` where the bytes that follow the lead
/// byte are not what it asks for. The byte at `pos` is in `0xc2..=0xf4`.
pub open spec fn multibyte_at(s: Seq<u8>, pos: int) -> Option<(char, int)> {
    let lead = s[pos];
    if !in_range_at(s, pos + 1, second_low(lead), second_high(lead)) {
        None
    } else if lead <= 0xdf {
        Some((codepoint_width_2(lead, s[pos + 1]) as char, 2))
    } else if !in_range_at(s, pos + 2, 0x80, 0xbf) {
        None
    } else if lead <= 0xef {
        Some((codepoint_width_3(lead, s[pos + 1], s[pos + 2]) as char, 3))
    } else if !in_range_at(s, pos + 3, 0x80, 0xbf) {
        None
    } else {
        Some((codepoint_width_4(lead, s[pos + 1], s[pos + 2], s[pos + 3]) as char, 4))
    }
}

/// The value of a hexadecimal digit.
pub open spec fn hex_value(b: u8) -> Option<int> {
    if 0x30 <= b <= 0x39 {
        Some(b - 0x30)
    } else if 0x41 <= b <= 0x46 {
        Some(b - 0x41 + 10)
    } else if 0x61 <= b <= 0x66 {
        Some(b - 0x61 + 10)
    } else {
        None
    }
}

/// The value of the hexadecimal digit at index `i`, if one stands there.
pub open spec fn hex_at(s: Seq<u8>, i: int) -> Option<int> {
    match byte_at(s, i) {
        Some(b) => hex_value(b),
        None => None,
    }
}

/// The UTF-16 code unit that the four hexadecimal digits at `pos` spell.
pub open spec fn hex4_at(s: Seq<u8>, pos: int) -> Option<int> {
    match (hex_at(s, pos), hex_at(s, pos + 1), hex_at(s, pos + 2), hex_at(s, pos + 3)) {
        (Some(a), Some(b), Some(c), Some(d)) => Some(a * 4096 + b * 256 + c * 16 + d),
        _ => None,
    }
}

/// Whether the code unit is the first of a surrogate pair.
pub open spec fn is_high_surrogate(u: int) -> bool {
    0xd800 <= u <= 0xdbff
}

/// Whether the code unit is the second of a surrogate pair.
pub open spec fn is_low_surrogate(u: int) -> bool {
    0xdc00 <= u <= 0xdfff
}

/// The code point that a surrogate pair stands for.
pub open spec fn pair_scalar(high: int, low: int) -> int {
    0x10000 + (high - 0xd800) * 0x400 + (low - 0xdc00)
}

/// A `\u` escape whose four digits start at `pos`: the character it stands
/// for and the index after it. A high surrogate takes the low surrogate's
/// escape with it.
pub open spec fn unicode_escape(s: Seq<u8>, pos: int) -> Result<(char, int), ParseFault> {
    match hex4_at(s, pos) {
        None => Err(ParseFault::ExtraData),
        Some(unit) => if !is_high_surrogate(unit) && !is_low_surrogate(unit) {
            Ok((unit as char, pos + 4))
        } else if is_low_surrogate(unit) {
            Err(ParseFault::NoSurrogate)
        } else if byte_at(s, pos + 4) != Some(0x5cu8) || byte_at(s, pos + 5) != Some(0x75u8) {
            Err(ParseFault::ExtraData)
        } else {
            match hex4_at(s, pos + 6) {
                None => Err(ParseFault::ExtraData),
                Some(low) => if is_low_surrogate(low) {
                    Ok((pair_scalar(unit, low) as char, pos + 10))
                } else {
                    Err(ParseFault::NoSurrogate)
                },
            }
        },
    }
}

/// The character that a one-letter escape stands for.
pub open spec fn simple_escape(b: u8) -> Option<char> {
    if b == 0x22 {
        Some('"')
    } else if b == 0x5c {
        Some('\\')
    } else if b == 0x2f {
        Some('/')
    } else if b == 0x62 {
        Some('\u{8}')
    } else if b == 0x66 {
        Some('\u{c}')
    } else if b == 0x6e {
        Some('\n')
    } else if b == 0x72 {
        Some('\r')
    } else if b == 0x74 {
        Some('\t')
    } else {
        None
    }
}

/// An escape, from the byte after its backslash: the character it stands for
/// and the index after it.
pub open spec fn escape(s: Seq<u8>, pos: int) -> Result<(char, int), ParseFault> {
    match byte_at(s, pos) {
        Some(b) => if b == 0x75 {
            unicode_escape(s, pos + 1)
        } else {
            match simple_escape(b) {
                Some(c) => Ok((c, pos + 1)),
                None => Err(ParseFault::InvalidControlCharacter),
            }
        },
        None => Err(ParseFault::InvalidControlCharacter),
    }
}

/// A string from the byte after its opening quotation mark, with the
/// characters `acc` read so far: all its characters and the index after its
/// closing quotation mark.
pub open spec fn string_body(s: Seq<u8>, pos: int, acc: Seq<char>) -> Result<
    (Seq<char>, int),
    ParseFault,
>
    decreases s.len() - pos,
{
    if pos < 0 || pos >= s.len() {
        Err(ParseFault::UnterminatedString)
    } else if s[pos] == 0x22 {
        Ok((acc, pos + 1))
    } else if s[pos] == 0x5c {
        match escape(s, pos + 1) {
            Ok((c, next)) => string_body(s, next, acc.push(c)),
            Err(f) => Err(f),
        }
    } else if is_plain(s[pos]) {
        string_body(s, pos + 1, acc.push(s[pos] as char))
    } else if 0xc2 <= s[pos] <= 0xf4 {
        match multibyte_at(s, pos) {
            Some((c, width)) => string_body(s, pos + width, acc.push(c)),
            None => Err(ParseFault::InvalidUtf8),
        }
    } else {
        Err(ParseFault::InvalidControlCharacter)
    }
}

/// A string value, from the byte after its opening quotation mark.
pub open spec fn string_value(s: Seq<u8>, pos: int) -> Result<(JsonModel, int), ParseFault> {
    match string_body(s, pos, Seq::empty()) {
        Ok((chars, end)) => Ok((JsonModel::String(chars), end)),
        Err(f) => Err(f),
    }
}

// ---------------------------------------------------------------- values

/// The bytes of `null`.
pub open spec fn lit_null() -> Seq<u8> {
    seq![0x6eu8, 0x75u8, 0x6cu8, 0x6cu8]
}

/// The bytes of `true`.
pub open spec fn lit_true() -> Seq<u8> {
    seq![0x74u8, 0x72u8, 0x75u8, 0x65u8]
}

/// The bytes of `false`.
pub open spec fn lit_false() -> Seq<u8> {
    seq![0x66u8, 0x61u8, 0x6cu8, 0x73u8, 0x65u8]
}

/// Skipping layout moves forward, and not past the end of the input.
pub proof fn lemma_skip_layout_bounds(s: Seq<u8>, pos: int)
    ensures
        pos <= skip_layout(s, pos),
        pos <= s.len() ==> skip_layout(s, pos) <= s.len(),
    decreases s.len() - pos,
{
    if 0 <= pos < s.len() && is_layout(s[pos]) {
        lemma_skip_layout_bounds(s, pos + 1);
    }
}

/// Skipping digits moves forward, and not past the end of the input.
pub proof fn lemma_skip_digits_bounds(s: Seq<u8>, pos: int)
    ensures
        pos <= skip_digits(s, pos),
        pos <= s.len() ==> skip_digits(s, pos) <= s.len(),
    decreases s.len() - pos,
{
    if 0 <= pos < s.len() && is_digit(s[pos]) {
        lemma_skip_digits_bounds(s, pos + 1);
    }
}

/// A run of bytes that stand for themselves is read as the characters that they are.
pub proof fn lemma_plain_run(s: Seq<u8>, p: int, q: int, acc: Seq<char>)
    requires
        0 <= p <= q <= s.len(),
        forall|i: int| p <= i < q ==> is_plain(#[trigger] s[i]),
    ensures
        string_body(s, p, acc) == string_body(s, q, acc + ascii_chars(s.subrange(p, q))),
    decreases q - p,
{
    if p == q {
        assert(acc + ascii_chars(s.subrange(p, q)) =~= acc);
    } else {
        assert(is_plain(s[p]));
        lemma_plain_run(s, p + 1, q, acc.push(s[p] as char));
        assert(acc.push(s[p] as char) + ascii_chars(s.subrange(p + 1, q)) =~= acc + ascii_chars(
            s.subrange(p, q),
        ));
    }
}

/// A string ends after the index at which its body starts, and inside the input.
pub proof fn lemma_string_body_bounds(s: Seq<u8>, pos: int, acc: Seq<char>)
    ensures
        string_body(s, pos, acc) matches Ok((_, end)) ==> pos < end <= s.len(),
    decreases s.len() - pos,
{
    if pos < 0 || pos >= s.len() {
    } else if s[pos] == 0x22 {
    } else if s[pos] == 0x5c {
        match escape(s, pos + 1) {
            Ok((c, next)) => lemma_string_body_bounds(s, next, acc.push(c)),
            Err(f) => {},
        }
    } else if is_plain(s[pos]) {
        lemma_string_body_bounds(s, pos + 1, acc.push(s[pos] as char));
    } else if 0xc2 <= s[pos] <= 0xf4 {
        match multibyte_at(s, pos) {
            Some((c, width)) => lemma_string_body_bounds(s, pos + width, acc.push(c)),
            None => {},
        }
    }
}

/// The literal `lit` at `pos`, which stands for `v`.
pub open spec fn literal(s: Seq<u8>, pos: int, lit: Seq<u8>, v: JsonModel) -> Result<
    (JsonModel, int),
    ParseFault,
> {
    if starts_with_at(s, pos, lit) {
        Ok((v, pos + lit.len()))
    } else {
        Err(ParseFault::ExtraData)
    }
}

/// A value, after any layout bytes at `pos`: the value and the index after it.
#[verifier::opaque]
pub open spec fn value(s: Seq<u8>, pos: int) -> Result<(JsonModel, int), ParseFault>
    decreases s.len() - pos, 0int,
{
    let p = skip_layout(s, pos);
    proof {
        lemma_skip_layout_bounds(s, pos);
    }
    match byte_at(s, p) {
        None => Err(ParseFault::ExpectValue),
        Some(b) => if b == 0x22 {
            string_value(s, p + 1)
        } else if is_digit(b) || b == 0x2d {
            number(s, p)
        } else if b == 0x5b {
            array(s, p + 1)
        } else if b == 0x7b {
            object(s, p + 1)
        } else if b == 0x66 {
            literal(s, p, lit_false(), JsonModel::Bool(false))
        } else if b == 0x74 {
            literal(s, p, lit_true(), JsonModel::Bool(true))
        } else if b == 0x6e {
            literal(s, p, lit_null(), JsonModel::Null)
        } else {
            Err(ParseFault::ExpectValue)
        },
    }
}

/// An array, from the byte after its opening bracket.
#[verifier::opaque]
pub open spec fn array(s: Seq<u8>, pos: int) -> Result<(JsonModel, int), ParseFault>
    decreases s.len() - pos, 2int,
{
    let p = skip_layout(s, pos);
    proof {
        lemma_skip_layout_bounds(s, pos);
    }
    if byte_at(s, p) == Some(0x5du8) {
        Ok((JsonModel::Array(Seq::empty()), p + 1))
    } else {
        elements(s, p, Seq::empty())
    }
}

/// The elements of an array from the index at which one is due, with the
/// elements `acc` read so far, up to the closing bracket.
#[verifier::opaque]
pub open spec fn elements(s: Seq<u8>, pos: int, acc: Seq<JsonModel>) -> Result<
    (JsonModel, int),
    ParseFault,
>
    decreases s.len() - pos, 1int,
{
    match value(s, pos) {
        Err(f) => Err(f),
        Ok((v, end)) => {
            let p = skip_layout(s, end);
            proof {
                lemma_skip_layout_bounds(s, end);
            }
            if end <= pos {
                // no value is empty: see `lemma_value_bounds`
                Err(ParseFault::ExpectValue)
            } else if byte_at(s, p) == Some(0x2cu8) {
                elements(s, p + 1, acc.push(v))
            } else if byte_at(s, p) == Some(0x5du8) {
                Ok((JsonModel::Array(acc.push(v)), p + 1))
            } else {
                Err(ParseFault::ExtraData)
            }
        },
    }
}

/// An object, from the byte after its opening brace.
#[verifier::opaque]
pub open spec fn object(s: Seq<u8>, pos: int) -> Result<(JsonModel, int), ParseFault>
    decreases s.len() - pos, 2int,
{
    let p = skip_layout(s, pos);
    proof {
        lemma_skip_layout_bounds(s, pos);
    }
    if byte_at(s, p) == Some(0x7du8) {
        Ok((JsonModel::Object(Seq::empty()), p + 1))
    } else {
        members(s, p, Seq::empty())
    }
}

/// The members of an object from the index at which a key is due, with the
/// entries `acc` read so far, up to the closing brace.
#[verifier::opaque]
pub open spec fn members(s: Seq<u8>, pos: int, acc: Seq<(Seq<char>, JsonModel)>) -> Result<
    (JsonModel, int),
    ParseFault,
>
    decreases s.len() - pos, 1int,
{
    if byte_at(s, pos) != Some(0x22u8) {
        Err(ParseFault::ExpectString)
    } else {
        match string_body(s, pos + 1, Seq::empty()) {
            Err(f) => Err(f),
            Ok((key, key_end)) => {
                let colon = skip_layout(s, key_end);
                proof {
                    lemma_string_body_bounds(s, pos + 1, Seq::empty());
                    lemma_skip_layout_bounds(s, key_end);
                }
                if byte_at(s, colon) != Some(0x3au8) {
                    Err(ParseFault::ExtraData)
                } else {
                    match value(s, colon + 1) {
                        Err(f) => Err(f),
                        Ok((v, end)) => {
                            let p = skip_layout(s, end);
                            proof {
                                lemma_skip_layout_bounds(s, end);
                                lemma_skip_layout_bounds(s, p + 1);
                            }
                            if has_key(acc, key) {
                                Err(ParseFault::DuplicateKey)
                            } else if end <= pos {
                                // no value is empty: see `lemma_value_bounds`
                                Err(ParseFault::ExpectValue)
                            } else if byte_at(s, p) == Some(0x2cu8) {
                                members(s, skip_layout(s, p + 1), put(acc, key, v))
                            } else if byte_at(s, p) == Some(0x7du8) {
                                Ok((JsonModel::Object(put(acc, key, v)), p + 1))
                            } else {
                                Err(ParseFault::ExtraData)
                            }
                        },
                    }
                }
            },
        }
    }
}

/// What stands from `pos` on as one JSON document: layout, one value,
/// layout, and nothing else.
pub open spec fn document_from(s: Seq<u8>, pos: int) -> Result<JsonModel, ParseFault> {
    match value(s, pos) {
        Err(f) => Err(f),
        Ok((v, end)) => if skip_layout(s, end) == s.len() {
            Ok(v)
        } else {
            Err(ParseFault::ExtraData)
        },
    }
}

/// A whole input as one JSON document.
pub open spec fn document(s: Seq<u8>) -> Result<JsonModel, ParseFault> {
    document_from(s, 0)
}

/// Where the first `q - p` bytes from `p` on are layout and the next is not, the layout ends at `q`.
pub proof fn lemma_skip_layout_is(s: Seq<u8>, p: int, q: int)
    requires
        0 <= p <= q <= s.len(),
        forall|i: int| p <= i < q ==> is_layout(#[trigger] s[i]),
        q < s.len() ==> !is_layout(s[q]),
    ensures
        skip_layout(s, p) == q,
    decreases q - p,
{
    if p < q {
        lemma_skip_layout_is(s, p + 1, q);
    }
}

/// Where the first `q - p` bytes from `p` on are digits and the next is not, the digits end at `q`.
pub proof fn lemma_skip_digits_is(s: Seq<u8>, p: int, q: int)
    requires
        0 <= p <= q <= s.len(),
        forall|i: int| p <= i < q ==> is_digit(#[trigger] s[i]),
        q < s.len() ==> !is_digit(s[q]),
    ensures
        skip_digits(s, p) == q,
    decreases q - p,
{
    if p < q {
        lemma_skip_digits_is(s, p + 1, q);
    }
}

// ---------------------------------------------------------------- bounds

/// A number ends after the index at which it starts, and inside the input.
pub proof fn lemma_number_end_bounds(s: Seq<u8>, pos: int)
    requires
        0 <= pos,
    ensures
        number_end(s, pos) matches Some(end) ==> pos < end <= s.len(),
{
    let p = if byte_at(s, pos) == Some(0x2du8) {
        pos + 1
    } else {
        pos
    };
    lemma_skip_digits_bounds(s, p + 1);
    if let Some(a) = int_end(s, pos) {
        lemma_skip_digits_bounds(s, a + 2);
        if let Some(b) = frac_end(s, a) {
            lemma_skip_digits_bounds(s, b + 2);
            lemma_skip_digits_bounds(s, b + 3);
        }
    }
}

/// A value ends after the index at which it is looked for, and inside the input.
pub proof fn lemma_value_bounds(s: Seq<u8>, pos: int)
    requires
        0 <= pos,
    ensures
        value(s, pos) matches Ok((_, end)) ==> pos < end <= s.len(),
    decreases s.len() - pos, 0int,
{
    reveal(value);
    reveal(array);
    reveal(elements);
    reveal(object);
    reveal(members);
    let p = skip_layout(s, pos);
    lemma_skip_layout_bounds(s, pos);
    if let Some(b) = byte_at(s, p) {
        if b == 0x22 {
            lemma_string_body_bounds(s, p + 1, Seq::empty());
        } else if is_digit(b) || b == 0x2d {
            lemma_number_end_bounds(s, p);
        } else if b == 0x5b {
            lemma_array_bounds(s, p + 1);
        } else if b == 0x7b {
            lemma_object_bounds(s, p + 1);
        }
    }
}

/// An array ends after the index from which it is read, and inside the input.
pub proof fn lemma_array_bounds(s: Seq<u8>, pos: int)
    requires
        0 <= pos,
    ensures
        array(s, pos) matches Ok((_, end)) ==> pos < end <= s.len(),
    decreases s.len() - pos, 2int,
{
    reveal(value);
    reveal(array);
    reveal(elements);
    reveal(object);
    reveal(members);
    let p = skip_layout(s, pos);
    lemma_skip_layout_bounds(s, pos);
    if byte_at(s, p) != Some(0x5du8) {
        lemma_elements_bounds(s, p, Seq::empty());
    }
}

/// The elements of an array end after the index from which they are read, and inside the input.
pub proof fn lemma_elements_bounds(s: Seq<u8>, pos: int, acc: Seq<JsonModel>)
    requires
        0 <= pos,
    ensures
        elements(s, pos, acc) matches Ok((_, end)) ==> pos < end <= s.len(),
    decreases s.len() - pos, 1int,
{
    reveal(value);
    reveal(array);
    reveal(elements);
    reveal(object);
    reveal(members);
    lemma_value_bounds(s, pos);
    if let Ok((v, end)) = value(s, pos) {
        let p = skip_layout(s, end);
        lemma_skip_layout_bounds(s, end);
        if byte_at(s, p) == Some(0x2cu8) {
            lemma_elements_bounds(s, p + 1, acc.push(v));
        }
    }
}

/// An object ends after the index from which it is read, and inside the input.
pub proof fn lemma_object_bounds(s: Seq<u8>, pos: int)
    requires
        0 <= pos,
    ensures
        object(s, pos) matches Ok((_, end)) ==> pos < end <= s.len(),
    decreases s.len() - pos, 2int,
{
    reveal(value);
    reveal(array);
    reveal(elements);
    reveal(object);
    reveal(members);
    let p = skip_layout(s, pos);
    lemma_skip_layout_bounds(s, pos);
    if byte_at(s, p) != Some(0x7du8) {
        lemma_members_bounds(s, p, Seq::empty());
    }
}

/// The members of an object end after the index from which they are read, and inside the input.
pub proof fn lemma_members_bounds(s: Seq<u8>, pos: int, acc: Seq<(Seq<char>, JsonModel)>)
    requires
        0 <= pos,
    ensures
        members(s, pos, acc) matches Ok((_, end)) ==> pos < end <= s.len(),
    decreases s.len() - pos, 1int,
{
    reveal(value);
    reveal(array);
    reveal(elements);
    reveal(object);
    reveal(members);
    if byte_at(s, pos) == Some(0x22u8) {
        lemma_string_body_bounds(s, pos + 1, Seq::empty());
        if let Ok((key, key_end)) = string_body(s, pos + 1, Seq::empty()) {
            let colon = skip_layout(s, key_end);
            lemma_skip_layout_bounds(s, key_end);
            if byte_at(s, colon) == Some(0x3au8) {
                lemma_value_bounds(s, colon + 1);
                if let Ok((v, end)) = value(s, colon + 1) {
                    let p = skip_layout(s, end);
                    lemma_skip_layout_bounds(s, end);
                    lemma_skip_layout_bounds(s, p + 1);
                    if !has_key(acc, key) && byte_at(s, p) == Some(0x2cu8) {
                        lemma_members_bounds(s, skip_layout(s, p + 1), put(acc, key, v));
                    }
                }
            }
        }
    }
}

} // verus!
