//! The parser: recursive descent over a [`Stream`] of bytes, one byte of lookahead.
use core::marker::PhantomData;
use vstd::prelude::*;
use vstd::std_specs::convert::FromSpecImpl;
use vstd::string::StringSliceAdditionalSpecFns;

use crate::chars::{char_from_u32, push_char};
use crate::error::Result;
use crate::grammar::{
    array, ascii_chars, byte_at, document_from, elements, escape, exp_end, fault_error, frac_end,
    hex4_at, hex_at, in_range, in_range_at, int_end, is_digit, is_layout, is_plain, lemma_plain_run,
    lemma_skip_digits_is, lemma_skip_layout_bounds, lemma_skip_layout_is, lemma_string_body_bounds,
    lemma_value_bounds, lit_false, lit_null, lit_true, literal, members, multibyte_at, number,
    object, second_high, second_low, skip_digits, skip_layout, string_body, string_value,
    unicode_escape, value, ParseFault,
};
use crate::json::{lemma_array_view, models_of, JsonMap, JsonModel, JsonValue, Number};
use crate::stream::{in_bounds, SliceBytes, Stream};

verus! {

/// Whether the byte is one that may stand between tokens.
pub fn is_layout_byte(b: &u8) -> (r: bool)
    ensures
        r == is_layout(*b),
{
    *b == 0x20 || *b == 0x09 || *b == 0x0a || *b == 0x0d
}

/// Whether the byte lies in `lo..=hi`.
pub fn within_range(b: u8, lo: u8, hi: u8) -> (r: bool)
    ensures
        r == in_range(b, lo, hi),
{
    lo <= b && b <= hi
}

/// Whether the byte may stand for itself in a string.
pub fn is_plain_byte(b: &u8) -> (r: bool)
    ensures
        r == is_plain(*b),
{
    let v = *b;
    (0x20 <= v && v <= 0x21) || (0x23 <= v && v <= 0x5b) || (0x5d <= v && v <= 0x7e)
}

/// Whether the byte is a decimal digit.
pub fn is_digit_byte(b: &u8) -> (r: bool)
    ensures
        r == is_digit(*b),
{
    0x30 <= *b && *b <= 0x39
}

/// How the outcome of a parsing step stands to what the grammar says of it:
/// the same value and the cursor where the grammar ends, or the error that
/// reports the same fault.
pub open spec fn agrees(
    r: Result<JsonValue>,
    cursor: int,
    expected: core::result::Result<(JsonModel, int), ParseFault>,
) -> bool {
    match (r, expected) {
        (Ok(v), Ok((m, end))) => v@ == m && cursor == end,
        (Err(e), Err(f)) => e@ == fault_error(f),
        _ => false,
    }
}

/// A parser over a stream of items.
pub struct JsonLoader<T, S: Stream<T>> {
    bytes: S,
    buffer: String,
    marker: PhantomData<T>,
}

impl<'a> FromSpecImpl<&'a str> for JsonLoader<u8, SliceBytes<'a>> {
    open spec fn obeys_from_spec() -> bool {
        false
    }

    open spec fn from_spec(json: &'a str) -> Self {
        arbitrary()
    }
}

impl<'a> From<&'a str> for JsonLoader<u8, SliceBytes<'a>> {
    /// A parser at the start of the UTF-8 bytes of `json`.
    fn from(json: &'a str) -> (loader: Self)
        ensures
            loader.inv(),
            loader.input() == json.spec_bytes(),
            loader.cursor() == 0,
    {
        JsonLoader::new(SliceBytes::new(json.as_bytes()))
    }
}

impl<'a> FromSpecImpl<&'a [u8]> for JsonLoader<u8, SliceBytes<'a>> {
    open spec fn obeys_from_spec() -> bool {
        false
    }

    open spec fn from_spec(bytes: &'a [u8]) -> Self {
        arbitrary()
    }
}

impl<'a> From<&'a [u8]> for JsonLoader<u8, SliceBytes<'a>> {
    /// A parser at the start of `bytes`.
    fn from(bytes: &'a [u8]) -> (loader: Self)
        ensures
            loader.inv(),
            loader.input() == bytes@,
            loader.cursor() == 0,
    {
        JsonLoader::new(SliceBytes::new(bytes))
    }
}

impl<S: Stream<u8>> JsonLoader<u8, S> {
    /// A parser that reads from `bytes`, at the stream's cursor.
    pub fn new(bytes: S) -> (loader: Self)
        requires
            bytes.inv(),
            in_bounds(bytes.data(), bytes.mark(), bytes.cursor()),
        ensures
            loader.inv(),
            loader.input() == bytes.data(),
            loader.cursor() == bytes.cursor(),
    {
        JsonLoader { bytes, buffer: String::new(), marker: PhantomData }
    }

    /// The bytes that the parser reads.
    pub closed spec fn input(&self) -> Seq<u8> {
        self.bytes.data()
    }

    /// The index of the next byte.
    pub closed spec fn cursor(&self) -> int {
        self.bytes.cursor() as int
    }

    /// The characters of the string that is being read.
    pub closed spec fn pending(&self) -> Seq<char> {
        self.buffer@
    }

    /// The stream is in order, and its cursor inside the input.
    pub closed spec fn inv(&self) -> bool {
        self.bytes.inv() && in_bounds(self.bytes.data(), self.bytes.mark(), self.bytes.cursor())
    }

    /// The cursor of a parser in order lies inside the input.
    pub proof fn inv_bounds(&self)
        requires
            self.inv(),
        ensures
            0 <= self.cursor() <= self.input().len(),
    {
    }

    /// Moves past the layout bytes at the cursor.
    #[inline]
    pub fn skip_control_char(&mut self)
        requires
            old(self).inv(),
        ensures
            final(self).inv(),
            final(self).input() == old(self).input(),
            final(self).cursor() == skip_layout(old(self).input(), old(self).cursor()),
    {
        self.bytes.while_if(is_layout_byte);
        proof {
            lemma_skip_layout_is(old(self).input(), old(self).cursor(), self.cursor());
        }
    }

    /// Moves past the digits at the cursor.
    #[inline]
    fn skip_digits(&mut self)
        requires
            old(self).inv(),
        ensures
            final(self).inv(),
            final(self).input() == old(self).input(),
            final(self).bytes.mark() == old(self).bytes.mark(),
            final(self).cursor() == skip_digits(old(self).input(), old(self).cursor()),
    {
        self.bytes.while_if(is_digit_byte);
        proof {
            lemma_skip_digits_is(old(self).input(), old(self).cursor(), self.cursor());
        }
    }

    /// Reads the byte at the cursor, if there is one, and moves past it.
    #[inline]
    fn take(&mut self) -> (r: Option<u8>)
        requires
            old(self).inv(),
        ensures
            final(self).inv(),
            final(self).input() == old(self).input(),
            final(self).bytes.mark() == old(self).bytes.mark(),
            final(self).buffer == old(self).buffer,
            r == byte_at(old(self).input(), old(self).cursor()),
            final(self).cursor() == if r is Some {
                old(self).cursor() + 1
            } else {
                old(self).cursor()
            },
    {
        match self.bytes.next() {
            Some(b) => Some(*b),
            None => None,
        }
    }

    /// Reads the byte at the cursor, if there is one; the cursor stays.
    #[inline]
    fn look(&mut self) -> (r: Option<u8>)
        requires
            old(self).inv(),
        ensures
            final(self).inv(),
            final(self).input() == old(self).input(),
            final(self).bytes.mark() == old(self).bytes.mark(),
            final(self).buffer == old(self).buffer,
            final(self).cursor() == old(self).cursor(),
            r == byte_at(old(self).input(), old(self).cursor()),
    {
        match self.bytes.peek() {
            Some(b) => Some(*b),
            None => None,
        }
    }

    /// Moves past the byte at the cursor if it lies in `lo..=hi`, and says whether it moved.
    #[inline]
    fn accept_range(&mut self, lo: u8, hi: u8) -> (r: bool)
        requires
            old(self).inv(),
        ensures
            final(self).inv(),
            final(self).input() == old(self).input(),
            final(self).bytes.mark() == old(self).bytes.mark(),
            final(self).buffer == old(self).buffer,
            r == in_range_at(old(self).input(), old(self).cursor(), lo, hi),
            final(self).cursor() == if r {
                old(self).cursor() + 1
            } else {
                old(self).cursor()
            },
    {
        let within = |b: &u8| -> (r: bool)
            ensures
                r == in_range(*b, lo, hi),
            { within_range(*b, lo, hi) };
        self.bytes.next_if(within)
    }

    /// A number at the cursor.
    #[inline]
    pub fn get_number(&mut self) -> (r: Result<JsonValue>)
        requires
            old(self).inv(),
        ensures
            final(self).inv(),
            final(self).input() == old(self).input(),
            agrees(r, final(self).cursor(), number(old(self).input(), old(self).cursor())),
    {
        let ghost s = self.input();
        let ghost start = self.cursor();
        self.bytes.anchor();
        // [ minus ]
        self.accept_range(0x2d, 0x2d);
        // int = zero / ( digit1-9 *DIGIT )
        if self.accept_range(0x31, 0x39) {
            self.skip_digits();
        } else if !self.accept_range(0x30, 0x30) {
            return Err(ParseFault::ExtraData.error());
        }
        assert(int_end(s, start) == Some(self.cursor()));
        let ghost a = self.cursor();
        // frac = decimal-point 1*DIGIT
        if self.accept_range(0x2e, 0x2e) {
            if !self.accept_range(0x30, 0x39) {
                return Err(ParseFault::ExtraData.error());
            }
            self.skip_digits();
        }
        assert(frac_end(s, a) == Some(self.cursor()));
        let ghost b = self.cursor();
        // exp = e [ minus / plus ] 1*DIGIT
        if self.accept_range(0x65, 0x65) || self.accept_range(0x45, 0x45) {
            if !self.accept_range(0x2d, 0x2d) {
                self.accept_range(0x2b, 0x2b);
            }
            if !self.accept_range(0x30, 0x39) {
                return Err(ParseFault::ExtraData.error());
            }
            self.skip_digits();
        }
        assert(exp_end(s, b) == Some(self.cursor()));
        let text = ascii_string(self.bytes.read());
        Ok(JsonValue::Number(Number::new(text)))
    }

    /// The hexadecimal digit at the cursor.
    #[inline]
    fn hex_digit(&mut self) -> (r: Option<u32>)
        requires
            old(self).inv(),
        ensures
            final(self).inv(),
            final(self).input() == old(self).input(),
            final(self).buffer == old(self).buffer,
            match r {
                Some(v) => hex_at(old(self).input(), old(self).cursor()) == Some(v as int)
                    && final(self).cursor() == old(self).cursor() + 1 && v < 16,
                None => hex_at(old(self).input(), old(self).cursor()) is None,
            },
    {
        match self.take() {
            Some(b) => {
                if 0x30 <= b && b <= 0x39 {
                    Some((b - 0x30) as u32)
                } else if 0x41 <= b && b <= 0x46 {
                    Some((b - 0x41 + 10) as u32)
                } else if 0x61 <= b && b <= 0x66 {
                    Some((b - 0x61 + 10) as u32)
                } else {
                    None
                }
            },
            None => None,
        }
    }

    /// The UTF-16 code unit that the four hexadecimal digits at the cursor spell.
    #[inline]
    fn hex4(&mut self) -> (r: Option<u32>)
        requires
            old(self).inv(),
        ensures
            final(self).inv(),
            final(self).input() == old(self).input(),
            final(self).buffer == old(self).buffer,
            match r {
                Some(u) => hex4_at(old(self).input(), old(self).cursor()) == Some(u as int)
                    && final(self).cursor() == old(self).cursor() + 4 && u <= 0xffff,
                None => hex4_at(old(self).input(), old(self).cursor()) is None,
            },
    {
        let a = match self.hex_digit() {
            Some(v) => v,
            None => return None,
        };
        let b = match self.hex_digit() {
            Some(v) => v,
            None => return None,
        };
        let c = match self.hex_digit() {
            Some(v) => v,
            None => return None,
        };
        let d = match self.hex_digit() {
            Some(v) => v,
            None => return None,
        };
        Some(a * 4096 + b * 256 + c * 16 + d)
    }

    /// A `\u` escape, from the byte after the `u`: its character goes to the buffer.
    #[inline]
    pub fn handle_escaped_unicode(&mut self) -> (r: Result<()>)
        requires
            old(self).inv(),
        ensures
            final(self).inv(),
            final(self).input() == old(self).input(),
            match unicode_escape(old(self).input(), old(self).cursor()) {
                Ok((c, end)) => r is Ok && final(self).cursor() == end && final(self).pending()
                    == old(self).pending().push(c),
                Err(f) => r matches Err(e) && e@ == fault_error(f),
            },
    {
        let unit = match self.hex4() {
            Some(u) => u,
            None => return Err(ParseFault::ExtraData.error()),
        };
        if !(0xd800 <= unit && unit <= 0xdfff) {
            let c = char_from_u32(unit).unwrap();
            push_char(&mut self.buffer, c);
            return Ok(());
        }
        if unit > 0xdbff {
            return Err(ParseFault::NoSurrogate.error());
        }
        if !(self.accept_range(0x5c, 0x5c) && self.accept_range(0x75, 0x75)) {
            return Err(ParseFault::ExtraData.error());
        }
        let low = match self.hex4() {
            Some(u) => u,
            None => return Err(ParseFault::ExtraData.error()),
        };
        if !(0xdc00 <= low && low <= 0xdfff) {
            return Err(ParseFault::NoSurrogate.error());
        }
        let scalar: u32 = 0x10000 + (unit - 0xd800) * 0x400 + (low - 0xdc00);
        let c = char_from_u32(scalar).unwrap();
        push_char(&mut self.buffer, c);
        Ok(())
    }

    /// An escape, from the byte after the backslash: its character goes to the buffer.
    #[inline]
    pub fn handle_escaped_str(&mut self) -> (r: Result<()>)
        requires
            old(self).inv(),
        ensures
            final(self).inv(),
            final(self).input() == old(self).input(),
            match escape(old(self).input(), old(self).cursor()) {
                Ok((c, end)) => r is Ok && final(self).cursor() == end && final(self).pending()
                    == old(self).pending().push(c),
                Err(f) => r matches Err(e) && e@ == fault_error(f),
            },
    {
        let b = match self.take() {
            Some(b) => b,
            None => return Err(ParseFault::InvalidControlCharacter.error()),
        };
        if b == 0x75 {
            return self.handle_escaped_unicode();
        }
        let c = if b == 0x22 {
            '"'
        } else if b == 0x5c {
            '\\'
        } else if b == 0x2f {
            '/'
        } else if b == 0x62 {
            '\u{8}'
        } else if b == 0x66 {
            '\u{c}'
        } else if b == 0x6e {
            '\n'
        } else if b == 0x72 {
            '\r'
        } else if b == 0x74 {
            '\t'
        } else {
            return Err(ParseFault::InvalidControlCharacter.error());
        };
        push_char(&mut self.buffer, c);
        Ok(())
    }

    /// The byte at the cursor if it lies in `lo..=hi`, and the cursor moves past it.
    #[inline]
    fn take_range(&mut self, lo: u8, hi: u8) -> (r: Option<u8>)
        requires
            old(self).inv(),
        ensures
            final(self).inv(),
            final(self).input() == old(self).input(),
            final(self).buffer == old(self).buffer,
            r is Some == in_range_at(old(self).input(), old(self).cursor(), lo, hi),
            r matches Some(b) ==> b == old(self).input()[old(self).cursor()]
                && final(self).cursor() == old(self).cursor() + 1,
    {
        match self.look() {
            Some(b) => {
                if lo <= b && b <= hi {
                    self.bytes.skip();
                    Some(b)
                } else {
                    None
                }
            },
            None => None,
        }
    }

    /// A multi-byte UTF-8 sequence at the cursor, whose first byte is `lead`:
    /// its character goes to the buffer.
    #[inline]
    fn multibyte(&mut self, lead: u8) -> (r: Result<()>)
        requires
            old(self).inv(),
            byte_at(old(self).input(), old(self).cursor()) == Some(lead),
            0xc2 <= lead <= 0xf4,
        ensures
            final(self).inv(),
            final(self).input() == old(self).input(),
            match multibyte_at(old(self).input(), old(self).cursor()) {
                Some((c, width)) => r is Ok && final(self).cursor() == old(self).cursor() + width
                    && final(self).buffer@ == old(self).buffer@.push(c),
                None => r matches Err(e) && e@ == fault_error(ParseFault::InvalidUtf8),
            },
    {
        self.bytes.skip();
        let low: u8 = if lead == 0xe0 {
            0xa0
        } else if lead == 0xf0 {
            0x90
        } else {
            0x80
        };
        let high: u8 = if lead == 0xed {
            0x9f
        } else if lead == 0xf4 {
            0x8f
        } else {
            0xbf
        };
        let b2 = match self.take_range(low, high) {
            Some(b) => b,
            None => return Err(ParseFault::InvalidUtf8.error()),
        };
        let code: u32 = if lead <= 0xdf {
            let code = (((lead & 0x1f) as u32) << 6) | ((b2 & 0x3f) as u32);
            assert(vstd::utf8::is_scalar((((lead & 0x1f) as u32) << 6) | ((b2 & 0x3f) as u32)))
                by (bit_vector)
                requires
                    0xc2 <= lead <= 0xdf,
                    0x80 <= b2 <= 0xbf,
            ;
            code
        } else {
            let b3 = match self.take_range(0x80, 0xbf) {
                Some(b) => b,
                None => return Err(ParseFault::InvalidUtf8.error()),
            };
            if lead <= 0xef {
                let code = (((lead & 0x0f) as u32) << 12) | (((b2 & 0x3f) as u32) << 6) | ((b3
                    & 0x3f) as u32);
                assert(vstd::utf8::is_scalar(
                    (((lead & 0x0f) as u32) << 12) | (((b2 & 0x3f) as u32) << 6) | ((b3
                        & 0x3f) as u32),
                )) by (bit_vector)
                    requires
                        0xe0 <= lead <= 0xef,
                        second_low(lead) <= b2 <= second_high(lead),
                        0x80 <= b3 <= 0xbf,
                ;
                code
            } else {
                let b4 = match self.take_range(0x80, 0xbf) {
                    Some(b) => b,
                    None => return Err(ParseFault::InvalidUtf8.error()),
                };
                let code = (((lead & 0x07) as u32) << 18) | (((b2 & 0x3f) as u32) << 12) | (((b3
                    & 0x3f) as u32) << 6) | ((b4 & 0x3f) as u32);
                assert(vstd::utf8::is_scalar(
                    (((lead & 0x07) as u32) << 18) | (((b2 & 0x3f) as u32) << 12) | (((b3
                        & 0x3f) as u32) << 6) | ((b4 & 0x3f) as u32),
                )) by (bit_vector)
                    requires
                        0xf0 <= lead <= 0xf4,
                        second_low(lead) <= b2 <= second_high(lead),
                        0x80 <= b3 <= 0xbf,
                        0x80 <= b4 <= 0xbf,
                ;
                code
            }
        };
        let c = char_from_u32(code).unwrap();
        push_char(&mut self.buffer, c);
        Ok(())
    }

    /// A string, from the byte after its opening quotation mark.
    #[inline]
    pub fn _get_string(&mut self) -> (r: Result<String>)
        requires
            old(self).inv(),
        ensures
            final(self).inv(),
            final(self).input() == old(self).input(),
            match string_body(old(self).input(), old(self).cursor(), Seq::empty()) {
                Ok((chars, end)) => r matches Ok(text) && text@ == chars && final(self).cursor()
                    == end,
                Err(f) => r matches Err(e) && e@ == fault_error(f),
            },
    {
        let ghost s = self.input();
        let ghost start = self.cursor();
        self.buffer = String::new();
        loop
            invariant
                self.inv(),
                self.input() == s,
                s == old(self).input(),
                start == old(self).cursor(),
                string_body(s, start, Seq::empty()) == string_body(s, self.cursor(), self.buffer@),
            decreases s.len() - self.cursor(),
        {
            let b = match self.look() {
                Some(b) => b,
                None => return Err(ParseFault::UnterminatedString.error()),
            };
            if b == 0x22 {
                self.bytes.skip();
                let mut text = String::new();
                core::mem::swap(&mut self.buffer, &mut text);
                return Ok(text);
            } else if b == 0x5c {
                self.bytes.skip();
                match self.handle_escaped_str() {
                    Ok(()) => {},
                    Err(e) => return Err(e),
                }
            } else if is_plain_byte(&b) {
                // a run of bytes that stand for themselves is taken over as it is
                let ghost from = self.cursor();
                let ghost before = self.buffer@;
                self.bytes.anchor();
                self.bytes.while_if(is_plain_byte);
                push_ascii(&mut self.buffer, self.bytes.read());
                proof {
                    lemma_plain_run(s, from, self.cursor(), before);
                }
            } else if 0xc2 <= b && b <= 0xf4 {
                match self.multibyte(b) {
                    Ok(()) => {},
                    Err(e) => return Err(e),
                }
            } else {
                return Err(ParseFault::InvalidControlCharacter.error());
            }
        }
    }

    /// A string value, from the byte after its opening quotation mark.
    #[inline]
    pub fn get_string(&mut self) -> (r: Result<JsonValue>)
        requires
            old(self).inv(),
        ensures
            final(self).inv(),
            final(self).input() == old(self).input(),
            agrees(
                r,
                final(self).cursor(),
                string_value(old(self).input(), old(self).cursor()),
            ),
    {
        match self._get_string() {
            Ok(text) => Ok(JsonValue::String(text)),
            Err(e) => Err(e),
        }
    }

    /// The literal `null` at the cursor.
    #[inline]
    pub fn get_null(&mut self) -> (r: Result<JsonValue>)
        requires
            old(self).inv(),
        ensures
            final(self).inv(),
            final(self).input() == old(self).input(),
            agrees(
                r,
                final(self).cursor(),
                literal(old(self).input(), old(self).cursor(), lit_null(), JsonModel::Null),
            ),
    {
        let lit: [u8; 4] = [0x6e, 0x75, 0x6c, 0x6c];
        assert(lit@ =~= lit_null());
        if self.bytes.expect(lit.as_slice()) {
            Ok(JsonValue::Null)
        } else {
            Err(ParseFault::ExtraData.error())
        }
    }

    /// The literal `true` at the cursor.
    #[inline]
    pub fn get_true(&mut self) -> (r: Result<JsonValue>)
        requires
            old(self).inv(),
        ensures
            final(self).inv(),
            final(self).input() == old(self).input(),
            agrees(
                r,
                final(self).cursor(),
                literal(old(self).input(), old(self).cursor(), lit_true(), JsonModel::Bool(true)),
            ),
    {
        let lit: [u8; 4] = [0x74, 0x72, 0x75, 0x65];
        assert(lit@ =~= lit_true());
        if self.bytes.expect(lit.as_slice()) {
            Ok(JsonValue::Bool(true))
        } else {
            Err(ParseFault::ExtraData.error())
        }
    }

    /// The literal `false` at the cursor.
    #[inline]
    pub fn get_false(&mut self) -> (r: Result<JsonValue>)
        requires
            old(self).inv(),
        ensures
            final(self).inv(),
            final(self).input() == old(self).input(),
            agrees(
                r,
                final(self).cursor(),
                literal(old(self).input(), old(self).cursor(), lit_false(), JsonModel::Bool(false)),
            ),
    {
        let lit: [u8; 5] = [0x66, 0x61, 0x6c, 0x73, 0x65];
        assert(lit@ =~= lit_false());
        if self.bytes.expect(lit.as_slice()) {
            Ok(JsonValue::Bool(false))
        } else {
            Err(ParseFault::ExtraData.error())
        }
    }

    /// An array, from the byte after its opening bracket.
    #[inline]
    pub fn get_array(&mut self) -> (r: Result<JsonValue>)
        requires
            old(self).inv(),
        ensures
            final(self).inv(),
            final(self).input() == old(self).input(),
            agrees(r, final(self).cursor(), array(old(self).input(), old(self).cursor())),
        decreases old(self).input().len() - old(self).cursor(), 2int,
    {
        let ghost s = self.input();
        let ghost start = self.cursor();
        proof {
            reveal(value);
            reveal(array);
            reveal(elements);
            reveal(object);
            reveal(members);
            self.inv_bounds();
            lemma_skip_layout_bounds(s, start);
        }
        self.skip_control_char();
        if self.accept_range(0x5d, 0x5d) {
            let items: Vec<JsonValue> = Vec::new();
            proof {
                lemma_array_view(items);
                assert(models_of(items@) =~= Seq::<JsonModel>::empty());
            }
            return Ok(JsonValue::Array(items));
        }
        let mut items: Vec<JsonValue> = Vec::new();
        assert(models_of(items@) =~= Seq::<JsonModel>::empty());
        loop
            invariant
                self.inv(),
                self.input() == s,
                s == old(self).input(),
                start == old(self).cursor(),
                start <= self.cursor(),
                array(s, start) == elements(s, self.cursor(), models_of(items@)),
            decreases s.len() - self.cursor(),
        {
            let ghost at = self.cursor();
            let ghost before = models_of(items@);
            proof {
                reveal(value);
                reveal(array);
                reveal(elements);
                reveal(object);
                reveal(members);
                self.inv_bounds();
                lemma_value_bounds(s, at);
            }
            let v = match self._load() {
                Ok(v) => v,
                Err(e) => return Err(e),
            };
            proof {
                lemma_skip_layout_bounds(s, self.cursor());
            }
            let ghost m = v@;
            items.push(v);
            assert(models_of(items@) =~= before.push(m));
            self.skip_control_char();
            match self.take() {
                Some(b) => {
                    if b == 0x2c {
                    } else if b == 0x5d {
                        proof {
                            lemma_array_view(items);
                        }
                        return Ok(JsonValue::Array(items));
                    } else {
                        return Err(ParseFault::ExtraData.error());
                    }
                },
                None => return Err(ParseFault::ExtraData.error()),
            }
        }
    }

    /// An object, from the byte after its opening brace.
    #[inline]
    pub fn get_object(&mut self) -> (r: Result<JsonValue>)
        requires
            old(self).inv(),
        ensures
            final(self).inv(),
            final(self).input() == old(self).input(),
            agrees(r, final(self).cursor(), object(old(self).input(), old(self).cursor())),
        decreases old(self).input().len() - old(self).cursor(), 2int,
    {
        let ghost s = self.input();
        let ghost start = self.cursor();
        proof {
            reveal(value);
            reveal(array);
            reveal(elements);
            reveal(object);
            reveal(members);
            self.inv_bounds();
            lemma_skip_layout_bounds(s, start);
        }
        self.skip_control_char();
        if self.accept_range(0x7d, 0x7d) {
            return Ok(JsonValue::Object(JsonMap::new()));
        }
        let mut dict = JsonMap::new();
        loop
            invariant
                self.inv(),
                self.input() == s,
                s == old(self).input(),
                start == old(self).cursor(),
                start <= self.cursor(),
                object(s, start) == members(s, self.cursor(), dict@),
            decreases s.len() - self.cursor(),
        {
            let ghost at = self.cursor();
            proof {
                reveal(value);
                reveal(array);
                reveal(elements);
                reveal(object);
                reveal(members);
                self.inv_bounds();
                lemma_string_body_bounds(s, at + 1, Seq::empty());
            }
            if !self.accept_range(0x22, 0x22) {
                return Err(ParseFault::ExpectString.error());
            }
            let key = match self._get_string() {
                Ok(key) => key,
                Err(e) => return Err(e),
            };
            proof {
                lemma_skip_layout_bounds(s, self.cursor());
            }
            self.skip_control_char();
            if !self.accept_range(0x3a, 0x3a) {
                return Err(ParseFault::ExtraData.error());
            }
            proof {
                lemma_value_bounds(s, self.cursor());
            }
            let value = match self._load() {
                Ok(value) => value,
                Err(e) => return Err(e),
            };
            proof {
                lemma_skip_layout_bounds(s, self.cursor());
            }
            if dict.insert(key, value).is_some() {
                return Err(ParseFault::DuplicateKey.error());
            }
            self.skip_control_char();
            match self.take() {
                Some(b) => {
                    if b == 0x2c {
                    } else if b == 0x7d {
                        return Ok(JsonValue::Object(dict));
                    } else {
                        return Err(ParseFault::ExtraData.error());
                    }
                },
                None => return Err(ParseFault::ExtraData.error()),
            }
            proof {
                lemma_skip_layout_bounds(s, self.cursor());
            }
            self.skip_control_char();
        }
    }

    /// A value, after any layout bytes at the cursor.
    #[inline]
    pub fn _load(&mut self) -> (r: Result<JsonValue>)
        requires
            old(self).inv(),
        ensures
            final(self).inv(),
            final(self).input() == old(self).input(),
            agrees(r, final(self).cursor(), value(old(self).input(), old(self).cursor())),
        decreases old(self).input().len() - old(self).cursor(), 0int,
    {
        proof {
            reveal(value);
            reveal(array);
            reveal(elements);
            reveal(object);
            reveal(members);
            self.inv_bounds();
            lemma_skip_layout_bounds(self.input(), self.cursor());
        }
        self.skip_control_char();
        let b = match self.look() {
            Some(b) => b,
            None => return Err(ParseFault::ExpectValue.error()),
        };
        if b == 0x22 {
            self.bytes.skip();
            self.get_string()
        } else if (0x30 <= b && b <= 0x39) || b == 0x2d {
            self.get_number()
        } else if b == 0x5b {
            self.bytes.skip();
            self.get_array()
        } else if b == 0x7b {
            self.bytes.skip();
            self.get_object()
        } else if b == 0x66 {
            self.get_false()
        } else if b == 0x74 {
            self.get_true()
        } else if b == 0x6e {
            self.get_null()
        } else {
            Err(ParseFault::ExpectValue.error())
        }
    }

    /// Parses what stands from the cursor on as one JSON document: one value,
    /// with layout bytes before and after it and nothing else.
    pub fn load(&mut self) -> (r: Result<JsonValue>)
        requires
            old(self).inv(),
        ensures
            final(self).inv(),
            final(self).input() == old(self).input(),
            match document_from(old(self).input(), old(self).cursor()) {
                Ok(m) => r matches Ok(v) && v@ == m,
                Err(f) => r matches Err(e) && e@ == fault_error(f),
            },
            r matches Ok(v) ==> v@.wf(),
    {
        proof {
            self.inv_bounds();
            crate::laws::lemma_value_wf(self.input(), self.cursor());
        }
        let val = match self._load() {
            Ok(val) => val,
            Err(e) => return Err(e),
        };
        self.skip_control_char();
        if !self.bytes.finish() {
            return Err(ParseFault::ExtraData.error());
        }
        Ok(val)
    }
}

/// Appends one character for each of the given bytes, with the byte as its code.
pub fn push_ascii(text: &mut String, bytes: &[u8])
    ensures
        final(text)@ == old(text)@ + ascii_chars(bytes@),
{
    let mut i: usize = 0;
    while i < bytes.len()
        invariant
            i <= bytes@.len(),
            text@ == old(text)@ + ascii_chars(bytes@.subrange(0, i as int)),
        decreases bytes@.len() - i,
    {
        push_char(text, bytes[i] as char);
        assert((old(text)@ + ascii_chars(bytes@.subrange(0, i as int))).push(
            bytes@[i as int] as char,
        ) =~= old(text)@ + ascii_chars(bytes@.subrange(0, i + 1)));
        i += 1;
    }
    assert(bytes@.subrange(0, bytes@.len() as int) =~= bytes@);
}

/// The string that has one character for each of the given bytes, with the byte as its code.
pub fn ascii_string(bytes: &[u8]) -> (text: String)
    ensures
        text@ == ascii_chars(bytes@),
{
    let mut text = String::new();
    push_ascii(&mut text, bytes);
    assert(text@ =~= ascii_chars(bytes@));
    text
}

} // verus!
