//! The serializer: from a value to its canonical text.
use vstd::prelude::*;
use vstd::string::StringExecFns;

use crate::chars::push_char;
use crate::json::{lemma_array_view, models_of, JsonModel, JsonValue};
use crate::text::{
    escape_char, escape_from, hex_char, items_from, members_from, quote, text_null, text_of,
    unit_escape,
};

verus! {

/// The lower-case hexadecimal digit for `n`.
fn hex_digit(n: u32) -> (c: char)
    requires
        n < 16,
    ensures
        c == hex_char(n as int),
{
    if n < 10 {
        (0x30 + n as u8) as char
    } else {
        (0x61 + (n as u8 - 10)) as char
    }
}

/// Appends the escape `\uXXXX` for the code unit `u`.
fn push_unit(buffer: &mut String, u: u32)
    requires
        u <= 0xffff,
    ensures
        final(buffer)@ == old(buffer)@ + unit_escape(u as int),
{
    push_char(buffer, '\\');
    push_char(buffer, 'u');
    push_char(buffer, hex_digit(u / 4096 % 16));
    push_char(buffer, hex_digit(u / 256 % 16));
    push_char(buffer, hex_digit(u / 16 % 16));
    push_char(buffer, hex_digit(u % 16));
    assert(buffer@ =~= old(buffer)@ + unit_escape(u as int));
}

/// Appends one character of a string as it is written.
fn push_escaped(buffer: &mut String, c: char, ensure_ascii: bool)
    ensures
        final(buffer)@ == old(buffer)@ + escape_char(c, ensure_ascii),
{
    let u = c as u32;
    if u == 0x22 {
        push_char(buffer, '\\');
        push_char(buffer, '"');
    } else if u == 0x5c {
        push_char(buffer, '\\');
        push_char(buffer, '\\');
    } else if u == 0x08 {
        push_char(buffer, '\\');
        push_char(buffer, 'b');
    } else if u == 0x0c {
        push_char(buffer, '\\');
        push_char(buffer, 'f');
    } else if u == 0x0a {
        push_char(buffer, '\\');
        push_char(buffer, 'n');
    } else if u == 0x0d {
        push_char(buffer, '\\');
        push_char(buffer, 'r');
    } else if u == 0x09 {
        push_char(buffer, '\\');
        push_char(buffer, 't');
    } else if 0x20 <= u && u <= 0x7e {
        push_char(buffer, c);
    } else if u < 0x80 {
        push_unit(buffer, u);
    } else if !ensure_ascii {
        push_char(buffer, c);
    } else if u < 0x10000 {
        push_unit(buffer, u);
    } else {
        push_unit(buffer, 0xd800 + (u - 0x10000) / 0x400);
        push_unit(buffer, 0xdc00 + (u - 0x10000) % 0x400);
    }
    assert(buffer@ =~= old(buffer)@ + escape_char(c, ensure_ascii));
}

/// What stands between the text written so far and item `i` of `n`: a
/// comma, but before the first item and after the last.
spec fn separator(i: int, n: int) -> Seq<char> {
    if 0 < i < n {
        seq![',']
    } else {
        Seq::empty()
    }
}

/// A serializer with one option: whether the text is kept within ASCII.
pub struct JsonDumper {
    ensure_ascii: bool,
    buffer: String,
}

impl JsonDumper {
    /// A serializer that escapes every character beyond ASCII where `ensure_ascii` is set.
    pub fn new(ensure_ascii: bool) -> (dumper: Self)
        ensures
            dumper.ensure_ascii() == ensure_ascii,
    {
        Self { ensure_ascii, buffer: String::new() }
    }

    /// Whether every character beyond ASCII is written as an escape.
    pub closed spec fn ensure_ascii(&self) -> bool {
        self.ensure_ascii
    }

    /// Writes the string `val`, as it stands in a JSON text, into `buffer`,
    /// in place of what the buffer held.
    #[inline]
    pub fn escape(val: &str, buffer: &mut String, ensure_ascii: bool)
        ensures
            final(buffer)@ == quote(val@, ensure_ascii),
    {
        *buffer = String::new();
        push_char(buffer, '"');
        assert(buffer@ + escape_from(val@, ensure_ascii, 0) + seq!['"'] =~= quote(
            val@,
            ensure_ascii,
        ));
        for c in it: val.chars()
            invariant
                it.seq() == val@,
                buffer@ + escape_from(val@, ensure_ascii, it.index() as int) + seq!['"'] == quote(
                    val@,
                    ensure_ascii,
                ),
        {
            let ghost before = buffer@;
            push_escaped(buffer, c, ensure_ascii);
            assert(buffer@ + escape_from(val@, ensure_ascii, it.index() + 1) =~= before
                + escape_from(val@, ensure_ascii, it.index() as int));
        }
        assert(escape_from(val@, ensure_ascii, val@.len() as int) =~= Seq::<char>::empty());
        let ghost before = buffer@;
        push_char(buffer, '"');
        assert(buffer@ =~= before + Seq::<char>::empty() + seq!['"']);
    }

    /// The canonical text of `value`.
    pub fn dump(&mut self, value: &JsonValue) -> (text: String)
        ensures
            text@ == text_of(value@, old(self).ensure_ascii()),
            final(self).ensure_ascii() == old(self).ensure_ascii(),
        decreases value@,
    {
        match value {
            JsonValue::Null => {
                proof {
                    reveal_strlit("null");
                }
                let text = String::from_str("null");
                assert(text@ =~= text_null());
                text
            },
            JsonValue::Bool(val) => {
                proof {
                    reveal_strlit("true");
                    reveal_strlit("false");
                }
                let text = if *val {
                    String::from_str("true")
                } else {
                    String::from_str("false")
                };
                assert(text@ =~= text_of(value@, self.ensure_ascii()));
                text
            },
            JsonValue::Number(val) => val.to_string(),
            JsonValue::String(val) => {
                JsonDumper::escape(val.as_str(), &mut self.buffer, self.ensure_ascii);
                self.buffer.clone()
            },
            JsonValue::Array(arr) => {
                let ghost ea = self.ensure_ascii();
                let ghost items = models_of(arr@);
                proof {
                    lemma_array_view(*arr);
                }
                let n = arr.len();
                let mut duffer = String::new();
                push_char(&mut duffer, '[');
                let mut i: usize = 0;
                while i < n
                    invariant
                        n == arr@.len(),
                        i <= n,
                        items == models_of(arr@),
                        value@ == JsonModel::Array(items),
                        self.ensure_ascii() == ea,
                        seq!['['] + items_from(items, ea, 0) == duffer@ + separator(i as int, n as int)
                            + items_from(items, ea, i as int),
                    decreases n - i,
                {
                    let ghost before = duffer@;
                    if i > 0 {
                        push_char(&mut duffer, ',');
                    }
                    assert(arr@[i as int]@ == items[i as int]);
                    assert(decreases_to!(value@ => value@->Array_0));
                    assert(decreases_to!(value@->Array_0 => value@->Array_0[i as int]));
                    let item = self.dump(&arr[i]);
                    duffer.append(item.as_str());
                    assert(duffer@ + separator(i + 1, n as int) + items_from(items, ea, i + 1)
                        =~= before + separator(i as int, n as int) + items_from(
                        items,
                        ea,
                        i as int,
                    ));
                    i += 1;
                }
                let ghost before = duffer@;
                push_char(&mut duffer, ']');
                assert(duffer@ =~= before + separator(n as int, n as int) + items_from(
                    items,
                    ea,
                    n as int,
                ) + seq![']']);
                duffer
            },
            JsonValue::Object(dict) => {
                let ghost ea = self.ensure_ascii();
                let ghost entries = dict@;
                let n = dict.len();
                let mut duffer = String::new();
                push_char(&mut duffer, '{');
                let mut i: usize = 0;
                while i < n
                    invariant
                        n == dict@.len(),
                        i <= n,
                        entries == dict@,
                        value@ == JsonModel::Object(entries),
                        self.ensure_ascii() == ea,
                        seq!['{'] + members_from(entries, ea, 0) == duffer@ + separator(
                            i as int,
                            n as int,
                        ) + members_from(entries, ea, i as int),
                    decreases n - i,
                {
                    let ghost before = duffer@;
                    if i > 0 {
                        push_char(&mut duffer, ',');
                    }
                    JsonDumper::escape(dict.key_at(i), &mut self.buffer, self.ensure_ascii);
                    duffer.append(self.buffer.as_str());
                    push_char(&mut duffer, ':');
                    assert(decreases_to!(value@ => value@->Object_0));
                    assert(decreases_to!(value@->Object_0 => value@->Object_0[i as int]));
                    assert(decreases_to!(value@->Object_0[i as int] => value@->Object_0[i as int].1));
                    let item = self.dump(dict.value_at(i));
                    duffer.append(item.as_str());
                    assert(duffer@ + separator(i + 1, n as int) + members_from(entries, ea, i + 1)
                        =~= before + separator(i as int, n as int) + members_from(
                        entries,
                        ea,
                        i as int,
                    ));
                    i += 1;
                }
                let ghost before = duffer@;
                push_char(&mut duffer, '}');
                assert(duffer@ =~= before + separator(n as int, n as int) + members_from(
                    entries,
                    ea,
                    n as int,
                ) + seq!['}']);
                duffer
            },
        }
    }
}

} // verus!
