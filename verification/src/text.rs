//! The canonical text of a value, as specification: no blank between
//! tokens, one way to write each character of a string.
use vstd::prelude::*;

use crate::json::JsonModel;

verus! {

/// The lower-case hexadecimal digit for `n`, which is less than 16.
pub open spec fn hex_char(n: int) -> char {
    if n < 10 {
        (0x30 + n) as char
    } else {
        (0x61 + n - 10) as char
    }
}

/// The escape `\uXXXX` for the UTF-16 code unit `u`.
pub open spec fn unit_escape(u: int) -> Seq<char> {
    seq![
        '\\',
        'u',
        hex_char(u / 4096 % 16),
        hex_char(u / 256 % 16),
        hex_char(u / 16 % 16),
        hex_char(u % 16),
    ]
}

/// The first unit of the surrogate pair for the code point `c`, which is above `0xffff`.
pub open spec fn high_unit(c: int) -> int {
    0xd800 + (c - 0x10000) / 0x400
}

/// The second unit of the surrogate pair for the code point `c`, which is above `0xffff`.
pub open spec fn low_unit(c: int) -> int {
    0xdc00 + (c - 0x10000) % 0x400
}

/// How one character of a string is written.
///
/// The quotation mark, the backslash and the five control characters with a
/// one-letter escape take that escape; the other printable ASCII characters
/// stand for themselves; the other control characters and DEL are written as
/// `\u00XX`. A character beyond ASCII stands for itself, or, where
/// `ensure_ascii` is set, is written as one `\uXXXX` escape or as the two
/// escapes of its surrogate pair.
pub open spec fn escape_char(c: char, ensure_ascii: bool) -> Seq<char> {
    if c == '"' {
        seq!['\\', '"']
    } else if c == '\\' {
        seq!['\\', '\\']
    } else if c == '\u{8}' {
        seq!['\\', 'b']
    } else if c == '\u{c}' {
        seq!['\\', 'f']
    } else if c == '\n' {
        seq!['\\', 'n']
    } else if c == '\r' {
        seq!['\\', 'r']
    } else if c == '\t' {
        seq!['\\', 't']
    } else if 0x20 <= c as u32 <= 0x7e {
        seq![c]
    } else if (c as u32) < 0x80 {
        unit_escape(c as int)
    } else if !ensure_ascii {
        seq![c]
    } else if (c as u32) < 0x10000 {
        unit_escape(c as int)
    } else {
        unit_escape(high_unit(c as int)) + unit_escape(low_unit(c as int))
    }
}

/// The characters of `s` from index `k` on, each as it is written.
pub open spec fn escape_from(s: Seq<char>, ensure_ascii: bool, k: int) -> Seq<char>
    decreases s.len() - k,
{
    if k < 0 || k >= s.len() {
        Seq::empty()
    } else {
        escape_char(s[k], ensure_ascii) + escape_from(s, ensure_ascii, k + 1)
    }
}

/// A string as it is written: its characters between quotation marks.
pub open spec fn quote(s: Seq<char>, ensure_ascii: bool) -> Seq<char> {
    seq!['"'] + escape_from(s, ensure_ascii, 0) + seq!['"']
}

/// The text `null`.
pub open spec fn text_null() -> Seq<char> {
    seq!['n', 'u', 'l', 'l']
}

/// The text `true`.
pub open spec fn text_true() -> Seq<char> {
    seq!['t', 'r', 'u', 'e']
}

/// The text `false`.
pub open spec fn text_false() -> Seq<char> {
    seq!['f', 'a', 'l', 's', 'e']
}

/// The canonical text of a value.
pub open spec fn text_of(v: JsonModel, ensure_ascii: bool) -> Seq<char>
    decreases v, 0int,
{
    match v {
        JsonModel::Null => text_null(),
        JsonModel::Bool(b) => if b {
            text_true()
        } else {
            text_false()
        },
        JsonModel::Number(n) => n,
        JsonModel::String(s) => quote(s, ensure_ascii),
        JsonModel::Array(items) => seq!['['] + items_from(items, ensure_ascii, 0) + seq![']'],
        JsonModel::Object(entries) => seq!['{'] + members_from(entries, ensure_ascii, 0) + seq![
            '}',
        ],
    }
}

/// The texts of the items from index `k` on, with a comma between each two.
pub open spec fn items_from(items: Seq<JsonModel>, ensure_ascii: bool, k: int) -> Seq<char>
    decreases items, items.len() - k,
{
    if k < 0 || k >= items.len() {
        Seq::empty()
    } else if k == items.len() - 1 {
        text_of(items[k], ensure_ascii)
    } else {
        text_of(items[k], ensure_ascii) + seq![','] + items_from(items, ensure_ascii, k + 1)
    }
}

/// An entry as it is written: the key, a colon, the value.
pub open spec fn member_text(key: Seq<char>, value_text: Seq<char>, ensure_ascii: bool) -> Seq<
    char,
> {
    quote(key, ensure_ascii) + seq![':'] + value_text
}

/// The texts of the entries from index `k` on, with a comma between each two.
pub open spec fn members_from(
    entries: Seq<(Seq<char>, JsonModel)>,
    ensure_ascii: bool,
    k: int,
) -> Seq<char>
    decreases entries, entries.len() - k,
{
    if k < 0 || k >= entries.len() {
        Seq::empty()
    } else if k == entries.len() - 1 {
        member_text(entries[k].0, text_of(entries[k].1, ensure_ascii), ensure_ascii)
    } else {
        member_text(entries[k].0, text_of(entries[k].1, ensure_ascii), ensure_ascii) + seq![','] + members_from(
            entries,
            ensure_ascii,
            k + 1,
        )
    }
}

} // verus!
