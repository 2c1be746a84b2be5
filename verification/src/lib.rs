//! A self-contained JSON engine: a parser from bytes to values, a serializer
//! from values to canonical text, and a registry of schema definitions.
//!
//! The grammar is written down twice. [`grammar`] holds it as functions on
//! sequences of bytes, [`load`] as a parser over a [`Stream`]; each step of
//! the parser is proved to give what the grammar says, the value or the
//! fault. [`text`] says what the canonical text of a value is, and [`dump`]
//! writes it. [`laws`] proves what holds of the two together: parsing the
//! canonical text of a value gives the value back.
//!
//! Two choices are made once and kept everywhere. An object holds its
//! entries in the order of their keys, where keys are ordered by the bytes
//! of their UTF-8 encoding; the serializer and the schema registry write
//! them in that order. And a string is written with the quotation mark, the
//! backslash, the control characters and DEL as escapes and everything else
//! as it is, or, on demand, with every character beyond ASCII as an escape
//! too; the parser takes no control character and no DEL that is not escaped.
use vstd::prelude::*;
use vstd::std_specs::iter::IteratorSpec;
use vstd::string::{StringExecFns, StringSliceAdditionalSpecFns};

pub mod chars;
pub mod convert;
pub mod decimal;
pub mod dump;
pub mod error;
pub mod grammar;
pub mod json;
pub mod laws;
pub mod load;
pub mod numbers;
pub mod order;
pub mod schema;
pub mod stream;
pub mod text;

pub use crate::convert::{FromJsonValue, ToJsonValue};
pub use crate::dump::JsonDumper;
pub use crate::error::{Error, ErrorType, Result};
pub use crate::json::{JsonMap, JsonValue, Number};
pub use crate::load::JsonLoader;
pub use crate::schema::{RegisterSchema, SchemaDefs};
pub use crate::stream::{SliceBytes, Stream};

use crate::chars::{push_char, uppercase, uppercase_of};
use crate::convert::refused;
use crate::grammar::{document, fault_error};
use crate::schema::{document_model, schema_document};
use crate::text::text_of;

verus! {

/// Parses a text as one JSON document.
pub fn json_load(json: &str) -> (r: Result<JsonValue>)
    ensures
        match document(json.spec_bytes()) {
            Ok(m) => r matches Ok(v) && v@ == m,
            Err(f) => r matches Err(e) && e@ == fault_error(f),
        },
        r matches Ok(v) ==> v@.wf(),
{
    JsonLoader::from(json).load()
}

/// The canonical text of a value: no blank between tokens; where
/// `ensure_ascii` is set, every character beyond ASCII as an escape.
pub fn json_dump(json: &JsonValue, ensure_ascii: bool) -> (text: String)
    ensures
        text@ == text_of(json@, ensure_ascii),
{
    JsonDumper::new(ensure_ascii).dump(json)
}

/// A text with `upper` in place of its first character.
pub open spec fn with_first(upper: Seq<char>, text: Seq<char>) -> Seq<char> {
    if text.len() == 0 {
        text
    } else {
        upper + text.subrange(1, text.len() as int)
    }
}

/// The text that starts with `upper` and goes on with what follows the first
/// character of `text`; an empty text stays empty.
pub fn replace_first(upper: &str, text: &str) -> (r: String)
    ensures
        r@ == with_first(upper@, text@),
{
    let mut buffer = String::new();
    let mut first = true;
    for c in it: text.chars()
        invariant
            it.seq() == text@,
            first == (it.index() == 0),
            buffer@ == with_first(upper@, text@.subrange(0, it.index() as int)),
    {
        if first {
            buffer.append(upper);
            first = false;
            assert(buffer@ =~= with_first(upper@, text@.subrange(0, 1)));
        } else {
            push_char(&mut buffer, c);
            assert(buffer@ =~= with_first(upper@, text@.subrange(0, it.index() + 1)));
        }
    }
    assert(text@.subrange(0, text@.len() as int) =~= text@);
    buffer
}

/// A text with a capital at its start.
pub trait ToTitle {
    /// The text with its first character in upper case.
    fn to_title(&self) -> String;
}

impl ToTitle for str {
    fn to_title(&self) -> (title: String)
        ensures
            title@ == if self@.len() == 0 {
                self@
            } else {
                with_first(uppercase_of(self@[0]), self@)
            },
    {
        let mut chars = self.chars();
        match chars.next() {
            Some(c) => {
                let upper = uppercase(c);
                replace_first(upper.as_str(), self)
            },
            None => String::new(),
        }
    }
}

/// What reading a value of the type `T` from a document comes to: the
/// document's fault, or a validation error where `T` does not accept the
/// value, or a value that the document's value converts to.
pub open spec fn parsed_as<T: FromJsonValue>(
    bytes: Seq<u8>,
    r: Result<T>,
) -> bool {
    match document(bytes) {
        Err(f) => r matches Err(e) && e@ == fault_error(f),
        Ok(m) => if T::accepts(m) {
            r matches Ok(out) && T::reads(m, out)
        } else {
            r matches Err(e) && e@ == refused(T::refusal(m))
        },
    }
}

/// A type that is read from JSON text, written as JSON text and described by a schema.
pub trait Model: Sized {
    /// Reads a value from a JSON text.
    fn parse(json: &str) -> Result<Self>;

    /// Reads a value from the bytes of a JSON text.
    fn parse_bytes(bytes: &[u8]) -> Result<Self>;

    /// The JSON text of the value.
    fn json(&self, ensure_ascii: bool) -> String;

    /// The JSON text of the type's schema, with the definitions it refers to.
    fn schema() -> String;
}

impl<T: ToJsonValue + FromJsonValue + RegisterSchema> Model for T {
    fn parse(json: &str) -> (r: Result<Self>)
        ensures
            parsed_as::<T>(json.spec_bytes(), r),
    {
        match JsonLoader::from(json).load() {
            Ok(value) => T::from_json_value(&value),
            Err(e) => Err(e),
        }
    }

    fn parse_bytes(bytes: &[u8]) -> (r: Result<Self>)
        ensures
            parsed_as::<T>(bytes@, r),
    {
        match JsonLoader::from(bytes).load() {
            Ok(value) => T::from_json_value(&value),
            Err(e) => Err(e),
        }
    }

    fn json(&self, ensure_ascii: bool) -> (text: String)
        ensures
            text@ == text_of(self.json_model(), ensure_ascii),
    {
        json_dump(&self.to_json_value(), ensure_ascii)
    }

    fn schema() -> (text: String)
        ensures
            text@ == text_of(
                document_model(T::schema_of(Seq::empty()), T::defs_after(Seq::empty())),
                false,
            ),
    {
        let mut defs = SchemaDefs::new();
        let root = T::register_schema(&mut defs);
        json_dump(&schema_document(root, defs), false)
    }
}

} // verus!
