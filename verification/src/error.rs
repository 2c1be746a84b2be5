//! The two-category error that every fallible operation of the library returns.
use vstd::prelude::*;
use vstd::string::StringExecFns;

verus! {

/// The category of an [`Error`].
#[derive(Clone, Copy, Debug, PartialEq, Eq, Structural)]
pub enum ErrorType {
    /// The input does not conform to the JSON grammar, to UTF-8 or to the escape rules.
    ParseError,
    /// A value does not have the shape or range that a conversion asks for.
    ValidateError,
}

/// What an [`Error`] stands for in contracts: its category and its message.
pub struct ErrorModel {
    pub kind: ErrorType,
    pub message: Seq<char>,
}

/// An error with a human-readable message.
#[derive(Debug)]
pub struct Error {
    message: String,
    err_type: ErrorType,
}

/// What a fallible operation of the library returns.
pub type Result<T> = core::result::Result<T, Error>;

/// The label under which a category is printed.
pub open spec fn kind_label(kind: ErrorType) -> Seq<char> {
    match kind {
        ErrorType::ParseError => "Parse Error"@,
        ErrorType::ValidateError => "Validate Error"@,
    }
}

/// The printed form of an error: the label of its category, a colon, a blank, the message.
pub open spec fn error_text(e: ErrorModel) -> Seq<char> {
    kind_label(e.kind) + ": "@ + e.message
}

impl View for Error {
    type V = ErrorModel;

    closed spec fn view(&self) -> ErrorModel {
        ErrorModel { kind: self.err_type, message: self.message@ }
    }
}

impl ErrorType {
    /// The label of the category, as it is printed in front of a message.
    pub fn label(&self) -> (r: &'static str)
        ensures
            r@ == kind_label(*self),
    {
        match self {
            ErrorType::ParseError => "Parse Error",
            ErrorType::ValidateError => "Validate Error",
        }
    }
}

impl Error {
    /// An error of the given category with the given message.
    pub fn new(message: &str, err_type: ErrorType) -> (e: Self)
        ensures
            e@ == (ErrorModel { kind: err_type, message: message@ }),
    {
        Error { message: String::from_str(message), err_type }
    }

    /// A parse error with the given message.
    pub fn new_parse_err(message: &str) -> (e: Self)
        ensures
            e@ == (ErrorModel { kind: ErrorType::ParseError, message: message@ }),
    {
        Error::new(message, ErrorType::ParseError)
    }

    /// A validation error with the given message.
    pub fn new_validate_err(message: &str) -> (e: Self)
        ensures
            e@ == (ErrorModel { kind: ErrorType::ValidateError, message: message@ }),
    {
        Error::new(message, ErrorType::ValidateError)
    }

    /// The error's category.
    pub fn err_type(&self) -> (t: ErrorType)
        ensures
            t == self@.kind,
    {
        self.err_type
    }

    /// The error's message.
    pub fn message(&self) -> (m: &str)
        ensures
            m@ == self@.message,
    {
        self.message.as_str()
    }

    /// The printed form, for example `Parse Error: extra data`.
    pub fn to_string(&self) -> (s: String)
        ensures
            s@ == error_text(self@),
    {
        let mut s = String::from_str(self.err_type.label());
        s.append(": ");
        s.append(self.message.as_str());
        s
    }
}

} // verus!
