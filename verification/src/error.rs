//! Error values shared by the reader, the unmarshaler and the C ABI status layer.

use vstd::prelude::*;
use crate::strings::{string_from, concat};

verus! {

/// Top-level PMML error.
///
/// Variants mirror the PMML exception families: unsupported markup, invalid
/// values, missing fields, XML parse errors, type errors, structural
/// validation failures, I/O failures, arithmetic overflow, and an opaque
/// "other" error carried by its message.
#[derive(Debug)]
pub enum PmmlError {
    /// Markup that is valid PMML but not supported by this runtime.
    UnsupportedMarkup(String),
    /// A value that could not be coerced to the target data type or optype.
    InvalidValue(String),
    /// A required field that was absent.
    MissingField(String),
    /// XML parse error with its context (element or attribute name).
    ParseError { context: String, message: String },
    /// Type mismatch at evaluation.
    TypeError(String),
    /// Structural validation failure (depth or size limits and the like).
    ValidationError(String),
    /// I/O failure, carried as its message.
    Io(String),
    /// Checked arithmetic overflow.
    ArithmeticOverflow(String),
    /// Any other error, carried as its message.
    Other(String),
}

/// The text that `message` renders for an error, as a sequence of characters.
pub open spec fn error_text(e: PmmlError) -> Seq<char> {
    match e {
        PmmlError::UnsupportedMarkup(m) => "unsupported markup: "@ + m@,
        PmmlError::InvalidValue(m) => "invalid value: "@ + m@,
        PmmlError::MissingField(m) => "missing field: "@ + m@,
        PmmlError::ParseError { context, message } => "parse error at "@ + context@ + ": "@ + message@,
        PmmlError::TypeError(m) => "type error: "@ + m@,
        PmmlError::ValidationError(m) => "validation error: "@ + m@,
        PmmlError::Io(m) => "io error: "@ + m@,
        PmmlError::ArithmeticOverflow(m) => "arithmetic overflow: "@ + m@,
        PmmlError::Other(m) => m@,
    }
}

impl PmmlError {
    /// Construct [`PmmlError::UnsupportedMarkup`] with a message.
    pub fn unsupported(msg: &str) -> (e: PmmlError)
        ensures
            e matches PmmlError::UnsupportedMarkup(m) && m@ == msg@,
    {
        PmmlError::UnsupportedMarkup(string_from(msg))
    }

    /// Construct [`PmmlError::InvalidValue`] with a message.
    pub fn invalid(msg: &str) -> (e: PmmlError)
        ensures
            e matches PmmlError::InvalidValue(m) && m@ == msg@,
    {
        PmmlError::InvalidValue(string_from(msg))
    }

    /// Construct [`PmmlError::MissingField`] for `field`.
    pub fn missing(field: &str) -> (e: PmmlError)
        ensures
            e matches PmmlError::MissingField(m) && m@ == field@,
    {
        PmmlError::MissingField(string_from(field))
    }

    /// Construct [`PmmlError::ParseError`] with `context` (element or attribute) and `message`.
    pub fn parse(context: &str, message: &str) -> (e: PmmlError)
        ensures
            e matches PmmlError::ParseError { context: c, message: m } && c@ == context@ && m@
                == message@,
    {
        PmmlError::ParseError { context: string_from(context), message: string_from(message) }
    }

    /// The human-readable rendering of this error.
    pub fn message(&self) -> (s: String)
        ensures
            s@ == error_text(*self),
    {
        match self {
            PmmlError::UnsupportedMarkup(m) => concat("unsupported markup: ", m.as_str()),
            PmmlError::InvalidValue(m) => concat("invalid value: ", m.as_str()),
            PmmlError::MissingField(m) => concat("missing field: ", m.as_str()),
            PmmlError::ParseError { context, message } => {
                let head = concat("parse error at ", context.as_str());
                let mid = concat(head.as_str(), ": ");
                concat(mid.as_str(), message.as_str())
            },
            PmmlError::TypeError(m) => concat("type error: ", m.as_str()),
            PmmlError::ValidationError(m) => concat("validation error: ", m.as_str()),
            PmmlError::Io(m) => concat("io error: ", m.as_str()),
            PmmlError::ArithmeticOverflow(m) => concat("arithmetic overflow: ", m.as_str()),
            PmmlError::Other(m) => string_from(m.as_str()),
        }
    }
}

} // verus!
