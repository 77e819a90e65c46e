//! Error type for parsing and serializing FTAI documents.

use vstd::prelude::*;
use crate::text::{self, push_decimal};

verus! {

/// Top-level error type for parsing and serializing FTAI documents.
#[derive(Debug)]
#[non_exhaustive]
pub enum Error {
    /// Lexer or parser encountered a token it did not expect.
    UnexpectedToken {
        /// Token kind expected (e.g., `@end`, `identifier`).
        expected: String,
        /// Token kind actually found.
        found: String,
        /// 1-based line number.
        line: usize,
        /// 1-based column number.
        column: usize,
    },
    /// A `@tag` block was opened but no matching `@end` was found.
    UnterminatedBlock {
        /// The tag name that was left open (without leading `@`).
        tag: String,
        /// 1-based line where the opening tag appeared.
        line: usize,
    },
    /// Document declares a format version this crate does not understand.
    UnsupportedVersion(String),
    /// Input contained characters that violate the input-validation rules
    /// (null bytes, oversize tag names, control characters).
    InputInjection(String),
    /// Nested block depth exceeded the configured limit (default 64).
    NestingTooDeep {
        /// Configured nesting limit.
        limit: usize,
        /// 1-based line where the limit was hit.
        line: usize,
    },
    /// Generic IO / write failure during serialization.
    Io(String),
    /// Type adapter failed to map between FTAI and a `serde` value.
    Serde(String),
}


/// Model of an [`Error`].
pub enum ErrorModel {
    UnexpectedToken { expected: Seq<char>, found: Seq<char>, line: usize, column: usize },
    UnterminatedBlock { tag: Seq<char>, line: usize },
    UnsupportedVersion(Seq<char>),
    InputInjection(Seq<char>),
    NestingTooDeep { limit: usize, line: usize },
    Io(Seq<char>),
    Serde(Seq<char>),
}

impl View for Error {
    type V = ErrorModel;

    open spec fn view(&self) -> ErrorModel {
        match self {
            Error::UnexpectedToken { expected, found, line, column } => ErrorModel::UnexpectedToken {
                expected: expected@,
                found: found@,
                line: *line,
                column: *column,
            },
            Error::UnterminatedBlock { tag, line } => ErrorModel::UnterminatedBlock {
                tag: tag@,
                line: *line,
            },
            Error::UnsupportedVersion(s) => ErrorModel::UnsupportedVersion(s@),
            Error::InputInjection(s) => ErrorModel::InputInjection(s@),
            Error::NestingTooDeep { limit, line } => ErrorModel::NestingTooDeep {
                limit: *limit,
                line: *line,
            },
            Error::Io(s) => ErrorModel::Io(s@),
            Error::Serde(s) => ErrorModel::Serde(s@),
        }
    }
}

/// Models of a sequence of errors.
pub open spec fn errors_model(s: Seq<Error>) -> Seq<ErrorModel> {
    Seq::new(s.len(), |i: int| s[i]@)
}

/// Coarse category for security-relevant branching by consumers.
#[derive(Debug, Clone, Copy, PartialEq, Eq, Structural)]
#[non_exhaustive]
pub enum ErrorCategory {
    /// Structure: unexpected token, unterminated block, unsupported version.
    Structure,
    /// Input injection (null byte, oversize tag name, control character).
    InputInjection,
    /// Exceeded limit on structure (nesting depth).
    LimitExceeded,
    /// IO error during serialization.
    Io,
    /// Serde-adapter error.
    SerdeMapping,
}

/// The category of an error, by its variant.
pub open spec fn category_of(e: ErrorModel) -> ErrorCategory {
    match e {
        ErrorModel::UnexpectedToken { .. } => ErrorCategory::Structure,
        ErrorModel::UnterminatedBlock { .. } => ErrorCategory::Structure,
        ErrorModel::UnsupportedVersion(_) => ErrorCategory::Structure,
        ErrorModel::InputInjection(_) => ErrorCategory::InputInjection,
        ErrorModel::NestingTooDeep { .. } => ErrorCategory::LimitExceeded,
        ErrorModel::Io(_) => ErrorCategory::Io,
        ErrorModel::Serde(_) => ErrorCategory::SerdeMapping,
    }
}

/// The human-readable message of an error.
pub open spec fn message_of(e: ErrorModel) -> Seq<char> {
    match e {
        ErrorModel::UnexpectedToken { expected, found, line, column } => "unexpected token at line "@
            + text::decimal(line as nat) + ", column "@ + text::decimal(column as nat) + ": expected "@
            + expected + ", found "@ + found,
        ErrorModel::UnterminatedBlock { tag, line } => "unterminated block opened at line "@
            + text::decimal(line as nat) + ": tag was '"@ + tag + "'"@,
        ErrorModel::UnsupportedVersion(v) => "unsupported FTAI version: '"@ + v
            + "' (this crate supports v2.0 only)"@,
        ErrorModel::InputInjection(m) => "input injection: "@ + m,
        ErrorModel::NestingTooDeep { limit, line } => "nesting depth exceeded limit "@
            + text::decimal(limit as nat) + " at line "@ + text::decimal(line as nat),
        ErrorModel::Io(m) => "io: "@ + m,
        ErrorModel::Serde(m) => "serde: "@ + m,
    }
}

impl Error {
    /// Coarse category for branching by consumers.
    pub fn category(&self) -> (c: ErrorCategory)
        ensures
            c == category_of(self@),
    {
        match self {
            Error::UnexpectedToken { .. } | Error::UnterminatedBlock { .. } | Error::UnsupportedVersion(
                _,
            ) => ErrorCategory::Structure,
            Error::InputInjection(_) => ErrorCategory::InputInjection,
            Error::NestingTooDeep { .. } => ErrorCategory::LimitExceeded,
            Error::Io(_) => ErrorCategory::Io,
            Error::Serde(_) => ErrorCategory::SerdeMapping,
        }
    }

    /// The human-readable message of this error.
    pub fn message(&self) -> (m: String)
        ensures
            m@ == message_of(self@),
    {
        let mut out = String::new();
        match self {
            Error::UnexpectedToken { expected, found, line, column } => {
                out.append("unexpected token at line ");
                push_decimal(&mut out, *line);
                out.append(", column ");
                push_decimal(&mut out, *column);
                out.append(": expected ");
                out.append(expected.as_str());
                out.append(", found ");
                out.append(found.as_str());
            },
            Error::UnterminatedBlock { tag, line } => {
                out.append("unterminated block opened at line ");
                push_decimal(&mut out, *line);
                out.append(": tag was '");
                out.append(tag.as_str());
                out.append("'");
            },
            Error::UnsupportedVersion(v) => {
                out.append("unsupported FTAI version: '");
                out.append(v.as_str());
                out.append("' (this crate supports v2.0 only)");
            },
            Error::InputInjection(m) => {
                out.append("input injection: ");
                out.append(m.as_str());
            },
            Error::NestingTooDeep { limit, line } => {
                out.append("nesting depth exceeded limit ");
                push_decimal(&mut out, *limit);
                out.append(" at line ");
                push_decimal(&mut out, *line);
            },
            Error::Io(m) => {
                out.append("io: ");
                out.append(m.as_str());
            },
            Error::Serde(m) => {
                out.append("serde: ");
                out.append(m.as_str());
            },
        }
        out
    }
}

} // verus!
