//! The errors that scanning, parsing and decoding can produce.
use vstd::prelude::*;

use crate::scanner::{Span, TokenKind};

verus! {

/// The error that `std::str::from_utf8` reports.
#[verifier::external_type_specification]
#[verifier::external_body]
pub struct ExUtf8Error(core::str::Utf8Error);

/// Errors that may occur while parsing.
#[derive(Debug, PartialEq)]
pub enum NcclError {
    /// An unexpected token was encountered.
    UnexpectedToken {
        /// The location of the token.
        span: Span,
        /// The kind of token that was expected.
        expected: TokenKind,
        /// The kind of token that was found.
        got: TokenKind,
    },
    /// A quoted string was not terminated before the end of the text.
    UnterminatedString {
        /// The line the string starts on.
        start: usize,
    },
    /// There were non-comment characters after a quoted string.
    TrailingCharacters {
        /// The line the string ends on.
        line: usize,
    },
    /// An escape code inside a quoted string was unknown while scanning.
    ScanUnknownEscape {
        /// The line of the code.
        line: usize,
        /// The column of the code.
        column: usize,
        /// The code itself.
        escape: char,
    },
    /// An escape code was unknown while decoding a quoted key.
    ParseUnknownEscape {
        /// The code itself.
        escape: char,
    },
    /// Decoded text was not valid UTF-8.
    Utf8 {
        /// The error.
        err: core::str::Utf8Error,
    },
}

impl From<core::str::Utf8Error> for NcclError {
    fn from(err: core::str::Utf8Error) -> (r: Self)
        ensures
            r == (NcclError::Utf8 { err }),
    {
        NcclError::Utf8 { err }
    }
}

impl vstd::std_specs::convert::FromSpecImpl<core::str::Utf8Error> for NcclError {
    open spec fn obeys_from_spec() -> bool {
        true
    }

    open spec fn from_spec(err: core::str::Utf8Error) -> Self {
        NcclError::Utf8 { err }
    }
}

} // verus!
