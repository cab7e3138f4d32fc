//! Errors of the lexer, the form reader and `compile`.

use vstd::prelude::*;
use crate::text::{decimal, decimal_chars, extend_chars, chars_of, string_of};

verus! {

/// A parse error from the lexer or form parser.
///
/// `line` and `col` are 1-based positions set by the lexer.  The form parser
/// does not track positions, so form-layer errors always have `line == None`.
/// When `line == None`, no source location is available.
#[non_exhaustive]
#[derive(Debug, Clone, PartialEq, Eq, Hash)]
pub struct ParseError {
    pub message: String,
    pub line: Option<usize>,
    pub col: Option<usize>,
}

/// The text that `ParseError` renders: `parse error at L:C: msg` when a line
/// is known (a missing column reads as 0), else `parse error: msg`.
pub open spec fn parse_error_text(message: Seq<char>, line: Option<usize>, col: Option<usize>) -> Seq<char> {
    match line {
        Some(l) => "parse error at "@ + decimal(l as nat) + ":"@ + decimal(
            match col {
                Some(c) => c as nat,
                None => 0nat,
            },
        ) + ": "@ + message,
        None => "parse error: "@ + message,
    }
}

impl ParseError {
    /// The human-readable rendering of this error.
    pub fn render(&self) -> (r: String)
        ensures
            r@ == parse_error_text(self.message@, self.line, self.col),
    {
        match self.line {
            Some(l) => {
                let c: usize = match self.col {
                    Some(c) => c,
                    None => 0,
                };
                let mut out = chars_of("parse error at ");
                extend_chars(&mut out, decimal_chars(l as u64).as_slice());
                extend_chars(&mut out, chars_of(":").as_slice());
                extend_chars(&mut out, decimal_chars(c as u64).as_slice());
                extend_chars(&mut out, chars_of(": ").as_slice());
                extend_chars(&mut out, chars_of(self.message.as_str()).as_slice());
                string_of(out.as_slice())
            },
            None => {
                let mut out = chars_of("parse error: ");
                extend_chars(&mut out, chars_of(self.message.as_str()).as_slice());
                string_of(out.as_slice())
            },
        }
    }
}

/// The category of error produced by [`crate::compile`].
#[derive(Debug, Clone, PartialEq, Eq, Hash)]
#[non_exhaustive]
pub enum SieveErrorKind {
    /// The script bytes are not valid UTF-8.
    Utf8,
    /// The lexer rejected the source text.
    Lex,
    /// The form parser rejected the token stream.
    Parse,
    /// The script requires an unsupported Sieve extension.
    UnsupportedExtension(String),
    /// The script uses an unsupported comparator (RFC 5228 §2.7.2).
    UnsupportedComparator(String),
    /// A command requiring an extension was used without a `require` declaration
    /// (RFC 5228 §6.1). The contained string names the extension.
    MissingRequire(String),
    /// A regex pattern in the script failed to compile.
    InvalidRegex(String),
}

/// A typed error returned by [`crate::compile`].
#[non_exhaustive]
#[derive(Debug, Clone, PartialEq, Eq)]
pub struct SieveError {
    /// Human-readable description of the error, suitable for display to an end user.
    pub message: String,
    /// Structured category of the error, suitable for programmatic matching.
    pub kind: SieveErrorKind,
    /// The underlying parse error, if any.
    pub source: Option<ParseError>,
}

impl SieveError {
    /// An error of the given kind with no underlying parse error.
    pub fn new(message: String, kind: SieveErrorKind) -> (r: SieveError)
        ensures
            r.message == message,
            r.kind == kind,
            r.source is None,
    {
        SieveError { message, kind, source: None }
    }

    /// The human-readable rendering of this error: its message.
    pub fn render(&self) -> (r: String)
        ensures
            r@ == self.message@,
    {
        self.message.clone()
    }

    /// The underlying parse error, if any.
    pub fn source(&self) -> (r: Option<&ParseError>)
        ensures
            r == match self.source {
                Some(e) => Some(&e),
                None => None::<&ParseError>,
            },
    {
        match &self.source {
            Some(e) => Some(e),
            None => None,
        }
    }

    /// Wraps a lexer or form-parser error.  The lexer always sets a
    /// position and the form parser never does, so the kind is `Lex`
    /// exactly when a line is known and `Parse` otherwise.
    pub fn from_parse_error(e: ParseError) -> (r: SieveError)
        ensures
            r.message@ == parse_error_text(e.message@, e.line, e.col),
            r.kind == (if e.line is Some {
                SieveErrorKind::Lex
            } else {
                SieveErrorKind::Parse
            }),
            r.source == Some(e),
    {
        let kind = if e.line.is_some() {
            SieveErrorKind::Lex
        } else {
            SieveErrorKind::Parse
        };
        let message = e.render();
        SieveError { message, kind, source: Some(e) }
    }
}

/// The text that a `SieveErrorKind` renders.
pub open spec fn kind_text(k: SieveErrorKind) -> Seq<char> {
    match k {
        SieveErrorKind::Utf8 => "invalid UTF-8"@,
        SieveErrorKind::Lex => "lexer error"@,
        SieveErrorKind::Parse => "parse error"@,
        SieveErrorKind::UnsupportedExtension(e) => "unsupported extension: "@ + e@,
        SieveErrorKind::UnsupportedComparator(c) => "unsupported comparator: "@ + c@,
        SieveErrorKind::MissingRequire(e) => "missing require declaration for: "@ + e@,
        SieveErrorKind::InvalidRegex(p) => "invalid regex pattern: "@ + crate::text::debug_quoted(p@),
    }
}

impl SieveErrorKind {
    /// The human-readable rendering of this kind.
    pub fn render(&self) -> (r: String)
        ensures
            r@ == kind_text(*self),
    {
        match self {
            SieveErrorKind::Utf8 => "invalid UTF-8".to_owned(),
            SieveErrorKind::Lex => "lexer error".to_owned(),
            SieveErrorKind::Parse => "parse error".to_owned(),
            SieveErrorKind::UnsupportedExtension(e) => "unsupported extension: ".to_owned().concat(e.as_str()),
            SieveErrorKind::UnsupportedComparator(c) => "unsupported comparator: ".to_owned().concat(c.as_str()),
            SieveErrorKind::MissingRequire(e) => "missing require declaration for: ".to_owned().concat(e.as_str()),
            SieveErrorKind::InvalidRegex(p) => {
                let q = crate::text::debug_str(p.as_str());
                "invalid regex pattern: ".to_owned().concat(q.as_str())
            },
        }
    }
}

} // verus!
