//! Sieve email filter language (RFC 5228 + RFC 5229 variables extension).
//!
//! The core of this crate is the *form layer*: a uniform, recursive
//! representation of Sieve scripts inspired by Lisp forms.  Every Sieve
//! statement is a flat `Vec<Form>`, which makes the parsed tree easy to
//! inspect and extend without touching the parser.
//!
//! Pipeline: [`lexer::tokenize`] turns source text into tokens,
//! [`form::read_script`] turns tokens into a script, [`compile`] checks the
//! script and compiles its regexes once, and [`evaluate`] runs it against a
//! message.  The meaning of each step is stated by the spec functions of
//! its module; regex matching is `fancy-regex`'s (see [`regex`]).

use vstd::prelude::*;
use std::sync::Arc;

pub mod text;
pub mod parse_error;
pub mod lexer;
pub mod form;
pub mod message;
pub mod regex;
pub mod evaluator;
pub mod validate;
pub mod properties;

pub use parse_error::{ParseError, SieveError, SieveErrorKind};

use crate::evaluator::{RegexCache, stmts_outcome, script_disposition, message_env};
use crate::form::{FormV, Script, stmts_view};
use crate::lexer::{line_col, spec_tokenize};
use crate::parse_error::parse_error_text;
use crate::text::{debug_quoted, debug_str, utf8_error_text, decode_utf8_str};
use crate::validate::{
    ErrV, KindV, error_view, required_names, first_unknown, unsupported_extension_error,
    list_extension_error, clauses_error, list_clauses, cache_keys,
};

verus! {

/// Disposition returned after evaluating a Sieve script against a message.
#[non_exhaustive]
#[derive(Debug, Clone, PartialEq, Eq, Hash)]
pub enum SieveAction {
    /// Deliver the message to the user's inbox: the implicit action when a
    /// script takes no other (RFC 5228 §4.2).
    Keep,
    /// File the message into the named folder (RFC 5228 §4.3); needs
    /// `require ["fileinto"]`.
    FileInto(String),
    /// Silently drop the message (RFC 5228 §4.1).
    Discard,
    /// Reject the message with a human-readable reason (RFC 5429 §2.1);
    /// needs `require ["reject"]`.
    Reject(String),
    /// Forward the message to an SMTP envelope recipient (RFC 5228 §4.4).
    Redirect(String),
}

/// The value of a [`SieveAction`].
pub enum ActionV {
    Keep,
    FileInto(Seq<char>),
    Discard,
    Reject(Seq<char>),
    Redirect(Seq<char>),
}

pub open spec fn action_view(a: SieveAction) -> ActionV {
    match a {
        SieveAction::Keep => ActionV::Keep,
        SieveAction::FileInto(f) => ActionV::FileInto(f@),
        SieveAction::Discard => ActionV::Discard,
        SieveAction::Reject(r) => ActionV::Reject(r@),
        SieveAction::Redirect(a) => ActionV::Redirect(a@),
    }
}

/// The text an action renders: its command word, and the argument in
/// double quotes.
pub open spec fn action_text(a: ActionV) -> Seq<char> {
    match a {
        ActionV::Keep => "keep"@,
        ActionV::Discard => "discard"@,
        ActionV::FileInto(f) => "fileinto "@ + debug_quoted(f),
        ActionV::Reject(r) => "reject "@ + debug_quoted(r),
        ActionV::Redirect(a) => "redirect "@ + debug_quoted(a),
    }
}

impl SieveAction {
    /// The human-readable rendering of this action, e.g. `fileinto "Spam"`.
    pub fn render(&self) -> (r: String)
        ensures
            r@ == action_text(action_view(*self)),
    {
        match self {
            SieveAction::Keep => "keep".to_owned(),
            SieveAction::Discard => "discard".to_owned(),
            SieveAction::FileInto(f) => "fileinto ".to_owned().concat(debug_str(f.as_str()).as_str()),
            SieveAction::Reject(r) => "reject ".to_owned().concat(debug_str(r.as_str()).as_str()),
            SieveAction::Redirect(a) => "redirect ".to_owned().concat(debug_str(a.as_str()).as_str()),
        }
    }
}

/// A compiled Sieve script, ready for evaluation: the parsed script, its
/// regexes compiled once, and whether the variables extension is on.
#[derive(Clone, Debug)]
pub struct CompiledScript {
    script: Arc<Script>,
    regex_cache: Arc<RegexCache>,
    variables_enabled: bool,
}

impl CompiledScript {
    /// The parsed script.
    pub closed spec fn script_view(&self) -> Seq<Seq<FormV>> {
        stmts_view((*self.script)@)
    }

    /// The keys of the compiled regexes.
    pub closed spec fn cached_keys(&self) -> Set<Seq<char>> {
        self.regex_cache.keys()
    }

    /// Whether `require ["variables"]` was declared (RFC 5229).
    pub closed spec fn variables_on(&self) -> bool {
        self.variables_enabled
    }

    /// A short description: how many top-level commands the script has and
    /// how many regexes were compiled, as in
    /// `CompiledScript { script: "Script { commands: 2 }", regex_cache: "<1 compiled patterns>" }`.
    pub fn debug_summary(&self) -> (r: String)
        ensures
            r@ == summary_text(self.script_view().len(), self.cached_keys().len()),
    {
        let commands = self.script.len();
        let patterns = self.regex_cache.len();
        proof {
            crate::form::lemma_stmts_view((*self.script)@);
        }
        let mut out = crate::text::chars_of("CompiledScript { script: \"Script { commands: ");
        crate::text::extend_chars(&mut out, crate::text::decimal_chars(commands as u64).as_slice());
        crate::text::extend_chars(&mut out, crate::text::chars_of(" }\", regex_cache: \"<").as_slice());
        crate::text::extend_chars(&mut out, crate::text::decimal_chars(patterns as u64).as_slice());
        crate::text::extend_chars(&mut out, crate::text::chars_of(" compiled patterns>\" }").as_slice());
        crate::text::string_of(out.as_slice())
    }
}

/// The text of [`CompiledScript::debug_summary`] for `commands` top-level
/// commands and `patterns` compiled regexes.
pub open spec fn summary_text(commands: nat, patterns: nat) -> Seq<char> {
    "CompiledScript { script: \"Script { commands: "@ + crate::text::decimal(commands)
        + " }\", regex_cache: \"<"@ + crate::text::decimal(patterns) + " compiled patterns>\" }"@
}

// ---------------------------------------------------------------------------
// What `compile` gives
// ---------------------------------------------------------------------------

/// The value of a [`ParseError`]: message, line and column.
pub type ParseErrorV = (Seq<char>, Option<usize>, Option<usize>);

pub open spec fn source_view(s: Option<ParseError>) -> Option<ParseErrorV> {
    match s {
        Some(e) => Some((e.message@, e.line, e.col)),
        None => None,
    }
}

/// The whole value of a compile error: message and kind, and the
/// underlying parse error.
pub type CompileErrV = (ErrV, Option<ParseErrorV>);

pub open spec fn compile_error_view(e: SieveError) -> CompileErrV {
    (error_view(e), source_view(e.source))
}

/// An error wrapping a parse error.
pub open spec fn wrapped(message: Seq<char>, line: Option<usize>, col: Option<usize>, kind: KindV) -> CompileErrV {
    ((parse_error_text(message, line, col), kind), Some((message, line, col)))
}

/// The checks of a parsed script, in order: unknown `require`d
/// extensions, extensions used without being declared, then the clauses
/// (comparators and `:regex` patterns).
pub open spec fn script_check_error(sv: Seq<Seq<FormV>>) -> Option<ErrV> {
    match first_unknown(required_names(sv)) {
        Some(s) => Some(unsupported_extension_error(s)),
        None => match list_extension_error(sv, required_names(sv).to_set()) {
            Some(e) => Some(e),
            None => clauses_error(list_clauses(sv)),
        },
    }
}

/// What compiling source text gives: the script, or the first error.
pub open spec fn compile_source_outcome(src: Seq<char>) -> Result<Seq<Seq<FormV>>, CompileErrV> {
    match spec_tokenize(src) {
        Err((m, at)) => Err(wrapped(
            m,
            Some(line_col(src, at).0 as usize),
            Some(line_col(src, at).1 as usize),
            KindV::Lex,
        )),
        Ok(tokens) => match crate::form::spec_read_script(tokens) {
            Err(m) => Err(wrapped(m, None, None, KindV::Parse)),
            Ok(sv) => match script_check_error(sv) {
                Some(e) => Err((e, None)),
                None => Ok(sv),
            },
        },
    }
}

/// The error for script bytes that are not UTF-8, given the decoder's reason.
pub open spec fn utf8_failure(reason: Seq<char>) -> CompileErrV {
    (("invalid UTF-8: "@ + reason, KindV::Utf8), None)
}

/// What compiling script bytes gives.
pub open spec fn compile_outcome(bytes: Seq<u8>) -> Result<Seq<Seq<FormV>>, CompileErrV> {
    if vstd::utf8::valid_utf8(bytes) {
        compile_source_outcome(vstd::utf8::decode_utf8(bytes))
    } else {
        Err(utf8_failure(utf8_error_text(bytes)))
    }
}

/// A compiled script as `compile` makes it from a checked script.
pub open spec fn compiled_from(cs: CompiledScript, sv: Seq<Seq<FormV>>) -> bool {
    &&& cs.script_view() == sv
    &&& cs.variables_on() == required_names(sv).contains("variables"@)
    &&& cs.cached_keys() == cache_keys(list_clauses(sv))
}

// ---------------------------------------------------------------------------
// Compiling and evaluating
// ---------------------------------------------------------------------------

/// The error for script bytes that are not valid UTF-8, given the
/// decoder's reason.
pub fn utf8_error(reason: &str) -> (e: SieveError)
    ensures
        compile_error_view(e) == utf8_failure(reason@),
{
    SieveError::new("invalid UTF-8: ".to_owned().concat(reason), SieveErrorKind::Utf8)
}

/// Compile a Sieve script from source text.
///
/// # Errors
///
/// Returns the first error of tokenising, of reading the script, of an
/// unsupported `require`d extension, of an extension used without being
/// declared, of an unknown comparator or of a `:regex` pattern that does
/// not compile (see [`compile_source_outcome`]).
pub fn compile_str(source: &str) -> (r: Result<CompiledScript, SieveError>)
    ensures
        match r {
            Ok(cs) => compile_source_outcome(source@) == Ok::<Seq<Seq<FormV>>, CompileErrV>(cs.script_view())
                && compiled_from(cs, cs.script_view()),
            Err(e) => compile_source_outcome(source@) == Err::<Seq<Seq<FormV>>, CompileErrV>(compile_error_view(e)),
        },
{
    let tokens = match lexer::tokenize(source) {
        Ok(t) => t,
        Err(e) => {
            return Err(SieveError::from_parse_error(e));
        },
    };
    let parsed = match form::read_script(tokens.as_slice()) {
        Ok(p) => p,
        Err(e) => {
            return Err(SieveError::from_parse_error(e));
        },
    };
    let ghost sv = stmts_view(parsed@);
    let declared = match validate::check_requires(parsed.as_slice()) {
        Ok(d) => d,
        Err(e) => {
            return Err(e);
        },
    };
    match validate::check_list_extensions(parsed.as_slice(), &declared) {
        Ok(_) => {},
        Err(e) => {
            return Err(e);
        },
    }
    let variables_enabled = validate::declares(&declared, "variables");
    match validate::validate_script(parsed.as_slice()) {
        Ok(_) => {},
        Err(e) => {
            return Err(e);
        },
    }
    let regex_cache = validate::build_regex_cache(parsed.as_slice());
    let cs = CompiledScript { script: Arc::new(parsed), regex_cache: Arc::new(regex_cache), variables_enabled };
    assert(cs.script_view() == sv);
    Ok(cs)
}

/// Compile a Sieve script from raw source bytes, which must be valid UTF-8.
///
/// # Errors
///
/// Returns `Err` if the script is not valid UTF-8, and otherwise as
/// [`compile_str`] does (see [`compile_outcome`]).
///
/// # Security
///
/// `:regex` patterns are compiled here with `fancy-regex`, which
/// backtracks on extended patterns: a hostile pattern can make compiling
/// and evaluating slow.
pub fn compile(script: &[u8]) -> (r: Result<CompiledScript, SieveError>)
    ensures
        match r {
            Ok(cs) => compile_outcome(script@) == Ok::<Seq<Seq<FormV>>, CompileErrV>(cs.script_view())
                && compiled_from(cs, cs.script_view()),
            Err(e) => compile_outcome(script@) == Err::<Seq<Seq<FormV>>, CompileErrV>(compile_error_view(e)),
        },
{
    match decode_utf8_str(script) {
        Ok(source) => compile_str(source),
        Err(reason) => Err(utf8_error(reason.as_str())),
    }
}

/// Evaluate a compiled script against a raw RFC 5322 message and its SMTP
/// envelope addresses.
///
/// Returns exactly one action: the explicit disposition the script took,
/// or [`SieveAction::Keep`] when it took none (RFC 5228 §2.10.2).
pub fn evaluate(script: &CompiledScript, raw_message: &[u8], envelope_from: &str, envelope_to: &str) -> (r: Vec<SieveAction>)
    ensures
        r@.len() == 1,
        action_view(r@[0]) == script_disposition(
            script.script_view(),
            message_env(raw_message@, envelope_from@, envelope_to@, script.variables_on()),
        ),
{
    evaluator::eval_script(
        script.script.as_slice(),
        &script.regex_cache,
        script.variables_enabled,
        raw_message,
        envelope_from,
        envelope_to,
    )
}

} // verus!
