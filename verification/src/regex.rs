//! The library's use of `fancy-regex`: compiling a pattern, matching a
//! compiled pattern against a text, and escaping regex metacharacters.
//!
//! What a pattern matches is `fancy-regex`'s business; the library names it
//! ([`regex_compile_error`], [`regex_match`]) and states everything it does
//! with it in terms of those names.

use vstd::prelude::*;
use crate::text::{string_of, chars_of, extend_chars};

verus! {

#[verifier::external_type_specification]
#[verifier::external_body]
pub struct ExRegex(fancy_regex::Regex);

/// What `fancy_regex::Regex::new` reports for a pattern: `None` when the
/// pattern compiles, else the text of its error.
pub uninterp spec fn regex_compile_error(pattern: Seq<char>) -> Option<Seq<char>>;

/// What `fancy_regex::Regex::is_match` answers for the regex compiled from
/// `pattern` on `text`: `Some(found)`, or `None` when the matcher gives up
/// (for instance on its backtracking limit).
pub uninterp spec fn regex_match(pattern: Seq<char>, text: Seq<char>) -> Option<bool>;

/// Whether `text` is matched by `pattern`: the pattern compiles and the
/// matcher reports a match (an error of the matcher counts as no match).
pub open spec fn regex_accepts(pattern: Seq<char>, text: Seq<char>) -> bool {
    regex_compile_error(pattern) is None && regex_match(pattern, text) == Some(true)
}

/// A compiled regex together with the pattern it was compiled from.
///
/// Values are made only by [`compile_regex`], so `re` is always the result
/// of compiling `pattern`.
#[derive(Debug)]
pub struct CompiledRegex {
    pattern: String,
    re: fancy_regex::Regex,
}

impl CompiledRegex {
    /// The pattern this regex was compiled from.
    pub closed spec fn source(&self) -> Seq<char> {
        self.pattern@
    }
}

/// `fancy_regex::Regex::new`: compiles `pattern`, or gives the text of the
/// error (its `Display`).
#[verifier::external_body]
pub(crate) fn compile_regex(pattern: &str) -> (r: Result<CompiledRegex, String>)
    ensures
        match r {
            Ok(c) => regex_compile_error(pattern@) is None && c.source() == pattern@,
            Err(m) => regex_compile_error(pattern@) == Some(m@),
        },
{
    match fancy_regex::Regex::new(pattern) {
        Ok(re) => Ok(CompiledRegex { pattern: pattern.to_string(), re }),
        Err(e) => Err(e.to_string()),
    }
}

/// `fancy_regex::Regex::is_match` of a compiled regex on `text`; an error of
/// the matcher becomes `None`.
#[verifier::external_body]
pub(crate) fn regex_is_match(re: &CompiledRegex, text: &str) -> (r: Option<bool>)
    ensures
        r == regex_match(re.source(), text@),
{
    re.re.is_match(text).ok()
}

/// The characters that `fancy_regex::escape` escapes.
pub open spec fn is_regex_special(c: char) -> bool {
    c == '\\' || c == '.' || c == '+' || c == '*' || c == '?' || c == '(' || c == ')' || c == '|'
        || c == '[' || c == ']' || c == '{' || c == '}' || c == '^' || c == '$' || c == '#'
}

/// One character as `fancy_regex::escape` writes it.
pub open spec fn escape_char(c: char) -> Seq<char> {
    if is_regex_special(c) {
        seq!['\\', c]
    } else {
        seq![c]
    }
}

/// `fancy_regex::escape`: every special character gets a backslash before it.
pub open spec fn regex_escaped(s: Seq<char>) -> Seq<char>
    decreases s.len(),
{
    if s.len() == 0 {
        Seq::empty()
    } else {
        regex_escaped(s.drop_last()) + escape_char(s.last())
    }
}

/// `fancy_regex::escape`: the text with a backslash before each special character.
#[verifier::external_body]
pub(crate) fn regex_escape(text: &str) -> (r: String)
    ensures
        r@ == regex_escaped(text@),
{
    fancy_regex::escape(text).into_owned()
}

/// Appends the escaped form of one character to `out`.
pub fn push_escaped(out: &mut Vec<char>, c: char)
    ensures
        final(out)@ == old(out)@ + escape_char(c),
{
    let one: Vec<char> = vec![c];
    let s = string_of(one.as_slice());
    let e = regex_escape(s.as_str());
    proof {
        assert(one@ =~= seq![c]);
        assert(seq![c].drop_last() =~= Seq::<char>::empty());
        assert(regex_escaped(Seq::<char>::empty()) =~= Seq::<char>::empty());
        assert(Seq::<char>::empty() + escape_char(c) =~= escape_char(c));
        assert(regex_escaped(seq![c]) =~= escape_char(c));
    }
    extend_chars(out, chars_of(e.as_str()).as_slice());
}

} // verus!
