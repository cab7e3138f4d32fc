//! Sieve script evaluator (RFC 5228 + RFC 5229 variables extension).
//!
//! The meaning of evaluation is given by the spec functions of this module,
//! which interpret the form tree: [`stmts_outcome`] runs statements in order
//! until one yields a disposition (or `stop`), [`test_holds`] decides tests,
//! and variables (RFC 5229) are a map from lowercase names to values.

use vstd::prelude::*;
use crate::form::{
    Form, FormV, Stmt, form_view, stmt_view, stmts_view, strings_view, lemma_stmt_view,
    lemma_stmts_view, lemma_stmt_view_subrange,
};
use crate::message::{
    HeaderV, AddressPart, address_part_of, split_addresses_of, index_of_from, seqs_view,
    headers_view, index_of_char, lemma_index_of_from, address_part_chars, split_address_chars,
};
use crate::regex::{
    regex_accepts, escape_char, regex_compile_error, regex_match, CompiledRegex, compile_regex,
    regex_is_match, push_escaped,
};
use crate::text::{
    ascii_lower, ascii_upper, decimal, eq_ignore_case, chars_of, string_of, extend_chars,
    chars_eq, chars_eq_ignore_case, str_eq, lower_chars, upper_chars, decimal_chars,
    slice_to_vec_range,
};

verus! {

// ---------------------------------------------------------------------------
// Extensions and regex cache keys
// ---------------------------------------------------------------------------

/// Extensions that this evaluator implements: the names that `require`
/// accepts.
pub open spec fn is_known_extension(s: Seq<char>) -> bool {
    s == "fileinto"@ || s == "reject"@ || s == "envelope"@ || s == "variables"@ || s == "regex"@
}

/// The anchored regex for a `:regex` pattern (also its cache key).
pub open spec fn regex_base_key_of(pattern: Seq<char>) -> Seq<char> {
    "(?s)\\A(?:"@ + pattern + ")\\z"@
}

/// The case-insensitive variant of a regex or its cache key.
pub open spec fn ci_key_of(base_key: Seq<char>) -> Seq<char> {
    "(?i)"@ + base_key
}

/// The cache key of a `:matches` glob pattern.
pub open spec fn glob_base_key_of(pattern: Seq<char>) -> Seq<char> {
    "glob:"@ + pattern
}

/// The regex text that a Sieve glob pattern body translates to, from
/// index `i`: `*` is `.*`, `?` is `.`, `\*` and `\?` are the literal
/// characters, any other backslash pair is both characters literally, and
/// every other character stands for itself.
pub open spec fn glob_body(p: Seq<char>, i: int) -> Seq<char>
    decreases p.len() - i,
{
    if i < 0 || i >= p.len() {
        Seq::empty()
    } else if p[i] == '\\' {
        if i + 1 < p.len() {
            if p[i + 1] == '*' || p[i + 1] == '?' {
                escape_char(p[i + 1]) + glob_body(p, i + 2)
            } else {
                escape_char('\\') + escape_char(p[i + 1]) + glob_body(p, i + 2)
            }
        } else {
            escape_char('\\')
        }
    } else if p[i] == '*' {
        seq!['.', '*'] + glob_body(p, i + 1)
    } else if p[i] == '?' {
        seq!['.'] + glob_body(p, i + 1)
    } else {
        escape_char(p[i]) + glob_body(p, i + 1)
    }
}

/// The anchored regex for a Sieve glob pattern (RFC 5228 §2.7.1).
pub open spec fn glob_to_regex(p: Seq<char>) -> Seq<char> {
    "(?s)\\A"@ + glob_body(p, 0) + "\\z"@
}

// ---------------------------------------------------------------------------
// Match types, comparators and string matching
// ---------------------------------------------------------------------------

#[derive(Debug, Clone, Copy, PartialEq, Eq)]
pub enum MatchType {
    Is,
    Contains,
    Matches,
    Regex,
}

#[derive(Debug, Clone, Copy, PartialEq, Eq)]
pub enum Comparator {
    AsciiCasemap,
    Octet,
}

/// Whether `needle` occurs in `hay` at index `i` under the comparator.
pub open spec fn occurs_at(hay: Seq<char>, needle: Seq<char>, i: int, comparator: Comparator) -> bool {
    0 <= i && i + needle.len() <= hay.len() && (match comparator {
        Comparator::AsciiCasemap => eq_ignore_case(hay.subrange(i, i + needle.len()), needle),
        Comparator::Octet => hay.subrange(i, i + needle.len()) == needle,
    })
}

/// `:contains`: the empty key is contained in everything.
pub open spec fn contains_under(hay: Seq<char>, needle: Seq<char>, comparator: Comparator) -> bool {
    needle.len() == 0 || exists|i: int| occurs_at(hay, needle, i, comparator)
}

/// `:is`.
pub open spec fn equal_under(a: Seq<char>, b: Seq<char>, comparator: Comparator) -> bool {
    match comparator {
        Comparator::AsciiCasemap => eq_ignore_case(a, b),
        Comparator::Octet => a == b,
    }
}

/// A regex made case-insensitive under `i;ascii-casemap`.
pub open spec fn with_case(r: Seq<char>, comparator: Comparator) -> Seq<char> {
    match comparator {
        Comparator::AsciiCasemap => ci_key_of(r),
        Comparator::Octet => r,
    }
}

/// Whether `value` matches `key` under the match type and comparator.
pub open spec fn match_holds(value: Seq<char>, key: Seq<char>, mt: MatchType, comparator: Comparator) -> bool {
    match mt {
        MatchType::Is => equal_under(value, key, comparator),
        MatchType::Contains => contains_under(value, key, comparator),
        MatchType::Matches => regex_accepts(with_case(glob_to_regex(key), comparator), value),
        MatchType::Regex => regex_accepts(with_case(regex_base_key_of(key), comparator), value),
    }
}

// ---------------------------------------------------------------------------
// Variables (RFC 5229)
// ---------------------------------------------------------------------------

pub type Vars = Map<Seq<char>, Seq<char>>;

/// The value of a variable; unset variables are empty.
pub open spec fn var_value(vars: Vars, name: Seq<char>) -> Seq<char> {
    if vars.contains_key(name) {
        vars[name]
    } else {
        Seq::empty()
    }
}

/// `${name}` substitution from index `i`: `\$` is a literal `$`, other
/// backslashes stand for themselves, `${name}` is the value of the
/// ASCII-lowercased name, and an unclosed `${` is kept literally.
pub open spec fn expand_from(s: Seq<char>, i: int, vars: Vars) -> Seq<char>
    decreases s.len() - i,
{
    if i < 0 || i >= s.len() {
        Seq::empty()
    } else if s[i] == '\\' {
        if i + 1 < s.len() && s[i + 1] == '$' {
            seq!['$'] + expand_from(s, i + 2, vars)
        } else {
            seq!['\\'] + expand_from(s, i + 1, vars)
        }
    } else if s[i] == '$' && i + 1 < s.len() && s[i + 1] == '{' {
        match index_of_from(s, '}', i + 2) {
            Some(c) => {
                proof {
                    crate::message::lemma_index_of_from(s, '}', i + 2);
                }
                var_value(vars, ascii_lower(s.subrange(i + 2, c))) + expand_from(s, c + 1, vars)
            },
            None => seq!['$', '{'] + s.subrange(i + 2, s.len() as int),
        }
    } else {
        seq![s[i]] + expand_from(s, i + 1, vars)
    }
}

/// A string with variables substituted, when the `variables` extension is
/// enabled; the string itself otherwise.
pub open spec fn expand(s: Seq<char>, enabled: bool, vars: Vars) -> Seq<char> {
    if enabled {
        expand_from(s, 0, vars)
    } else {
        s
    }
}

/// Whether every character is ASCII.
pub open spec fn is_ascii_text(s: Seq<char>) -> bool {
    forall|i: int| 0 <= i < s.len() ==> (s[i] as u32) < 128
}

/// The lowercase form of a variable name: ASCII text lowercases as ASCII,
/// any other text as `str::to_lowercase` does.
pub open spec fn name_key(s: Seq<char>) -> Seq<char> {
    if is_ascii_text(s) {
        ascii_lower(s)
    } else {
        unicode_lowercase(s)
    }
}

/// What `str::to_lowercase` returns (full Unicode lowercase mapping).
pub uninterp spec fn unicode_lowercase(s: Seq<char>) -> Seq<char>;

/// `str::to_lowercase`: the Unicode lowercase of a string.
#[verifier::external_body]
pub(crate) fn unicode_lowercase_of(s: &str) -> (r: String)
    ensures
        r@ == unicode_lowercase(s@),
        is_ascii_text(s@) ==> r@ == ascii_lower(s@),
{
    s.to_lowercase()
}

/// The precedence of a `set` modifier (RFC 5229 §4); unknown ones are 0.
pub open spec fn precedence(m: Seq<char>) -> nat {
    if m == "lower"@ || m == "upper"@ {
        40
    } else if m == "length"@ {
        30
    } else if m == "quotewildcard"@ {
        20
    } else if m == "firstline"@ {
        10
    } else {
        0
    }
}

/// `:quotewildcard`: a backslash before every `\`, `*` and `?`.
pub open spec fn quote_wildcards(v: Seq<char>) -> Seq<char>
    decreases v.len(),
{
    if v.len() == 0 {
        Seq::empty()
    } else {
        let c = v.last();
        quote_wildcards(v.drop_last()) + (if c == '\\' || c == '*' || c == '?' {
            seq!['\\', c]
        } else {
            seq![c]
        })
    }
}

/// `:firstline`: everything before the first line break (`\n` or `\r\n`).
pub open spec fn first_line(v: Seq<char>) -> Seq<char> {
    match index_of_from(v, '\n', 0) {
        Some(pos) => if pos > 0 && v[pos - 1] == '\r' {
            v.subrange(0, pos - 1)
        } else {
            v.subrange(0, pos)
        },
        None => v,
    }
}

/// One modifier applied to a value; unknown modifiers change nothing.
pub open spec fn apply_modifier(v: Seq<char>, m: Seq<char>) -> Seq<char> {
    if m == "lower"@ {
        ascii_lower(v)
    } else if m == "upper"@ {
        ascii_upper(v)
    } else if m == "length"@ {
        decimal(v.len())
    } else if m == "quotewildcard"@ {
        quote_wildcards(v)
    } else if m == "firstline"@ {
        first_line(v)
    } else {
        v
    }
}

/// The modifiers of precedence `level`, applied in script order.
pub open spec fn apply_level(v: Seq<char>, mods: Seq<Seq<char>>, level: nat) -> Seq<char>
    decreases mods.len(),
{
    if mods.len() == 0 {
        v
    } else {
        let w = apply_level(v, mods.drop_last(), level);
        if precedence(mods.last()) == level {
            apply_modifier(w, mods.last())
        } else {
            w
        }
    }
}

/// All modifiers applied in precedence order, highest first, whatever their
/// order in the script.
pub open spec fn apply_modifiers(v: Seq<char>, mods: Seq<Seq<char>>) -> Seq<char> {
    apply_level(apply_level(apply_level(apply_level(v, mods, 40), mods, 30), mods, 20), mods, 10)
}

// ---------------------------------------------------------------------------
// Tests
// ---------------------------------------------------------------------------

/// The message data a script is evaluated against.
pub struct EnvV {
    pub headers: Seq<HeaderV>,
    pub size: nat,
    pub envelope_from: Seq<char>,
    pub envelope_to: Seq<char>,
    pub variables_enabled: bool,
}

/// The arguments of a test, gathered in one pass over its forms.
pub struct TestArgsV {
    pub mt: MatchType,
    pub comparator: Comparator,
    pub part: AddressPart,
    pub names: Seq<Seq<char>>,
    pub keys: Seq<Seq<char>>,
    pub count: nat,
}

pub open spec fn initial_args() -> TestArgsV {
    TestArgsV {
        mt: MatchType::Is,
        comparator: Comparator::AsciiCasemap,
        part: AddressPart::All,
        names: Seq::empty(),
        keys: Seq::empty(),
        count: 0,
    }
}

/// A tag applied to the arguments (other than `:comparator`).
pub open spec fn apply_tag(a: TestArgsV, t: Seq<char>) -> TestArgsV {
    if t == "is"@ {
        TestArgsV { mt: MatchType::Is, ..a }
    } else if t == "contains"@ {
        TestArgsV { mt: MatchType::Contains, ..a }
    } else if t == "matches"@ {
        TestArgsV { mt: MatchType::Matches, ..a }
    } else if t == "regex"@ {
        TestArgsV { mt: MatchType::Regex, ..a }
    } else if t == "localpart"@ {
        TestArgsV { part: AddressPart::LocalPart, ..a }
    } else if t == "domain"@ {
        TestArgsV { part: AddressPart::Domain, ..a }
    } else if t == "all"@ {
        TestArgsV { part: AddressPart::All, ..a }
    } else {
        a
    }
}

/// The first string operand is the names (header or envelope parts), the
/// second the keys; later ones are ignored.
pub open spec fn add_operand(a: TestArgsV, v: Seq<Seq<char>>) -> TestArgsV {
    if a.count == 0 {
        TestArgsV { names: a.names + v, count: 1, ..a }
    } else {
        TestArgsV { keys: a.keys + v, count: 2, ..a }
    }
}

/// The arguments from the forms from index `i` on.  `:comparator "i;octet"`
/// selects octet comparison; any other comparator name leaves the
/// comparator as it was.
pub open spec fn args_from(forms: Seq<FormV>, i: int, a: TestArgsV) -> TestArgsV
    decreases forms.len() - i,
{
    if i < 0 || i >= forms.len() {
        a
    } else {
        match forms[i] {
            FormV::Tag(t) => if t == "comparator"@ {
                if i + 1 < forms.len() && forms[i + 1] is Str {
                    let s = forms[i + 1]->Str_0;
                    args_from(forms, i + 2, if s == "i;octet"@ {
                        TestArgsV { comparator: Comparator::Octet, ..a }
                    } else {
                        a
                    })
                } else {
                    args_from(forms, i + 1, a)
                }
            } else {
                args_from(forms, i + 1, apply_tag(a, t))
            },
            FormV::Str(s) => if a.count < 2 {
                args_from(forms, i + 1, add_operand(a, seq![s]))
            } else {
                args_from(forms, i + 1, a)
            },
            FormV::StringList(v) => if a.count < 2 {
                args_from(forms, i + 1, add_operand(a, v))
            } else {
                args_from(forms, i + 1, a)
            },
            _ => args_from(forms, i + 1, a),
        }
    }
}

pub open spec fn test_args(forms: Seq<FormV>) -> TestArgsV {
    args_from(forms, 0, initial_args())
}

/// Each string expanded.
pub open spec fn expand_all(v: Seq<Seq<char>>, env: EnvV, vars: Vars) -> Seq<Seq<char>> {
    v.map_values(|s: Seq<char>| expand(s, env.variables_enabled, vars))
}

/// Some key matches the value.
pub open spec fn any_key_matches(value: Seq<char>, keys: Seq<Seq<char>>, mt: MatchType, comparator: Comparator) -> bool {
    exists|k: int| 0 <= k < keys.len() && match_holds(value, #[trigger] keys[k], mt, comparator)
}

/// `header`: some header whose name is one of the names (ignoring ASCII
/// case) has a value that some key matches.
pub open spec fn header_test(forms: Seq<FormV>, env: EnvV, vars: Vars) -> bool {
    let a = test_args(forms);
    let names = expand_all(a.names, env, vars);
    let keys = expand_all(a.keys, env, vars);
    exists|h: int, n: int|
        0 <= h < env.headers.len() && 0 <= n < names.len() && eq_ignore_case(
            #[trigger] env.headers[h].0,
            #[trigger] names[n],
        ) && any_key_matches(env.headers[h].1, keys, a.mt, a.comparator)
}

/// Some address of a header value (split at commas, RFC 5228 §5.1) has a
/// selected part that some key matches.
pub open spec fn some_address_matches(value: Seq<char>, part: AddressPart, keys: Seq<Seq<char>>, mt: MatchType, comparator: Comparator) -> bool {
    exists|j: int|
        0 <= j < split_addresses_of(value).len() && any_key_matches(
            address_part_of(#[trigger] split_addresses_of(value)[j], part),
            keys,
            mt,
            comparator,
        )
}

/// `address`: as `header`, but each address of a matching header is tested
/// by its selected part.
pub open spec fn address_test(forms: Seq<FormV>, env: EnvV, vars: Vars) -> bool {
    let a = test_args(forms);
    let names = expand_all(a.names, env, vars);
    let keys = expand_all(a.keys, env, vars);
    exists|h: int, n: int|
        0 <= h < env.headers.len() && 0 <= n < names.len() && eq_ignore_case(
            #[trigger] env.headers[h].0,
            #[trigger] names[n],
        ) && some_address_matches(env.headers[h].1, a.part, keys, a.mt, a.comparator)
}

/// The envelope address that an envelope part name selects.
pub open spec fn envelope_part(name: Seq<char>, env: EnvV) -> Option<Seq<char>> {
    let l = ascii_lower(name);
    if l == "from"@ {
        Some(env.envelope_from)
    } else if l == "to"@ {
        Some(env.envelope_to)
    } else {
        None
    }
}

/// `envelope`: some named envelope part (`from` or `to`, any ASCII case)
/// has a selected address part that some key matches.
pub open spec fn envelope_test(forms: Seq<FormV>, env: EnvV, vars: Vars) -> bool {
    let a = test_args(forms);
    let names = expand_all(a.names, env, vars);
    let keys = expand_all(a.keys, env, vars);
    exists|n: int|
        0 <= n < names.len() && #[trigger] envelope_part(names[n], env) is Some && any_key_matches(
            address_part_of(envelope_part(names[n], env)->0, a.part),
            keys,
            a.mt,
            a.comparator,
        )
}

/// All strings of the `Str` and `StringList` forms, in order.
pub open spec fn all_strings(forms: Seq<FormV>) -> Seq<Seq<char>>
    decreases forms.len(),
{
    if forms.len() == 0 {
        Seq::empty()
    } else {
        all_strings(forms.drop_last()) + match forms.last() {
            FormV::Str(s) => seq![s],
            FormV::StringList(v) => v,
            _ => Seq::empty(),
        }
    }
}

/// Whether a header of the given name (ignoring ASCII case) is present.
pub open spec fn has_header(env: EnvV, name: Seq<char>) -> bool {
    exists|h: int| 0 <= h < env.headers.len() && eq_ignore_case(#[trigger] env.headers[h].0, name)
}

/// `exists`: there is at least one name and every named header is present.
pub open spec fn exists_test(forms: Seq<FormV>, env: EnvV, vars: Vars) -> bool {
    let names = expand_all(all_strings(forms), env, vars);
    names.len() > 0 && forall|n: int| 0 <= n < names.len() ==> has_header(env, #[trigger] names[n])
}

pub enum SizeDir {
    Over,
    Under,
}

/// The last `:over`/`:under` tag and the last number of a `size` test.
pub open spec fn size_args(forms: Seq<FormV>) -> (Option<SizeDir>, Option<u64>)
    decreases forms.len(),
{
    if forms.len() == 0 {
        (None, None)
    } else {
        let p = size_args(forms.drop_last());
        match forms.last() {
            FormV::Tag(t) => if t == "over"@ {
                (Some(SizeDir::Over), p.1)
            } else if t == "under"@ {
                (Some(SizeDir::Under), p.1)
            } else {
                p
            },
            FormV::Num(n) => (p.0, Some(n)),
            _ => p,
        }
    }
}

/// `size`: the message size against the limit (a limit beyond `usize`
/// counts as `usize::MAX`); false without a direction or a limit.
pub open spec fn size_test(forms: Seq<FormV>, size: nat) -> bool {
    let (dir, limit) = size_args(forms);
    match limit {
        None => false,
        Some(l) => {
            let lim: nat = if l > usize::MAX {
                usize::MAX as nat
            } else {
                l as nat
            };
            match dir {
                Some(SizeDir::Over) => size > lim,
                Some(SizeDir::Under) => size < lim,
                None => false,
            }
        },
    }
}

/// Whether a test holds.  Unknown tests are false.
pub open spec fn test_holds(forms: Seq<FormV>, env: EnvV, vars: Vars) -> bool
    decreases forms,
{
    if forms.len() == 0 {
        false
    } else {
        match forms[0] {
            FormV::Word(w) => {
                let rest = forms.subrange(1, forms.len() as int);
                if w == "header"@ {
                    header_test(rest, env, vars)
                } else if w == "address"@ {
                    address_test(rest, env, vars)
                } else if w == "envelope"@ {
                    envelope_test(rest, env, vars)
                } else if w == "exists"@ {
                    exists_test(rest, env, vars)
                } else if w == "size"@ {
                    size_test(rest, env.size)
                } else if w == "allof"@ {
                    if forms.len() == 2 && forms[1] is TestList {
                        all_hold(forms[1]->TestList_0, env, vars)
                    } else {
                        false
                    }
                } else if w == "anyof"@ {
                    if forms.len() == 2 && forms[1] is TestList {
                        any_holds(forms[1]->TestList_0, env, vars)
                    } else {
                        false
                    }
                } else if w == "not"@ {
                    !test_holds(rest, env, vars)
                } else {
                    w == "true"@
                }
            },
            _ => false,
        }
    }
}

/// Every test of the list holds.
pub open spec fn all_hold(tests: Seq<Seq<FormV>>, env: EnvV, vars: Vars) -> bool
    decreases tests,
{
    if tests.len() == 0 {
        true
    } else {
        test_holds(tests[0], env, vars) && all_hold(tests.subrange(1, tests.len() as int), env, vars)
    }
}

/// Some test of the list holds.
pub open spec fn any_holds(tests: Seq<Seq<FormV>>, env: EnvV, vars: Vars) -> bool
    decreases tests,
{
    if tests.len() == 0 {
        false
    } else {
        test_holds(tests[0], env, vars) || any_holds(tests.subrange(1, tests.len() as int), env, vars)
    }
}

// ---------------------------------------------------------------------------
// Statements
// ---------------------------------------------------------------------------

/// What a statement asks for.
pub enum Outcome {
    Continue,
    Keep,
    Discard,
    FileInto(Seq<char>),
    Reject(Seq<char>),
    Redirect(Seq<char>),
    Stop,
}

/// The number of leading tags.
pub open spec fn leading_tags(forms: Seq<FormV>) -> nat
    decreases forms.len(),
{
    if forms.len() > 0 && forms[0] is Tag {
        1 + leading_tags(forms.subrange(1, forms.len() as int))
    } else {
        0
    }
}

/// The names of the first `n` forms (all tags).
pub open spec fn tag_names(forms: Seq<FormV>, n: nat) -> Seq<Seq<char>> {
    Seq::new(n, |i: int| forms[i]->Tag_0)
}

/// `set [modifiers] "name" "value"` (RFC 5229 §4): the value is expanded,
/// modified, and bound to the lowercased name.  Malformed `set`s do nothing.
pub open spec fn set_outcome(rest: Seq<FormV>, env: EnvV, vars: Vars) -> Vars {
    let n = leading_tags(rest);
    if n + 2 <= rest.len() && rest[n as int] is Str && rest[n + 1int] is Str {
        let name = rest[n as int]->Str_0;
        let value = rest[n + 1int]->Str_0;
        vars.insert(
            name_key(name),
            apply_modifiers(expand(value, env.variables_enabled, vars), tag_names(rest, n)),
        )
    } else {
        vars
    }
}

/// A statement with a single string argument: `fileinto`, `reject` or `redirect`.
pub open spec fn string_command(stmt: Seq<FormV>, name: Seq<char>) -> bool {
    stmt.len() == 2 && stmt[0] == FormV::Word(name) && stmt[1] is Str
}

/// A statement that is a single word.
pub open spec fn word_command(stmt: Seq<FormV>, name: Seq<char>) -> bool {
    stmt.len() == 1 && stmt[0] == FormV::Word(name)
}

/// One statement: its outcome and the variables after it.  Unknown and
/// malformed commands are ignored (RFC 5228 §2.9).
pub open spec fn stmt_outcome(stmt: Seq<FormV>, env: EnvV, vars: Vars) -> (Outcome, Vars)
    decreases stmt,
{
    if stmt.len() == 0 || !(stmt[0] is Word) {
        (Outcome::Continue, vars)
    } else {
        let w = stmt[0]->Word_0;
        if w == "require"@ {
            (Outcome::Continue, vars)
        } else if w == "if"@ {
            if_outcome(stmt.subrange(1, stmt.len() as int), env, vars)
        } else if string_command(stmt, "fileinto"@) {
            (Outcome::FileInto(expand(stmt[1]->Str_0, env.variables_enabled, vars)), vars)
        } else if string_command(stmt, "reject"@) {
            (Outcome::Reject(expand(stmt[1]->Str_0, env.variables_enabled, vars)), vars)
        } else if string_command(stmt, "redirect"@) {
            (Outcome::Redirect(expand(stmt[1]->Str_0, env.variables_enabled, vars)), vars)
        } else if word_command(stmt, "discard"@) {
            (Outcome::Discard, vars)
        } else if word_command(stmt, "keep"@) {
            (Outcome::Keep, vars)
        } else if word_command(stmt, "stop"@) {
            (Outcome::Stop, vars)
        } else if w == "set"@ {
            (Outcome::Continue, set_outcome(stmt.subrange(1, stmt.len() as int), env, vars))
        } else {
            (Outcome::Continue, vars)
        }
    }
}

/// The index of the first block.
pub open spec fn first_block(forms: Seq<FormV>, i: int) -> Option<int>
    decreases forms.len() - i,
{
    if i < 0 || i >= forms.len() {
        None
    } else if forms[i] is Block {
        Some(i)
    } else {
        first_block(forms, i + 1)
    }
}

/// Statements of a branch taken: a statement list that runs to its end
/// counts as `Continue`.
pub open spec fn branch_outcome(r: (Option<Outcome>, Vars)) -> (Outcome, Vars) {
    match r.0 {
        Some(o) => (o, r.1),
        None => (Outcome::Continue, r.1),
    }
}

/// An `if` chain after its `if` word: the test before the first block
/// decides that block; otherwise `elsif` continues the chain and `else`
/// takes its block.
pub open spec fn if_outcome(rest: Seq<FormV>, env: EnvV, vars: Vars) -> (Outcome, Vars)
    decreases rest,
{
    match first_block(rest, 0) {
        None => (Outcome::Continue, vars),
        Some(p) => {
            proof {
                lemma_first_block(rest, 0);
            }
            let block = rest[p]->Block_0;
            let after = rest.subrange(p + 1, rest.len() as int);
            if test_holds(rest.subrange(0, p), env, vars) {
                branch_outcome(stmts_outcome(block, env, vars))
            } else if after.len() > 0 && after[0] == FormV::Word("elsif"@) {
                if_outcome(rest.subrange(p + 2, rest.len() as int), env, vars)
            } else if after.len() > 1 && after[0] == FormV::Word("else"@) && after[1] is Block {
                branch_outcome(stmts_outcome(rest[p + 2]->Block_0, env, vars))
            } else {
                (Outcome::Continue, vars)
            }
        },
    }
}

/// Statements in order until one yields something other than `Continue`:
/// that outcome (or `None` when all continue) and the variables after.
pub open spec fn stmts_outcome(stmts: Seq<Seq<FormV>>, env: EnvV, vars: Vars) -> (Option<Outcome>, Vars)
    decreases stmts,
{
    if stmts.len() == 0 {
        (None, vars)
    } else {
        let (o, v) = stmt_outcome(stmts[0], env, vars);
        if o is Continue {
            stmts_outcome(stmts.subrange(1, stmts.len() as int), env, v)
        } else {
            (Some(o), v)
        }
    }
}

pub proof fn lemma_first_block(forms: Seq<FormV>, i: int)
    requires
        0 <= i,
    ensures
        first_block(forms, i) matches Some(p) ==> i <= p < forms.len() && forms[p] is Block,
        first_block(forms, i) is None ==> forall|k: int| i <= k < forms.len() ==> !(forms[k] is Block),
    decreases forms.len() - i,
{
    if i < forms.len() && !(forms[i] is Block) {
        lemma_first_block(forms, i + 1);
    }
}


// ---------------------------------------------------------------------------
// Regex cache
// ---------------------------------------------------------------------------

/// The regex text that a cache key stands for: glob keys (`glob:` and
/// `(?i)glob:`) stand for the translated glob, every other key for itself.
pub open spec fn cache_source(key: Seq<char>) -> Seq<char> {
    if key.len() >= 9 && key.subrange(0, 9) == "(?i)glob:"@ {
        ci_key_of(glob_to_regex(key.subrange(9, key.len() as int)))
    } else if key.len() >= 5 && key.subrange(0, 5) == "glob:"@ {
        glob_to_regex(key.subrange(5, key.len() as int))
    } else {
        key
    }
}

/// Regexes compiled once at `compile` time, by cache key.
#[derive(Debug)]
pub struct RegexCache {
    entries: Vec<(String, CompiledRegex)>,
}

impl RegexCache {
    /// Every entry holds a regex that compiled from the text its key stands for.
    #[verifier::type_invariant]
    /// No key occurs twice.
    #[verifier::type_invariant]
    closed spec fn wf(&self) -> bool {
        &&& forall|i: int|
            0 <= i < self.entries@.len() ==> (#[trigger] self.entries@[i]).1.source() == cache_source(self.entries@[i].0@)
                && regex_compile_error(self.entries@[i].1.source()) is None
        &&& self.key_seq().no_duplicates()
    }

    /// The keys in the order they were cached.
    closed spec fn key_seq(&self) -> Seq<Seq<char>> {
        self.entries@.map_values(|e: (String, CompiledRegex)| e.0@)
    }

    /// The keys present.
    pub closed spec fn keys(&self) -> Set<Seq<char>> {
        Set::new(|k: Seq<char>| exists|i: int| 0 <= i < self.entries@.len() && (#[trigger] self.entries@[i]).0@ == k)
    }

    pub fn new() -> (c: RegexCache)
        ensures
            c.keys() == Set::<Seq<char>>::empty(),
    {
        let c = RegexCache { entries: Vec::new() };
        assert(c.keys() =~= Set::<Seq<char>>::empty());
        c
    }

    /// The number of cached regexes.
    pub fn len(&self) -> (r: usize)
        ensures
            r == self.keys().len(),
    {
        proof {
            use_type_invariant(self);
            let ks = self.key_seq();
            assert(self.keys() =~= ks.to_set()) by {
                assert forall|k: Seq<char>| self.keys().contains(k) implies ks.to_set().contains(k) by {
                    let i = choose|i: int| 0 <= i < self.entries@.len() && (#[trigger] self.entries@[i]).0@ == k;
                    assert(ks[i] == k);
                }
                assert forall|k: Seq<char>| ks.to_set().contains(k) implies self.keys().contains(k) by {
                    let i = choose|i: int| 0 <= i < ks.len() && ks[i] == k;
                    assert(self.entries@[i].0@ == k);
                }
            }
            ks.unique_seq_to_set();
        }
        self.entries.len()
    }

    /// The regex cached under `key`, if any.
    pub fn get(&self, key: &str) -> (r: Option<&CompiledRegex>)
        ensures
            (r is Some) == self.keys().contains(key@),
            r matches Some(re) ==> re.source() == cache_source(key@) && regex_compile_error(re.source()) is None,
    {
        proof {
            use_type_invariant(self);
        }
        let mut i: usize = 0;
        while i < self.entries.len()
            invariant
                i <= self.entries@.len(),
                forall|q: int| 0 <= q < i ==> (#[trigger] self.entries@[q]).0@ != key@,
            decreases self.entries@.len() - i,
        {
            if str_eq(self.entries[i].0.as_str(), key) {
                proof {
                    use_type_invariant(self);
                    assert(self.entries@[i as int].1.source() == cache_source(self.entries@[i as int].0@));
                }
                return Some(&self.entries[i].1);
            }
            i += 1;
        }
        proof {
            if self.keys().contains(key@) {
                let q = choose|q: int| 0 <= q < self.entries@.len() && (#[trigger] self.entries@[q]).0@ == key@;
                assert(self.entries@[q].0@ != key@);
            }
        }
        None
    }

    /// Caches a regex under `key`; a key already present keeps its entry.
    pub fn insert(&mut self, key: String, re: CompiledRegex)
        requires
            re.source() == cache_source(key@),
            regex_compile_error(re.source()) is None,
        ensures
            final(self).keys() == old(self).keys().insert(key@),
    {
        proof {
            use_type_invariant(&*self);
        }
        let mut i: usize = 0;
        while i < self.entries.len()
            invariant
                i <= self.entries@.len(),
                forall|q: int| 0 <= q < i ==> (#[trigger] self.entries@[q]).0@ != key@,
            decreases self.entries@.len() - i,
        {
            if str_eq(self.entries[i].0.as_str(), key.as_str()) {
                assert(self.keys().insert(key@) =~= self.keys());
                return;
            }
            i += 1;
        }
        proof {
            use_type_invariant(&*self);
        }
        let ghost k = key@;
        let ghost old_keys = self.keys();
        let ghost old_ks = self.key_seq();
        let mut entries = Vec::new();
        std::mem::swap(&mut entries, &mut self.entries);
        let ghost old_entries = entries@;
        entries.push((key, re));
        proof {
            assert forall|q: int| 0 <= q < entries@.len() implies (#[trigger] entries@[q]).1.source() == cache_source(entries@[q].0@)
                && regex_compile_error(entries@[q].1.source()) is None by {
                if q < old_entries.len() {
                    assert(entries@[q] == old_entries[q]);
                }
            }
            let ks = entries@.map_values(|e: (String, CompiledRegex)| e.0@);
            assert forall|a: int, b: int| 0 <= a < ks.len() && 0 <= b < ks.len() && a != b implies ks[a] != ks[b] by {
                if a < old_entries.len() && b < old_entries.len() {
                    assert(ks[a] == old_ks[a] && ks[b] == old_ks[b]);
                } else if a < old_entries.len() {
                    assert(ks[a] == old_entries[a].0@);
                } else if b < old_entries.len() {
                    assert(ks[b] == old_entries[b].0@);
                }
            }
        }
        self.entries = entries;
        proof {
            assert forall|kk: Seq<char>| self.keys().contains(kk) <==> old_keys.insert(k).contains(kk) by {
                if old_keys.contains(kk) {
                    let i0 = choose|i: int| 0 <= i < old_entries.len() && (#[trigger] old_entries[i]).0@ == kk;
                    assert(self.entries@[i0] == old_entries[i0]);
                }
                if kk == k {
                    assert(self.entries@[old_entries.len() as int].0@ == k);
                }
                if self.keys().contains(kk) {
                    let i1 = choose|i: int| 0 <= i < self.entries@.len() && (#[trigger] self.entries@[i]).0@ == kk;
                    if i1 < old_entries.len() {
                        assert(self.entries@[i1] == old_entries[i1]);
                    }
                }
            }
            assert(self.keys() =~= old_keys.insert(k));
        }
    }
}

/// The text of a string literal, for proofs about keys.
pub proof fn lemma_glob_prefixes()
    ensures
        "(?i)glob:"@.len() == 9,
        "(?i)glob:"@[0] == '(',
        "(?i)glob:"@[4] == 'g',
        "glob:"@.len() == 5,
        "glob:"@[0] == 'g',
        "(?i)"@.len() == 4,
        "(?i)"@[0] == '(',
        "(?s)\\A"@.len() == 6,
        "(?s)\\A"@[0] == '(',
        "(?s)\\A(?:"@.len() == 9,
        "(?s)\\A(?:"@[0] == '(',
        "(?i)glob:"@ =~= "(?i)"@ + "glob:"@,
{
    reveal_strlit("(?i)glob:");
    reveal_strlit("glob:");
    reveal_strlit("(?i)");
    reveal_strlit("(?s)\\A");
    reveal_strlit("(?s)\\A(?:");
}

/// A key that starts with `(` is no glob key, so it stands for itself.
pub proof fn lemma_paren_key(key: Seq<char>)
    requires
        key.len() >= 5,
        key[0] == '(',
        key[4] != 'g',
    ensures
        cache_source(key) == key,
{
    lemma_glob_prefixes();
    if key.len() >= 9 {
        assert(key.subrange(0, 9)[4] == key[4]);
        assert(key.subrange(0, 9) != "(?i)glob:"@);
    }
    assert(key.subrange(0, 5)[0] == '(');
    assert(key.subrange(0, 5) != "glob:"@);
}

pub proof fn lemma_glob_key(p: Seq<char>)
    ensures
        cache_source(glob_base_key_of(p)) == glob_to_regex(p),
        cache_source(ci_key_of(glob_base_key_of(p))) == ci_key_of(glob_to_regex(p)),
{
    lemma_glob_prefixes();
    let b = glob_base_key_of(p);
    assert(b.subrange(0, 5) =~= "glob:"@);
    assert(b.subrange(5, b.len() as int) =~= p);
    if b.len() >= 9 {
        assert(b[0] == 'g');
        assert(b.subrange(0, 9)[0] == 'g');
        assert(b.subrange(0, 9) != "(?i)glob:"@);
    }
    let c = ci_key_of(b);
    assert(c.subrange(0, 9) =~= "(?i)glob:"@);
    assert(c.subrange(9, c.len() as int) =~= p);
}

/// Regex texts built by the library all start with `(?s)\A`.
pub proof fn lemma_anchored_starts(p: Seq<char>)
    ensures
        glob_to_regex(p).len() >= 6,
        glob_to_regex(p)[0] == '(',
        glob_to_regex(p)[4] != 'g',
        regex_base_key_of(p).len() >= 9,
        regex_base_key_of(p)[0] == '(',
        regex_base_key_of(p)[4] != 'g',
{
    lemma_glob_prefixes();
    reveal_strlit("(?s)\\A");
    reveal_strlit("(?s)\\A(?:");
    assert("(?s)\\A"@[4] == '\\');
    assert("(?s)\\A(?:"@[4] == '\\');
    let g = glob_to_regex(p);
    assert(g[4] == ("(?s)\\A"@ + glob_body(p, 0))[4]);
    let r = regex_base_key_of(p);
    assert(r[4] == ("(?s)\\A(?:"@ + p)[4]);
}

// ---------------------------------------------------------------------------
// String matching
// ---------------------------------------------------------------------------

pub fn regex_base_key(pattern: &str) -> (r: String)
    ensures
        r@ == regex_base_key_of(pattern@),
{
    "(?s)\\A(?:".to_owned().concat(pattern).concat(")\\z")
}

pub fn regex_ci_key(base_key: &str) -> (r: String)
    ensures
        r@ == ci_key_of(base_key@),
{
    "(?i)".to_owned().concat(base_key)
}

pub fn glob_base_key(pattern: &str) -> (r: String)
    ensures
        r@ == glob_base_key_of(pattern@),
{
    "glob:".to_owned().concat(pattern)
}

pub fn glob_ci_key(base_key: &str) -> (r: String)
    ensures
        r@ == ci_key_of(base_key@),
{
    "(?i)".to_owned().concat(base_key)
}

/// Convert a Sieve glob pattern to an anchored regex string.
pub fn sieve_glob_to_regex(pattern: &str) -> (r: String)
    ensures
        r@ == glob_to_regex(pattern@),
{
    let p = chars_of(pattern);
    let mut out = chars_of("(?s)\\A");
    let ghost head = out@;
    let mut i: usize = 0;
    while i < p.len()
        invariant
            i <= p@.len(),
            p@ == pattern@,
            head + glob_body(p@, 0) == out@ + glob_body(p@, i as int),
        decreases p@.len() - i,
    {
        let ch = p[i];
        if ch == '\\' {
            if i + 1 < p.len() {
                let next = p[i + 1];
                if next == '*' || next == '?' {
                    push_escaped(&mut out, next);
                } else {
                    push_escaped(&mut out, ch);
                    push_escaped(&mut out, next);
                }
                i += 2;
            } else {
                push_escaped(&mut out, ch);
                i += 1;
            }
        } else if ch == '*' {
            out.push('.');
            out.push('*');
            i += 1;
        } else if ch == '?' {
            out.push('.');
            i += 1;
        } else {
            push_escaped(&mut out, ch);
            i += 1;
        }
        proof {
            assert(out@ + glob_body(p@, i as int) =~= old_out_plus(out@, p@, i as int));
        }
    }
    extend_chars(&mut out, chars_of("\\z").as_slice());
    string_of(out.as_slice())
}

spec fn old_out_plus(o: Seq<char>, p: Seq<char>, i: int) -> Seq<char> {
    o + glob_body(p, i)
}

/// Matches `value` against an anchored regex text (made case-insensitive
/// under `i;ascii-casemap`), using the cached regex when there is one.
fn str_matches_regex_pat(value: &str, anchored: &str, comparator: Comparator, cache: &RegexCache) -> (r: bool)
    requires
        anchored@.len() >= 5,
        anchored@[0] == '(',
        anchored@[4] != 'g',
    ensures
        r == regex_accepts(with_case(anchored@, comparator), value@),
{
    let pat = match comparator {
        Comparator::AsciiCasemap => regex_ci_key(anchored),
        Comparator::Octet => anchored.to_owned(),
    };
    proof {
        lemma_glob_prefixes();
        if comparator == Comparator::AsciiCasemap {
            assert(pat@[4] == anchored@[0]);
        }
        lemma_paren_key(pat@);
    }
    match cache.get(pat.as_str()) {
        Some(re) => regex_is_match(re, value).unwrap_or(false),
        None => match compile_regex(pat.as_str()) {
            Ok(re) => regex_is_match(&re, value).unwrap_or(false),
            Err(_) => false,
        },
    }
}

/// `:matches` with a Sieve glob pattern.
fn str_matches_glob(value: &str, pattern: &str, comparator: Comparator, cache: &RegexCache) -> (r: bool)
    ensures
        r == regex_accepts(with_case(glob_to_regex(pattern@), comparator), value@),
{
    let base_key = glob_base_key(pattern);
    proof {
        lemma_glob_key(pattern@);
    }
    match comparator {
        Comparator::AsciiCasemap => {
            let ci_key = glob_ci_key(base_key.as_str());
            match cache.get(ci_key.as_str()) {
                Some(re) => {
                    return regex_is_match(re, value).unwrap_or(false);
                },
                None => {},
            }
        },
        Comparator::Octet => {
            match cache.get(base_key.as_str()) {
                Some(re) => {
                    return regex_is_match(re, value).unwrap_or(false);
                },
                None => {},
            }
        },
    }
    let regex_pat = sieve_glob_to_regex(pattern);
    proof {
        lemma_anchored_starts(pattern@);
    }
    str_matches_regex_pat(value, regex_pat.as_str(), comparator, cache)
}

/// `:regex`: the pattern anchored to the whole value.
fn str_matches_regex(value: &str, pattern: &str, comparator: Comparator, cache: &RegexCache) -> (r: bool)
    ensures
        r == regex_accepts(with_case(regex_base_key_of(pattern@), comparator), value@),
{
    let anchored = regex_base_key(pattern);
    proof {
        lemma_anchored_starts(pattern@);
    }
    str_matches_regex_pat(value, anchored.as_str(), comparator, cache)
}

fn str_is(a: &[char], b: &[char], comparator: Comparator) -> (r: bool)
    ensures
        r == equal_under(a@, b@, comparator),
{
    match comparator {
        Comparator::AsciiCasemap => chars_eq_ignore_case(a, b),
        Comparator::Octet => chars_eq(a, b),
    }
}

/// Whether `needle` occurs in `hay` at `i` (which leaves room for it).
fn occurs_at_exec(hay: &[char], needle: &[char], i: usize, comparator: Comparator) -> (r: bool)
    requires
        i + needle@.len() <= hay@.len(),
    ensures
        r == occurs_at(hay@, needle@, i as int, comparator),
{
    let n = needle.len();
    let hl = hay.len();
    let ghost w = hay@.subrange(i as int, i + n);
    let mut k: usize = 0;
    while k < n
        invariant
            k <= n == needle@.len(),
            hl == hay@.len(),
            i + n <= hay@.len(),
            w == hay@.subrange(i as int, i + n),
            forall|q: int| 0 <= q < k ==> (match comparator {
                Comparator::AsciiCasemap => crate::text::lower_char(w[q]) == crate::text::lower_char(needle@[q]),
                Comparator::Octet => w[q] == needle@[q],
            }),
        decreases n - k,
    {
        let a = hay[i + k];
        let b = needle[k];
        let same = match comparator {
            Comparator::AsciiCasemap => crate::text::to_lower_char(a) == crate::text::to_lower_char(b),
            Comparator::Octet => a == b,
        };
        if !same {
            return false;
        }
        k += 1;
    }
    proof {
        if comparator == Comparator::Octet {
            assert(w =~= needle@);
        }
    }
    true
}

fn str_contains(hay: &[char], needle: &[char], comparator: Comparator) -> (r: bool)
    ensures
        r == contains_under(hay@, needle@, comparator),
{
    if needle.len() == 0 {
        return true;
    }
    if needle.len() > hay.len() {
        return false;
    }
    let last = hay.len() - needle.len();
    let mut i: usize = 0;
    let hl = hay.len();
    while i <= last
        invariant
            last + needle@.len() == hay@.len(),
            hl == hay@.len(),
            needle@.len() > 0,
            forall|j: int| 0 <= j < i ==> !occurs_at(hay@, needle@, j, comparator),
        decreases last + 1 - i,
    {
        if occurs_at_exec(hay, needle, i, comparator) {
            return true;
        }
        i += 1;
    }
    false
}

/// Whether `value` matches `key` under the match type and comparator.
fn apply_match(value: &[char], key: &[char], mt: MatchType, comparator: Comparator, cache: &RegexCache) -> (r: bool)
    ensures
        r == match_holds(value@, key@, mt, comparator),
{
    match mt {
        MatchType::Is => str_is(value, key, comparator),
        MatchType::Contains => str_contains(value, key, comparator),
        MatchType::Matches => {
            let v = string_of(value);
            let k = string_of(key);
            str_matches_glob(v.as_str(), k.as_str(), comparator, cache)
        },
        MatchType::Regex => {
            let v = string_of(value);
            let k = string_of(key);
            str_matches_regex(v.as_str(), k.as_str(), comparator, cache)
        },
    }
}

// ---------------------------------------------------------------------------
// Variables
// ---------------------------------------------------------------------------

/// Variable bindings in the order they were made; a later binding of a
/// name hides earlier ones.
pub open spec fn vars_map(v: Seq<(Vec<char>, Vec<char>)>) -> Vars
    decreases v.len(),
{
    if v.len() == 0 {
        Map::empty()
    } else {
        vars_map(v.drop_last()).insert(v.last().0@, v.last().1@)
    }
}

/// The value of a variable (empty when unset).
fn lookup_var(vars: &Vec<(Vec<char>, Vec<char>)>, name: &[char]) -> (r: Vec<char>)
    ensures
        r@ == var_value(vars_map(vars@), name@),
{
    let mut j = vars.len();
    assert(vars@.subrange(0, j as int) =~= vars@);
    while j > 0
        invariant
            j <= vars@.len(),
            var_value(vars_map(vars@), name@) == var_value(vars_map(vars@.subrange(0, j as int)), name@),
        decreases j,
    {
        let ghost p = vars@.subrange(0, j as int);
        assert(p.drop_last() =~= vars@.subrange(0, j - 1));
        if chars_eq(vars[j - 1].0.as_slice(), name) {
            return slice_to_vec_range(vars[j - 1].1.as_slice(), 0, vars[j - 1].1.len());
        }
        j -= 1;
    }
    Vec::new()
}

proof fn lemma_expand_plain(s: Seq<char>, i: int, vars: Vars)
    requires
        0 <= i <= s.len(),
        forall|k: int| 0 <= k < s.len() ==> s[k] != '$' && s[k] != '\\',
    ensures
        expand_from(s, i, vars) == s.subrange(i, s.len() as int),
    decreases s.len() - i,
{
    if i < s.len() {
        lemma_expand_plain(s, i + 1, vars);
        assert(seq![s[i]] + s.subrange(i + 1, s.len() as int) =~= s.subrange(i, s.len() as int));
    } else {
        assert(s.subrange(i, s.len() as int) =~= Seq::<char>::empty());
    }
}

/// Replace `${varname}` with values from `vars` (RFC 5229 §3); `\$` is a
/// literal `$`.  Nothing is substituted unless the `variables` extension
/// is enabled.
fn expand_vars(s: &[char], enabled: bool, vars: &Vec<(Vec<char>, Vec<char>)>) -> (r: Vec<char>)
    ensures
        r@ == expand(s@, enabled, vars_map(vars@)),
{
    if !enabled {
        return slice_to_vec_range(s, 0, s.len());
    }
    let mut plain = true;
    let mut k: usize = 0;
    while k < s.len()
        invariant
            k <= s@.len(),
            plain == (forall|q: int| 0 <= q < k ==> s@[q] != '$' && s@[q] != '\\'),
        decreases s@.len() - k,
    {
        if s[k] == '$' || s[k] == '\\' {
            plain = false;
        }
        k += 1;
    }
    if plain {
        proof {
            lemma_expand_plain(s@, 0, vars_map(vars@));
        }
        return slice_to_vec_range(s, 0, s.len());
    }
    let ghost m = vars_map(vars@);
    let mut out: Vec<char> = Vec::new();
    let mut i: usize = 0;
    while i < s.len()
        invariant
            i <= s@.len(),
            enabled,
            m == vars_map(vars@),
            expand_from(s@, 0, m) == out@ + expand_from(s@, i as int, m),
        decreases s@.len() - i,
    {
        let ghost old_out = out@;
        let ch = s[i];
        if ch == '\\' {
            if i + 1 < s.len() && s[i + 1] == '$' {
                out.push('$');
                i += 2;
            } else {
                out.push('\\');
                i += 1;
            }
        } else if ch == '$' && i + 1 < s.len() && s[i + 1] == '{' {
            match index_of_char(s, '}', i + 2) {
                Some(c) => {
                    proof {
                        lemma_index_of_from(s@, '}', i + 2);
                    }
                    let raw = slice_to_vec_range(s, i + 2, c);
                    let name = lower_chars(raw.as_slice());
                    let val = lookup_var(vars, name.as_slice());
                    crate::text::extend_chars(&mut out, val.as_slice());
                    i = c + 1;
                },
                None => {
                    out.push('$');
                    out.push('{');
                    let n = s.len();
                    let tail = slice_to_vec_range(s, i + 2, n);
                    crate::text::extend_chars(&mut out, tail.as_slice());
                    proof {
                        assert(expand_from(s@, i as int, m) == seq!['$', '{'] + s@.subrange(i + 2, s@.len() as int));
                        assert(out@ =~= old_out + (seq!['$', '{'] + s@.subrange(i + 2, s@.len() as int)));
                    }
                    return out;
                },
            }
        } else {
            out.push(ch);
            i += 1;
        }
    }
    out
}

// ---------------------------------------------------------------------------
// Test arguments
// ---------------------------------------------------------------------------

/// The arguments of a test (see [`TestArgsV`]).
pub struct TestArgs {
    pub mt: MatchType,
    pub comparator: Comparator,
    pub part: AddressPart,
    pub names: Vec<Vec<char>>,
    pub keys: Vec<Vec<char>>,
    pub count: usize,
}

pub open spec fn args_view(a: TestArgs) -> TestArgsV {
    TestArgsV {
        mt: a.mt,
        comparator: a.comparator,
        part: a.part,
        names: seqs_view(a.names@),
        keys: seqs_view(a.keys@),
        count: a.count as nat,
    }
}

/// Appends the chars of each string.
fn push_strings(dst: &mut Vec<Vec<char>>, src: &Vec<String>)
    ensures
        seqs_view(final(dst)@) == seqs_view(old(dst)@) + strings_view(src@),
{
    let mut k: usize = 0;
    while k < src.len()
        invariant
            k <= src@.len(),
            seqs_view(dst@) == seqs_view(old(dst)@) + strings_view(src@).subrange(0, k as int),
        decreases src@.len() - k,
    {
        let ghost before = seqs_view(dst@);
        let c = chars_of(src[k].as_str());
        dst.push(c);
        k += 1;
        proof {
            assert(seqs_view(dst@) =~= before.push(src@[k - 1]@));
            assert(strings_view(src@).subrange(0, k as int) =~= strings_view(src@).subrange(0, k - 1).push(src@[k - 1]@));
        }
    }
    assert(strings_view(src@).subrange(0, src@.len() as int) =~= strings_view(src@));
}

/// Whether `s` is the literal `lit`.
fn is_lit(s: &String, lit: &str) -> (r: bool)
    ensures
        r == (s@ == lit@),
{
    str_eq(s.as_str(), lit)
}

/// Gather a test's match type, comparator, address part, names and keys
/// in a single pass over its forms.
fn extract_test_args(forms: &[Form]) -> (r: TestArgs)
    ensures
        args_view(r) == test_args(stmt_view(forms@)),
{
    let ghost v = stmt_view(forms@);
    proof {
        lemma_stmt_view(forms@);
    }
    let mut a = TestArgs {
        mt: MatchType::Is,
        comparator: Comparator::AsciiCasemap,
        part: AddressPart::All,
        names: Vec::new(),
        keys: Vec::new(),
        count: 0,
    };
    assert(seqs_view(a.names@) =~= Seq::<Seq<char>>::empty());
    assert(seqs_view(a.keys@) =~= Seq::<Seq<char>>::empty());
    assert(args_view(a) == initial_args());
    let mut i: usize = 0;
    while i < forms.len()
        invariant
            i <= forms@.len(),
            v == stmt_view(forms@),
            v.len() == forms@.len(),
            forall|q: int| 0 <= q < forms@.len() ==> #[trigger] v[q] == form_view(forms@[q]),
            a.count <= 2,
            test_args(v) == args_from(v, i as int, args_view(a)),
        decreases forms@.len() - i,
    {
        match &forms[i] {
            Form::Tag(t) => {
                if is_lit(t, "comparator") {
                    if i + 1 < forms.len() {
                        if let Form::Str(name) = &forms[i + 1] {
                            if is_lit(name, "i;octet") {
                                a.comparator = Comparator::Octet;
                            }
                            i += 2;
                            continue;
                        }
                    }
                    i += 1;
                } else {
                    if is_lit(t, "is") {
                        a.mt = MatchType::Is;
                    } else if is_lit(t, "contains") {
                        a.mt = MatchType::Contains;
                    } else if is_lit(t, "matches") {
                        a.mt = MatchType::Matches;
                    } else if is_lit(t, "regex") {
                        a.mt = MatchType::Regex;
                    } else if is_lit(t, "localpart") {
                        a.part = AddressPart::LocalPart;
                    } else if is_lit(t, "domain") {
                        a.part = AddressPart::Domain;
                    } else if is_lit(t, "all") {
                        a.part = AddressPart::All;
                    }
                    i += 1;
                }
            },
            Form::Str(s) => {
                if a.count < 2 {
                    let ghost before = args_view(a);
                    let c = chars_of(s.as_str());
                    if a.count == 0 {
                        let ghost old_names = a.names@;
                        a.names.push(c);
                        assert(seqs_view(a.names@) =~= seqs_view(old_names) + seq![s@]);
                    } else {
                        let ghost old_keys = a.keys@;
                        a.keys.push(c);
                        assert(seqs_view(a.keys@) =~= seqs_view(old_keys) + seq![s@]);
                    }
                    a.count += 1;
                    proof {
                        assert(args_view(a) == add_operand(before, seq![s@]));
                    }
                }
                i += 1;
            },
            Form::StringList(list) => {
                if a.count < 2 {
                    let ghost before = args_view(a);
                    if a.count == 0 {
                        push_strings(&mut a.names, list);
                    } else {
                        push_strings(&mut a.keys, list);
                    }
                    a.count += 1;
                    proof {
                        assert(args_view(a) == add_operand(before, strings_view(list@)));
                    }
                }
                i += 1;
            },
            _ => {
                i += 1;
            },
        }
    }
    a
}

/// Each string with variables substituted.
fn expand_each(v: &Vec<Vec<char>>, enabled: bool, vars: &Vec<(Vec<char>, Vec<char>)>) -> (r: Vec<Vec<char>>)
    ensures
        seqs_view(r@) == seqs_view(v@).map_values(|s: Seq<char>| expand(s, enabled, vars_map(vars@))),
{
    let mut out: Vec<Vec<char>> = Vec::new();
    let mut k: usize = 0;
    while k < v.len()
        invariant
            k <= v@.len(),
            out@.len() == k,
            forall|q: int| 0 <= q < k ==> (#[trigger] out@[q])@ == expand(v@[q]@, enabled, vars_map(vars@)),
        decreases v@.len() - k,
    {
        out.push(expand_vars(v[k].as_slice(), enabled, vars));
        k += 1;
    }
    assert(seqs_view(out@) =~= seqs_view(v@).map_values(|s: Seq<char>| expand(s, enabled, vars_map(vars@))));
    out
}

// ---------------------------------------------------------------------------
// Tests
// ---------------------------------------------------------------------------

/// Per-evaluation context: the message data and the compiled regexes.
pub struct Ctx<'a> {
    /// Parsed header list in document order.
    pub headers: Vec<(Vec<char>, Vec<char>)>,
    pub message_size: usize,
    pub envelope_from: Vec<char>,
    pub envelope_to: Vec<char>,
    /// Whether `require ["variables"]` was declared (RFC 5229).
    pub variables_enabled: bool,
    pub regex_cache: &'a RegexCache,
}

pub open spec fn env_of(ctx: &Ctx) -> EnvV {
    EnvV {
        headers: headers_view(ctx.headers@),
        size: ctx.message_size as nat,
        envelope_from: ctx.envelope_from@,
        envelope_to: ctx.envelope_to@,
        variables_enabled: ctx.variables_enabled,
    }
}

fn any_key(value: &[char], keys: &Vec<Vec<char>>, mt: MatchType, comparator: Comparator, cache: &RegexCache) -> (r: bool)
    ensures
        r == any_key_matches(value@, seqs_view(keys@), mt, comparator),
{
    let ghost ks = seqs_view(keys@);
    let mut k: usize = 0;
    while k < keys.len()
        invariant
            k <= keys@.len(),
            ks == seqs_view(keys@),
            forall|j: int| 0 <= j < k ==> !match_holds(value@, #[trigger] ks[j], mt, comparator),
        decreases keys@.len() - k,
    {
        if apply_match(value, keys[k].as_slice(), mt, comparator, cache) {
            assert(match_holds(value@, ks[k as int], mt, comparator));
            return true;
        }
        k += 1;
    }
    false
}

fn eval_header_test(forms: &[Form], ctx: &Ctx, vars: &Vec<(Vec<char>, Vec<char>)>) -> (r: bool)
    ensures
        r == header_test(stmt_view(forms@), env_of(ctx), vars_map(vars@)),
{
    let args = extract_test_args(forms);
    let names = expand_each(&args.names, ctx.variables_enabled, vars);
    let keys = expand_each(&args.keys, ctx.variables_enabled, vars);
    let ghost env = env_of(ctx);
    let ghost a = test_args(stmt_view(forms@));
    let ghost ns = expand_all(a.names, env, vars_map(vars@));
    let ghost ks = expand_all(a.keys, env, vars_map(vars@));
    assert(seqs_view(names@) == ns);
    assert(seqs_view(keys@) == ks);
    let mut h: usize = 0;
    while h < ctx.headers.len()
        invariant
            h <= ctx.headers@.len(),
            env == env_of(ctx),
            a == test_args(stmt_view(forms@)),
            ns == expand_all(a.names, env, vars_map(vars@)),
            ks == expand_all(a.keys, env, vars_map(vars@)),
            args.mt == a.mt,
            args.comparator == a.comparator,
            args.part == a.part,
            seqs_view(names@) == ns,
            seqs_view(keys@) == ks,
            forall|hh: int, n: int|
                0 <= hh < h && 0 <= n < ns.len() ==> !(eq_ignore_case(#[trigger] env.headers[hh].0, #[trigger] ns[n])
                    && any_key_matches(env.headers[hh].1, ks, a.mt, a.comparator)),
        decreases ctx.headers@.len() - h,
    {
        let mut n: usize = 0;
        while n < names.len()
            invariant
                h < ctx.headers@.len(),
                n <= names@.len(),
                env == env_of(ctx),
                a == test_args(stmt_view(forms@)),
                ns == expand_all(a.names, env, vars_map(vars@)),
                ks == expand_all(a.keys, env, vars_map(vars@)),
                args.mt == a.mt,
                args.comparator == a.comparator,
                args.part == a.part,
            a == test_args(stmt_view(forms@)),
            ns == expand_all(a.names, env, vars_map(vars@)),
            ks == expand_all(a.keys, env, vars_map(vars@)),
            args.mt == a.mt,
            args.comparator == a.comparator,
            args.part == a.part,
                seqs_view(names@) == ns,
                seqs_view(keys@) == ks,
                forall|nn: int|
                    0 <= nn < n ==> !(eq_ignore_case(env.headers[h as int].0, #[trigger] ns[nn])
                        && any_key_matches(env.headers[h as int].1, ks, a.mt, a.comparator)),
            decreases names@.len() - n,
        {
            proof {
                assert(env.headers[h as int] == (ctx.headers@[h as int].0@, ctx.headers@[h as int].1@));
                assert(ns[n as int] == names@[n as int]@);
            }
            if chars_eq_ignore_case(ctx.headers[h].0.as_slice(), names[n].as_slice())
                && any_key(ctx.headers[h].1.as_slice(), &keys, args.mt, args.comparator, ctx.regex_cache) {
                assert(eq_ignore_case(env.headers[h as int].0, ns[n as int]));
                return true;
            }
            n += 1;
        }
        h += 1;
    }
    false
}

/// Whether some address of a header value has a part that some key matches.
fn any_address(value: &[char], part: AddressPart, keys: &Vec<Vec<char>>, mt: MatchType, comparator: Comparator, cache: &RegexCache) -> (r: bool)
    ensures
        r == some_address_matches(value@, part, seqs_view(keys@), mt, comparator),
{
    let addrs = split_address_chars(value);
    let ghost sp = split_addresses_of(value@);
    let mut j: usize = 0;
    while j < addrs.len()
        invariant
            j <= addrs@.len(),
            seqs_view(addrs@) == sp,
            sp == split_addresses_of(value@),
            forall|jj: int| 0 <= jj < j ==> !any_key_matches(address_part_of(#[trigger] sp[jj], part), seqs_view(keys@), mt, comparator),
        decreases addrs@.len() - j,
    {
        let p = address_part_chars(addrs[j].as_slice(), part);
        assert(sp[j as int] == addrs@[j as int]@);
        if any_key(p.as_slice(), keys, mt, comparator, cache) {
            return true;
        }
        j += 1;
    }
    false
}

fn eval_address_test(forms: &[Form], ctx: &Ctx, vars: &Vec<(Vec<char>, Vec<char>)>) -> (r: bool)
    ensures
        r == address_test(stmt_view(forms@), env_of(ctx), vars_map(vars@)),
{
    let args = extract_test_args(forms);
    let names = expand_each(&args.names, ctx.variables_enabled, vars);
    let keys = expand_each(&args.keys, ctx.variables_enabled, vars);
    let ghost env = env_of(ctx);
    let ghost a = test_args(stmt_view(forms@));
    let ghost ns = expand_all(a.names, env, vars_map(vars@));
    let ghost ks = expand_all(a.keys, env, vars_map(vars@));
    assert(seqs_view(names@) == ns);
    assert(seqs_view(keys@) == ks);
    let mut h: usize = 0;
    while h < ctx.headers.len()
        invariant
            h <= ctx.headers@.len(),
            env == env_of(ctx),
            a == test_args(stmt_view(forms@)),
            ns == expand_all(a.names, env, vars_map(vars@)),
            ks == expand_all(a.keys, env, vars_map(vars@)),
            args.mt == a.mt,
            args.comparator == a.comparator,
            args.part == a.part,
            seqs_view(names@) == ns,
            seqs_view(keys@) == ks,
            forall|hh: int, n: int|
                0 <= hh < h && 0 <= n < ns.len() ==> !(eq_ignore_case(#[trigger] env.headers[hh].0, #[trigger] ns[n])
                    && some_address_matches(env.headers[hh].1, a.part, ks, a.mt, a.comparator)),
        decreases ctx.headers@.len() - h,
    {
        let mut n: usize = 0;
        while n < names.len()
            invariant
                h < ctx.headers@.len(),
                n <= names@.len(),
                env == env_of(ctx),
                a == test_args(stmt_view(forms@)),
                ns == expand_all(a.names, env, vars_map(vars@)),
                ks == expand_all(a.keys, env, vars_map(vars@)),
                args.mt == a.mt,
                args.comparator == a.comparator,
                args.part == a.part,
            a == test_args(stmt_view(forms@)),
            ns == expand_all(a.names, env, vars_map(vars@)),
            ks == expand_all(a.keys, env, vars_map(vars@)),
            args.mt == a.mt,
            args.comparator == a.comparator,
            args.part == a.part,
                seqs_view(names@) == ns,
                seqs_view(keys@) == ks,
                forall|nn: int|
                    0 <= nn < n ==> !(eq_ignore_case(env.headers[h as int].0, #[trigger] ns[nn])
                        && some_address_matches(env.headers[h as int].1, a.part, ks, a.mt, a.comparator)),
            decreases names@.len() - n,
        {
            proof {
                assert(env.headers[h as int] == (ctx.headers@[h as int].0@, ctx.headers@[h as int].1@));
                assert(ns[n as int] == names@[n as int]@);
            }
            if chars_eq_ignore_case(ctx.headers[h].0.as_slice(), names[n].as_slice())
                && any_address(ctx.headers[h].1.as_slice(), args.part, &keys, args.mt, args.comparator, ctx.regex_cache) {
                assert(eq_ignore_case(env.headers[h as int].0, ns[n as int]));
                return true;
            }
            n += 1;
        }
        h += 1;
    }
    false
}

fn eval_envelope_test(forms: &[Form], ctx: &Ctx, vars: &Vec<(Vec<char>, Vec<char>)>) -> (r: bool)
    ensures
        r == envelope_test(stmt_view(forms@), env_of(ctx), vars_map(vars@)),
{
    let args = extract_test_args(forms);
    let names = expand_each(&args.names, ctx.variables_enabled, vars);
    let keys = expand_each(&args.keys, ctx.variables_enabled, vars);
    let ghost env = env_of(ctx);
    let ghost a = test_args(stmt_view(forms@));
    let ghost ns = expand_all(a.names, env, vars_map(vars@));
    let ghost ks = expand_all(a.keys, env, vars_map(vars@));
    assert(seqs_view(names@) == ns);
    assert(seqs_view(keys@) == ks);
    let from_word = chars_of("from");
    let to_word = chars_of("to");
    let mut n: usize = 0;
    while n < names.len()
        invariant
            n <= names@.len(),
            env == env_of(ctx),
            a == test_args(stmt_view(forms@)),
            ns == expand_all(a.names, env, vars_map(vars@)),
            ks == expand_all(a.keys, env, vars_map(vars@)),
            args.mt == a.mt,
            args.comparator == a.comparator,
            args.part == a.part,
            from_word@ == "from"@,
            to_word@ == "to"@,
            seqs_view(names@) == ns,
            seqs_view(keys@) == ks,
            forall|nn: int|
                0 <= nn < n ==> !(#[trigger] envelope_part(ns[nn], env) is Some && any_key_matches(
                    address_part_of(envelope_part(ns[nn], env)->0, a.part),
                    ks,
                    a.mt,
                    a.comparator,
                )),
        decreases names@.len() - n,
    {
        assert(ns[n as int] == names@[n as int]@);
        let lower = lower_chars(names[n].as_slice());
        let raw: &Vec<char> = if chars_eq(lower.as_slice(), from_word.as_slice()) {
            &ctx.envelope_from
        } else if chars_eq(lower.as_slice(), to_word.as_slice()) {
            &ctx.envelope_to
        } else {
            n += 1;
            continue;
        };
        let addr = address_part_chars(raw.as_slice(), args.part);
        if any_key(addr.as_slice(), &keys, args.mt, args.comparator, ctx.regex_cache) {
            assert(envelope_part(ns[n as int], env) is Some);
            return true;
        }
        n += 1;
    }
    false
}

/// All strings of the `Str` and `StringList` forms, in order.
pub fn collect_strings(forms: &[Form]) -> (r: Vec<Vec<char>>)
    ensures
        seqs_view(r@) == all_strings(stmt_view(forms@)),
{
    proof {
        lemma_stmt_view(forms@);
    }
    let mut out: Vec<Vec<char>> = Vec::new();
    let mut i: usize = 0;
    assert(seqs_view(out@) =~= Seq::<Seq<char>>::empty());
    while i < forms.len()
        invariant
            i <= forms@.len(),
            stmt_view(forms@).len() == forms@.len(),
            forall|q: int| 0 <= q < forms@.len() ==> #[trigger] stmt_view(forms@)[q] == form_view(forms@[q]),
            seqs_view(out@) == all_strings(stmt_view(forms@).subrange(0, i as int)),
        decreases forms@.len() - i,
    {
        let ghost v = stmt_view(forms@);
        let ghost before = seqs_view(out@);
        proof {
            assert(v.subrange(0, i + 1).drop_last() =~= v.subrange(0, i as int));
        }
        match &forms[i] {
            Form::Str(s) => {
                out.push(chars_of(s.as_str()));
                assert(seqs_view(out@) =~= before + seq![s@]);
            },
            Form::StringList(list) => {
                push_strings(&mut out, list);
            },
            _ => {
                assert(seqs_view(out@) =~= before + Seq::<Seq<char>>::empty());
            },
        }
        i += 1;
    }
    assert(stmt_view(forms@).subrange(0, forms@.len() as int) =~= stmt_view(forms@));
    out
}

fn has_header_exec(ctx: &Ctx, name: &[char]) -> (r: bool)
    ensures
        r == has_header(env_of(ctx), name@),
{
    let ghost env = env_of(ctx);
    let mut h: usize = 0;
    while h < ctx.headers.len()
        invariant
            h <= ctx.headers@.len(),
            env == env_of(ctx),
            forall|hh: int| 0 <= hh < h ==> !eq_ignore_case(#[trigger] env.headers[hh].0, name@),
        decreases ctx.headers@.len() - h,
    {
        if chars_eq_ignore_case(ctx.headers[h].0.as_slice(), name) {
            assert(eq_ignore_case(env.headers[h as int].0, name@));
            return true;
        }
        h += 1;
    }
    false
}

fn eval_exists_test(forms: &[Form], ctx: &Ctx, vars: &Vec<(Vec<char>, Vec<char>)>) -> (r: bool)
    ensures
        r == exists_test(stmt_view(forms@), env_of(ctx), vars_map(vars@)),
{
    let raw = collect_strings(forms);
    let names = expand_each(&raw, ctx.variables_enabled, vars);
    let ghost ns = expand_all(all_strings(stmt_view(forms@)), env_of(ctx), vars_map(vars@));
    assert(seqs_view(names@) == ns);
    if names.len() == 0 {
        return false;
    }
    let mut n: usize = 0;
    while n < names.len()
        invariant
            n <= names@.len(),
            seqs_view(names@) == ns,
            ns == expand_all(all_strings(stmt_view(forms@)), env_of(ctx), vars_map(vars@)),
            forall|nn: int| 0 <= nn < n ==> has_header(env_of(ctx), #[trigger] ns[nn]),
        decreases names@.len() - n,
    {
        assert(ns[n as int] == names@[n as int]@);
        if !has_header_exec(ctx, names[n].as_slice()) {
            return false;
        }
        n += 1;
    }
    true
}

fn eval_size_test(forms: &[Form], message_size: usize) -> (r: bool)
    ensures
        r == size_test(stmt_view(forms@), message_size as nat),
{
    proof {
        lemma_stmt_view(forms@);
    }
    let ghost v = stmt_view(forms@);
    let mut over: Option<bool> = None;
    let mut limit: Option<u64> = None;
    let mut i: usize = 0;
    while i < forms.len()
        invariant
            i <= forms@.len(),
            v == stmt_view(forms@),
            v.len() == forms@.len(),
            forall|q: int| 0 <= q < forms@.len() ==> #[trigger] v[q] == form_view(forms@[q]),
            size_args(v.subrange(0, i as int)).1 == limit,
            size_args(v.subrange(0, i as int)).0 == match over {
                Some(true) => Some(SizeDir::Over),
                Some(false) => Some(SizeDir::Under),
                None => None::<SizeDir>,
            },
        decreases forms@.len() - i,
    {
        proof {
            assert(v.subrange(0, i + 1).drop_last() =~= v.subrange(0, i as int));
        }
        match &forms[i] {
            Form::Tag(t) => {
                if is_lit(t, "over") {
                    over = Some(true);
                } else if is_lit(t, "under") {
                    over = Some(false);
                }
            },
            Form::Num(n) => {
                limit = Some(*n);
            },
            _ => {},
        }
        i += 1;
    }
    assert(v.subrange(0, forms@.len() as int) =~= v);
    let limit: usize = match limit {
        Some(l) => if l > usize::MAX as u64 {
            usize::MAX
        } else {
            l as usize
        },
        None => {
            return false;
        },
    };
    match over {
        Some(true) => message_size > limit,
        Some(false) => message_size < limit,
        None => false,
    }
}

/// Whether a test holds (unknown tests are false).
fn eval_test(forms: &[Form], ctx: &Ctx, vars: &Vec<(Vec<char>, Vec<char>)>) -> (r: bool)
    ensures
        r == test_holds(stmt_view(forms@), env_of(ctx), vars_map(vars@)),
    decreases stmt_view(forms@),
{
    proof {
        lemma_stmt_view(forms@);
    }
    if forms.len() == 0 {
        return false;
    }
    match &forms[0] {
        Form::Word(w) => {
            let n = forms.len();
            let rest = vstd::slice::slice_subrange(forms, 1, n);
            proof {
                lemma_stmt_view_subrange(forms@, 1, n as int);
            }
            if is_lit(w, "header") {
                eval_header_test(rest, ctx, vars)
            } else if is_lit(w, "address") {
                eval_address_test(rest, ctx, vars)
            } else if is_lit(w, "envelope") {
                eval_envelope_test(rest, ctx, vars)
            } else if is_lit(w, "exists") {
                eval_exists_test(rest, ctx, vars)
            } else if is_lit(w, "size") {
                eval_size_test(rest, ctx.message_size)
            } else if is_lit(w, "allof") {
                eval_allof(rest, ctx, vars)
            } else if is_lit(w, "anyof") {
                eval_anyof(rest, ctx, vars)
            } else if is_lit(w, "not") {
                !eval_test(rest, ctx, vars)
            } else {
                is_lit(w, "true")
            }
        },
        _ => false,
    }
}

/// `allof (tests)`: every test holds; false when the argument is not a
/// single test list.
fn eval_allof(rest: &[Form], ctx: &Ctx, vars: &Vec<(Vec<char>, Vec<char>)>) -> (r: bool)
    ensures
        r == (if stmt_view(rest@).len() == 1 && stmt_view(rest@)[0] is TestList {
            all_hold(stmt_view(rest@)[0]->TestList_0, env_of(ctx), vars_map(vars@))
        } else {
            false
        }),
    decreases stmt_view(rest@),
{
    proof {
        lemma_stmt_view(rest@);
    }
    if rest.len() != 1 {
        return false;
    }
    match &rest[0] {
        Form::TestList(tests) => {
            let ghost tv = stmts_view(tests@);
            proof {
                lemma_stmts_view(tests@);
                assert(stmt_view(rest@)[0] == FormV::TestList(tv));
            }
            let mut k: usize = 0;
            assert(tv.subrange(0, tv.len() as int) =~= tv);
            while k < tests.len()
                invariant
                    k <= tests@.len(),
                    tv == stmts_view(tests@),
                    stmt_view(rest@).len() == 1,
                    stmt_view(rest@)[0] == FormV::TestList(tv),
                    tv.len() == tests@.len(),
                    forall|q: int| 0 <= q < tests@.len() ==> #[trigger] tv[q] == stmt_view(tests@[q]@),
                    all_hold(tv, env_of(ctx), vars_map(vars@)) == all_hold(tv.subrange(k as int, tv.len() as int), env_of(ctx), vars_map(vars@)),
                decreases tests@.len() - k,
            {
                let ghost tail = tv.subrange(k as int, tv.len() as int);
                assert(tail[0] == tv[k as int]);
                assert(tail.subrange(1, tail.len() as int) =~= tv.subrange(k + 1, tv.len() as int));
                proof {
                    let rv = stmt_view(rest@);
                    assert(decreases_to!(rv => rv[0]));
                    assert(decreases_to!(rv[0] => rv[0]->TestList_0));
                    assert(decreases_to!(tv => tv[k as int]));
                    assert(tv[k as int] == stmt_view(tests@[k as int]@));
                }
                if !eval_test(tests[k].as_slice(), ctx, vars) {
                    return false;
                }
                k += 1;
            }
            true
        },
        _ => false,
    }
}

/// `anyof (tests)`: some test holds; false when the argument is not a
/// single test list.
fn eval_anyof(rest: &[Form], ctx: &Ctx, vars: &Vec<(Vec<char>, Vec<char>)>) -> (r: bool)
    ensures
        r == (if stmt_view(rest@).len() == 1 && stmt_view(rest@)[0] is TestList {
            any_holds(stmt_view(rest@)[0]->TestList_0, env_of(ctx), vars_map(vars@))
        } else {
            false
        }),
    decreases stmt_view(rest@),
{
    proof {
        lemma_stmt_view(rest@);
    }
    if rest.len() != 1 {
        return false;
    }
    match &rest[0] {
        Form::TestList(tests) => {
            let ghost tv = stmts_view(tests@);
            proof {
                lemma_stmts_view(tests@);
                assert(stmt_view(rest@)[0] == FormV::TestList(tv));
            }
            let mut k: usize = 0;
            assert(tv.subrange(0, tv.len() as int) =~= tv);
            while k < tests.len()
                invariant
                    k <= tests@.len(),
                    tv == stmts_view(tests@),
                    stmt_view(rest@).len() == 1,
                    stmt_view(rest@)[0] == FormV::TestList(tv),
                    tv.len() == tests@.len(),
                    forall|q: int| 0 <= q < tests@.len() ==> #[trigger] tv[q] == stmt_view(tests@[q]@),
                    any_holds(tv, env_of(ctx), vars_map(vars@)) == any_holds(tv.subrange(k as int, tv.len() as int), env_of(ctx), vars_map(vars@)),
                decreases tests@.len() - k,
            {
                let ghost tail = tv.subrange(k as int, tv.len() as int);
                assert(tail[0] == tv[k as int]);
                assert(tail.subrange(1, tail.len() as int) =~= tv.subrange(k + 1, tv.len() as int));
                proof {
                    let rv = stmt_view(rest@);
                    assert(decreases_to!(rv => rv[0]));
                    assert(decreases_to!(rv[0] => rv[0]->TestList_0));
                    assert(decreases_to!(tv => tv[k as int]));
                    assert(tv[k as int] == stmt_view(tests@[k as int]@));
                }
                if eval_test(tests[k].as_slice(), ctx, vars) {
                    return true;
                }
                k += 1;
            }
            false
        },
        _ => false,
    }
}

// ---------------------------------------------------------------------------
// `set` modifiers
// ---------------------------------------------------------------------------

fn precedence_of(m: &[char]) -> (r: u8)
    ensures
        r as nat == precedence(m@),
{
    if chars_eq(m, chars_of("lower").as_slice()) || chars_eq(m, chars_of("upper").as_slice()) {
        40
    } else if chars_eq(m, chars_of("length").as_slice()) {
        30
    } else if chars_eq(m, chars_of("quotewildcard").as_slice()) {
        20
    } else if chars_eq(m, chars_of("firstline").as_slice()) {
        10
    } else {
        0
    }
}

fn quote_wildcards_exec(v: &[char]) -> (r: Vec<char>)
    ensures
        r@ == quote_wildcards(v@),
{
    let mut out: Vec<char> = Vec::new();
    let mut k: usize = 0;
    assert(v@.subrange(0, 0) =~= Seq::<char>::empty());
    while k < v.len()
        invariant
            k <= v@.len(),
            out@ == quote_wildcards(v@.subrange(0, k as int)),
        decreases v@.len() - k,
    {
        let c = v[k];
        let ghost before = out@;
        if c == '\\' || c == '*' || c == '?' {
            out.push('\\');
        }
        out.push(c);
        k += 1;
        proof {
            let p = v@.subrange(0, k as int);
            assert(p.drop_last() =~= v@.subrange(0, k - 1));
            assert(p.last() == c);
            if c == '\\' || c == '*' || c == '?' {
                assert(out@ =~= before + seq!['\\', c]);
            } else {
                assert(out@ =~= before + seq![c]);
            }
        }
    }
    assert(v@.subrange(0, v@.len() as int) =~= v@);
    out
}

fn first_line_exec(v: &[char]) -> (r: Vec<char>)
    ensures
        r@ == first_line(v@),
{
    match index_of_char(v, '\n', 0) {
        Some(pos) => {
            proof {
                lemma_index_of_from(v@, '\n', 0);
            }
            if pos > 0 && v[pos - 1] == '\r' {
                slice_to_vec_range(v, 0, pos - 1)
            } else {
                slice_to_vec_range(v, 0, pos)
            }
        },
        None => slice_to_vec_range(v, 0, v.len()),
    }
}

fn apply_modifier_exec(v: &[char], m: &[char]) -> (r: Vec<char>)
    ensures
        r@ == apply_modifier(v@, m@),
{
    if chars_eq(m, chars_of("lower").as_slice()) {
        lower_chars(v)
    } else if chars_eq(m, chars_of("upper").as_slice()) {
        upper_chars(v)
    } else if chars_eq(m, chars_of("length").as_slice()) {
        decimal_chars(v.len() as u64)
    } else if chars_eq(m, chars_of("quotewildcard").as_slice()) {
        quote_wildcards_exec(v)
    } else if chars_eq(m, chars_of("firstline").as_slice()) {
        first_line_exec(v)
    } else {
        slice_to_vec_range(v, 0, v.len())
    }
}

fn apply_level_exec(v: &[char], mods: &Vec<Vec<char>>, level: u8) -> (r: Vec<char>)
    ensures
        r@ == apply_level(v@, seqs_view(mods@), level as nat),
{
    let ghost ms = seqs_view(mods@);
    let mut cur = slice_to_vec_range(v, 0, v.len());
    let mut k: usize = 0;
    assert(ms.subrange(0, 0) =~= Seq::<Seq<char>>::empty());
    while k < mods.len()
        invariant
            k <= mods@.len(),
            ms == seqs_view(mods@),
            cur@ == apply_level(v@, ms.subrange(0, k as int), level as nat),
        decreases mods@.len() - k,
    {
        proof {
            let p = ms.subrange(0, k + 1);
            assert(p.drop_last() =~= ms.subrange(0, k as int));
            assert(p.last() == mods@[k as int]@);
        }
        if precedence_of(mods[k].as_slice()) == level {
            cur = apply_modifier_exec(cur.as_slice(), mods[k].as_slice());
        }
        k += 1;
    }
    assert(ms.subrange(0, mods@.len() as int) =~= ms);
    cur
}

/// Apply RFC 5229 §4 modifiers to a value in precedence order
/// (`:lower`/`:upper` 40, `:length` 30, `:quotewildcard` 20, `:firstline`
/// 10), whatever their order in the script; unknown modifiers are ignored.
pub fn apply_set_modifiers(value: &[char], modifiers: &Vec<Vec<char>>) -> (r: Vec<char>)
    ensures
        r@ == apply_modifiers(value@, seqs_view(modifiers@)),
{
    let a = apply_level_exec(value, modifiers, 40);
    let b = apply_level_exec(a.as_slice(), modifiers, 30);
    let c = apply_level_exec(b.as_slice(), modifiers, 20);
    apply_level_exec(c.as_slice(), modifiers, 10)
}

// ---------------------------------------------------------------------------
// Statements
// ---------------------------------------------------------------------------

/// What a statement asks for (see [`Outcome`]).
pub enum StmtResult {
    Continue,
    Keep,
    Discard,
    FileInto(Vec<char>),
    Reject(Vec<char>),
    Redirect(Vec<char>),
    Stop,
}

pub open spec fn outcome_of(r: StmtResult) -> Outcome {
    match r {
        StmtResult::Continue => Outcome::Continue,
        StmtResult::Keep => Outcome::Keep,
        StmtResult::Discard => Outcome::Discard,
        StmtResult::FileInto(f) => Outcome::FileInto(f@),
        StmtResult::Reject(f) => Outcome::Reject(f@),
        StmtResult::Redirect(f) => Outcome::Redirect(f@),
        StmtResult::Stop => Outcome::Stop,
    }
}

pub open spec fn opt_outcome(r: Option<StmtResult>) -> Option<Outcome> {
    match r {
        Some(x) => Some(outcome_of(x)),
        None => None,
    }
}

/// `set [modifiers] "name" "value"`.
fn eval_set(rest: &[Form], ctx: &Ctx, vars: &mut Vec<(Vec<char>, Vec<char>)>)
    ensures
        vars_map(final(vars)@) == set_outcome(stmt_view(rest@), env_of(ctx), vars_map(old(vars)@)),
{
    proof {
        lemma_stmt_view(rest@);
    }
    let ghost v = stmt_view(rest@);
    let mut mods: Vec<Vec<char>> = Vec::new();
    let mut n: usize = 0;
    assert(v.subrange(0, v.len() as int) =~= v);
    assert(seqs_view(mods@) =~= tag_names(v, 0));
    while n < rest.len()
        invariant
            n <= rest@.len(),
            v == stmt_view(rest@),
            v.len() == rest@.len(),
            forall|q: int| 0 <= q < rest@.len() ==> #[trigger] v[q] == form_view(rest@[q]),
            leading_tags(v) == n + leading_tags(v.subrange(n as int, v.len() as int)),
            seqs_view(mods@) == tag_names(v, n as nat),
        ensures
            n <= rest@.len(),
            n == rest@.len() || !(v[n as int] is Tag),
            leading_tags(v) == n + leading_tags(v.subrange(n as int, v.len() as int)),
            seqs_view(mods@) == tag_names(v, n as nat),
        decreases rest@.len() - n,
    {
        let ghost tail = v.subrange(n as int, v.len() as int);
        let t = match &rest[n] {
            Form::Tag(t) => t,
            _ => {
                break;
            },
        };
        let ghost before = seqs_view(mods@);
        mods.push(chars_of(t.as_str()));
        proof {
            assert(v[n as int] == FormV::Tag(t@));
            assert(seqs_view(mods@) =~= before.push(t@));
            assert(tail[0] is Tag);
            assert(tail.subrange(1, tail.len() as int) =~= v.subrange(n + 1, v.len() as int));
            assert(seqs_view(mods@) =~= tag_names(v, (n + 1) as nat));
        }
        n += 1;
    }
    proof {
        let tail = v.subrange(n as int, v.len() as int);
        if n < rest@.len() {
            assert(tail[0] == v[n as int]);
        }
        assert(leading_tags(tail) == 0);
    }
    if n < rest.len() && rest.len() - n >= 2 {
        if let Form::Str(name) = &rest[n] {
            if let Form::Str(value) = &rest[n + 1] {
                let vchars = chars_of(value.as_str());
                let expanded = expand_vars(vchars.as_slice(), ctx.variables_enabled, vars);
                let modified = apply_set_modifiers(expanded.as_slice(), &mods);
                let lname = unicode_lowercase_of(name.as_str());
                let ghost before = vars@;
                vars.push((chars_of(lname.as_str()), modified));
                proof {
                    assert(vars@.drop_last() =~= before);
                }
            }
        }
    }
}

fn word_of(f: &Form) -> (r: Option<&String>)
    ensures
        match r {
            Some(w) => form_view(*f) == FormV::Word(w@),
            None => !(form_view(*f) is Word),
        },
{
    match f {
        Form::Word(w) => Some(w),
        _ => None,
    }
}

fn str_of(f: &Form) -> (r: Option<&String>)
    ensures
        match r {
            Some(w) => form_view(*f) == FormV::Str(w@),
            None => !(form_view(*f) is Str),
        },
{
    match f {
        Form::Str(w) => Some(w),
        _ => None,
    }
}

/// One statement.  Unknown and malformed commands are ignored (RFC 5228 §2.9).
fn eval_stmt(stmt: &[Form], ctx: &Ctx, vars: &mut Vec<(Vec<char>, Vec<char>)>) -> (r: StmtResult)
    ensures
        (outcome_of(r), vars_map(final(vars)@)) == stmt_outcome(stmt_view(stmt@), env_of(ctx), vars_map(old(vars)@)),
    decreases stmt_view(stmt@),
{
    proof {
        lemma_stmt_view(stmt@);
    }
    let n = stmt.len();
    if n == 0 {
        return StmtResult::Continue;
    }
    let w = match word_of(&stmt[0]) {
        Some(w) => w,
        None => {
            return StmtResult::Continue;
        },
    };
    if is_lit(w, "require") {
        return StmtResult::Continue;
    }
    if is_lit(w, "if") {
        let rest = vstd::slice::slice_subrange(stmt, 1, n);
        proof {
            lemma_stmt_view_subrange(stmt@, 1, n as int);
        }
        return eval_if(rest, ctx, vars);
    }
    let arg: Option<&String> = if n == 2 {
        str_of(&stmt[1])
    } else {
        None
    };
    proof {
        reveal_strlit("fileinto");
        reveal_strlit("reject");
        reveal_strlit("redirect");
        reveal_strlit("discard");
        reveal_strlit("keep");
        reveal_strlit("stop");
        reveal_strlit("set");
        reveal_strlit("if");
        reveal_strlit("require");
    }
    match arg {
        Some(a) => {
            if is_lit(w, "fileinto") {
                return StmtResult::FileInto(expand_vars(chars_of(a.as_str()).as_slice(), ctx.variables_enabled, vars));
            }
            if is_lit(w, "reject") {
                return StmtResult::Reject(expand_vars(chars_of(a.as_str()).as_slice(), ctx.variables_enabled, vars));
            }
            if is_lit(w, "redirect") {
                return StmtResult::Redirect(expand_vars(chars_of(a.as_str()).as_slice(), ctx.variables_enabled, vars));
            }
        },
        None => {},
    }
    if n == 1 {
        if is_lit(w, "discard") {
            return StmtResult::Discard;
        }
        if is_lit(w, "keep") {
            return StmtResult::Keep;
        }
        if is_lit(w, "stop") {
            return StmtResult::Stop;
        }
    }
    if is_lit(w, "set") {
        let rest = vstd::slice::slice_subrange(stmt, 1, n);
        proof {
            lemma_stmt_view_subrange(stmt@, 1, n as int);
        }
        eval_set(rest, ctx, vars);
    }
    StmtResult::Continue
}

fn first_block_exec(forms: &[Form]) -> (r: Option<usize>)
    ensures
        match r {
            Some(p) => first_block(stmt_view(forms@), 0) == Some(p as int),
            None => first_block(stmt_view(forms@), 0) is None,
        },
{
    proof {
        lemma_stmt_view(forms@);
    }
    let ghost v = stmt_view(forms@);
    let mut i: usize = 0;
    while i < forms.len()
        invariant
            i <= forms@.len(),
            v == stmt_view(forms@),
            v.len() == forms@.len(),
            forall|q: int| 0 <= q < forms@.len() ==> #[trigger] v[q] == form_view(forms@[q]),
            first_block(v, 0) == first_block(v, i as int),
        decreases forms@.len() - i,
    {
        if let Form::Block(_) = &forms[i] {
            return Some(i);
        }
        i += 1;
    }
    None
}

fn is_word(f: &Form, lit: &str) -> (r: bool)
    ensures
        r == (form_view(*f) == FormV::Word(lit@)),
{
    match f {
        Form::Word(w) => is_lit(w, lit),
        _ => false,
    }
}

/// An `if` chain after its `if` word, evaluated iteratively through its
/// `elsif` branches.
fn eval_if(rest0: &[Form], ctx: &Ctx, vars: &mut Vec<(Vec<char>, Vec<char>)>) -> (r: StmtResult)
    ensures
        (outcome_of(r), vars_map(final(vars)@)) == if_outcome(stmt_view(rest0@), env_of(ctx), vars_map(old(vars)@)),
    decreases stmt_view(rest0@),
{
    let ghost v0 = stmt_view(rest0@);
    let ghost m0 = vars_map(vars@);
    proof {
        lemma_stmt_view(rest0@);
    }
    let mut rest = rest0;
    let ghost mut off: int = 0;
    assert(rest0@.subrange(0, rest0@.len() as int) =~= rest0@);
    loop
        invariant
            0 <= off <= rest0@.len(),
            rest@ == rest0@.subrange(off, rest0@.len() as int),
            v0 == stmt_view(rest0@),
            v0.len() == rest0@.len(),
            forall|q: int| 0 <= q < rest0@.len() ==> #[trigger] v0[q] == form_view(rest0@[q]),
            m0 == vars_map(vars@),
            vars@ == old(vars)@,
            if_outcome(v0, env_of(ctx), m0) == if_outcome(stmt_view(rest@), env_of(ctx), m0),
        decreases rest@.len(),
    {
        proof {
            lemma_stmt_view(rest@);
        }
        let ghost rv = stmt_view(rest@);
        let p = match first_block_exec(rest) {
            Some(p) => p,
            None => {
                return StmtResult::Continue;
            },
        };
        proof {
            lemma_first_block(rv, 0);
        }
        let n = rest.len();
        let tests = vstd::slice::slice_subrange(rest, 0, p);
        proof {
            lemma_stmt_view_subrange(rest@, 0, p as int);
        }
        if eval_test(tests, ctx, &*vars) {
            match &rest[p] {
                Form::Block(b) => {
                    proof {
                        assert(rest@[p as int] == rest0@[off + p]);
                        assert(decreases_to!(v0 => v0[off + p]));
                        assert(decreases_to!(v0[off + p] => v0[off + p]->Block_0));
                        assert(v0[off + p]->Block_0 == stmts_view(b@));
                    }
                    return match eval_stmt_list(b.as_slice(), ctx, vars) {
                        Some(o) => o,
                        None => StmtResult::Continue,
                    };
                },
                _ => {
                    return StmtResult::Continue;
                },
            }
        }
        if n - p > 1 && is_word(&rest[p + 1], "elsif") {
            proof {
                lemma_stmt_view_subrange(rest@, p + 2, n as int);
                assert(rv.subrange(p + 1, n as int)[0] == rv[p + 1]);
                assert(rest@.subrange(p + 2, n as int) =~= rest0@.subrange(off + p + 2, rest0@.len() as int));
            }
            rest = vstd::slice::slice_subrange(rest, p + 2, n);
            proof {
                off = off + p + 2;
            }
            continue;
        }
        if n - p > 2 && is_word(&rest[p + 1], "else") {
            match &rest[p + 2] {
                Form::Block(b) => {
                    proof {
                        assert(rv.subrange(p + 1, n as int)[0] == rv[p + 1]);
                        assert(rv.subrange(p + 1, n as int)[1] == rv[p + 2]);
                        assert(rest@[p + 2] == rest0@[off + p + 2]);
                        assert(decreases_to!(v0 => v0[off + p + 2]));
                        assert(decreases_to!(v0[off + p + 2] => v0[off + p + 2]->Block_0));
                        assert(v0[off + p + 2]->Block_0 == stmts_view(b@));
                    }
                    return match eval_stmt_list(b.as_slice(), ctx, vars) {
                        Some(o) => o,
                        None => StmtResult::Continue,
                    };
                },
                _ => {},
            }
        }
        proof {
            if p + 1 < n {
                assert(rv.subrange(p + 1, n as int)[0] == rv[p + 1]);
            }
            if p + 2 < n {
                assert(rv.subrange(p + 1, n as int)[1] == rv[p + 2]);
            }
        }
        return StmtResult::Continue;
    }
}

/// Statements in order until one yields something other than `Continue`.
fn eval_stmt_list(stmts: &[Stmt], ctx: &Ctx, vars: &mut Vec<(Vec<char>, Vec<char>)>) -> (r: Option<StmtResult>)
    ensures
        (opt_outcome(r), vars_map(final(vars)@)) == stmts_outcome(stmts_view(stmts@), env_of(ctx), vars_map(old(vars)@)),
        r matches Some(x) ==> !(outcome_of(x) is Continue),
    decreases stmts_view(stmts@),
{
    let ghost sv = stmts_view(stmts@);
    proof {
        lemma_stmts_view(stmts@);
    }
    let mut k: usize = 0;
    assert(sv.subrange(0, sv.len() as int) =~= sv);
    while k < stmts.len()
        invariant
            k <= stmts@.len(),
            sv == stmts_view(stmts@),
            sv.len() == stmts@.len(),
            forall|q: int| 0 <= q < stmts@.len() ==> #[trigger] sv[q] == stmt_view(stmts@[q]@),
            stmts_outcome(sv, env_of(ctx), vars_map(old(vars)@)) == stmts_outcome(sv.subrange(k as int, sv.len() as int), env_of(ctx), vars_map(vars@)),
        decreases stmts@.len() - k,
    {
        let ghost tail = sv.subrange(k as int, sv.len() as int);
        proof {
            assert(tail[0] == sv[k as int]);
            assert(tail.subrange(1, tail.len() as int) =~= sv.subrange(k + 1, sv.len() as int));
            assert(decreases_to!(sv => sv[k as int]));
        }
        let r = eval_stmt(stmts[k].as_slice(), ctx, vars);
        match r {
            StmtResult::Continue => {},
            _ => {
                return Some(r);
            },
        }
        k += 1;
    }
    None
}

// ---------------------------------------------------------------------------
// Scripts
// ---------------------------------------------------------------------------

/// The data a script is evaluated against, from the raw message and the
/// SMTP envelope.
pub open spec fn message_env(raw: Seq<u8>, envelope_from: Seq<char>, envelope_to: Seq<char>, variables_enabled: bool) -> EnvV {
    EnvV {
        headers: crate::message::spec_headers(raw),
        size: raw.len(),
        envelope_from,
        envelope_to,
        variables_enabled,
    }
}

/// The disposition of a script run: the outcome that ended it, with
/// `keep` when none did (or it ended with `keep` or `stop`).
pub open spec fn disposition(o: Option<Outcome>) -> crate::ActionV {
    match o {
        Some(Outcome::Discard) => crate::ActionV::Discard,
        Some(Outcome::FileInto(f)) => crate::ActionV::FileInto(f),
        Some(Outcome::Reject(r)) => crate::ActionV::Reject(r),
        Some(Outcome::Redirect(a)) => crate::ActionV::Redirect(a),
        _ => crate::ActionV::Keep,
    }
}

/// The disposition of a script on a message, starting with no variables.
pub open spec fn script_disposition(script: Seq<Seq<FormV>>, env: EnvV) -> crate::ActionV {
    disposition(stmts_outcome(script, env, Map::empty()).0)
}

/// Runs a script against a raw message and returns its single action.
pub fn eval_script(
    script: &[Stmt],
    regex_cache: &RegexCache,
    variables_enabled: bool,
    raw_message: &[u8],
    envelope_from: &str,
    envelope_to: &str,
) -> (r: Vec<crate::SieveAction>)
    ensures
        r@.len() == 1,
        crate::action_view(r@[0]) == script_disposition(
            stmts_view(script@),
            message_env(raw_message@, envelope_from@, envelope_to@, variables_enabled),
        ),
{
    let headers = crate::message::header_fields(raw_message);
    let ctx = Ctx {
        headers,
        message_size: raw_message.len(),
        envelope_from: chars_of(envelope_from),
        envelope_to: chars_of(envelope_to),
        variables_enabled,
        regex_cache,
    };
    assert(env_of(&ctx) == message_env(raw_message@, envelope_from@, envelope_to@, variables_enabled));
    let mut vars: Vec<(Vec<char>, Vec<char>)> = Vec::new();
    assert(vars_map(vars@) =~= Map::<Seq<char>, Seq<char>>::empty());
    let action = match eval_stmt_list(script, &ctx, &mut vars) {
        Some(StmtResult::Discard) => crate::SieveAction::Discard,
        Some(StmtResult::FileInto(folder)) => crate::SieveAction::FileInto(string_of(folder.as_slice())),
        Some(StmtResult::Reject(reason)) => crate::SieveAction::Reject(string_of(reason.as_slice())),
        Some(StmtResult::Redirect(addr)) => crate::SieveAction::Redirect(string_of(addr.as_slice())),
        _ => crate::SieveAction::Keep,
    };
    vec![action]
}

} // verus!
