//! Compile-time checks of a parsed script: declared extensions (RFC 5228
//! §2.6, §6.1), comparator names (RFC 5228 §2.7.2) and `:regex` patterns,
//! and the regex cache that `compile` builds.

use vstd::prelude::*;
use crate::form::{
    Form, FormV, Stmt, form_view, stmt_view, stmts_view, strings_view, lemma_stmt_view,
    lemma_stmts_view, lemma_stmt_view_subrange,
};
use crate::evaluator::{
    all_strings, is_known_extension, regex_base_key_of, ci_key_of, glob_base_key_of,
    glob_to_regex, cache_source, RegexCache, regex_base_key, regex_ci_key, glob_base_key,
    glob_ci_key, sieve_glob_to_regex,
};
use crate::parse_error::{SieveError, SieveErrorKind};
use crate::regex::{regex_compile_error, compile_regex};
use crate::text::{debug_quoted, debug_str, str_eq};

verus! {

/// The value of an error: its message and kind.
pub enum KindV {
    Utf8,
    Lex,
    Parse,
    UnsupportedExtension(Seq<char>),
    UnsupportedComparator(Seq<char>),
    MissingRequire(Seq<char>),
    InvalidRegex(Seq<char>),
}

pub open spec fn kind_view(k: SieveErrorKind) -> KindV {
    match k {
        SieveErrorKind::Utf8 => KindV::Utf8,
        SieveErrorKind::Lex => KindV::Lex,
        SieveErrorKind::Parse => KindV::Parse,
        SieveErrorKind::UnsupportedExtension(s) => KindV::UnsupportedExtension(s@),
        SieveErrorKind::UnsupportedComparator(s) => KindV::UnsupportedComparator(s@),
        SieveErrorKind::MissingRequire(s) => KindV::MissingRequire(s@),
        SieveErrorKind::InvalidRegex(s) => KindV::InvalidRegex(s@),
    }
}

pub type ErrV = (Seq<char>, KindV);

pub open spec fn error_view(e: SieveError) -> ErrV {
    (e.message@, kind_view(e.kind))
}

// ---------------------------------------------------------------------------
// `require`
// ---------------------------------------------------------------------------

/// The extension names of the top-level `require` statements, in order.
pub open spec fn required_names(script: Seq<Seq<FormV>>) -> Seq<Seq<char>>
    decreases script.len(),
{
    if script.len() == 0 {
        Seq::empty()
    } else {
        let st = script.last();
        required_names(script.drop_last()) + if st.len() > 0 && st[0] == FormV::Word("require"@) {
            all_strings(st.subrange(1, st.len() as int))
        } else {
            Seq::empty()
        }
    }
}

/// The first name of the list that is not a known extension.
pub open spec fn first_unknown(names: Seq<Seq<char>>) -> Option<Seq<char>>
    decreases names.len(),
{
    if names.len() == 0 {
        None
    } else if !is_known_extension(names[0]) {
        Some(names[0])
    } else {
        first_unknown(names.subrange(1, names.len() as int))
    }
}

pub open spec fn unsupported_extension_error(s: Seq<char>) -> ErrV {
    ("unsupported Sieve extension: "@ + s, KindV::UnsupportedExtension(s))
}

// ---------------------------------------------------------------------------
// Extension use (RFC 5228 §6.1)
// ---------------------------------------------------------------------------

/// The extension that a command needs declared.
pub open spec fn command_extension(w: Seq<char>) -> Option<Seq<char>> {
    if w == "fileinto"@ {
        Some("fileinto"@)
    } else if w == "reject"@ {
        Some("reject"@)
    } else if w == "set"@ {
        Some("variables"@)
    } else {
        None
    }
}

pub open spec fn missing_command_error(w: Seq<char>, ext: Seq<char>) -> ErrV {
    (
        "extension command \""@ + w + "\" used without require declaration"@,
        KindV::MissingRequire(ext),
    )
}

pub open spec fn missing_test_error(w: Seq<char>) -> ErrV {
    ("extension test \""@ + w + "\" used without require declaration"@, KindV::MissingRequire(w))
}

pub open spec fn missing_tag_error(t: Seq<char>) -> ErrV {
    ("extension match type \":"@ + t + "\" used without require declaration"@, KindV::MissingRequire(t))
}

/// In the tests of every clause of an `if` chain (the forms after `if`),
/// the first word `envelope` when that extension is not declared.  A block
/// ends the test of its clause; the chain goes on after a block only at
/// `elsif`, whose test follows.
pub open spec fn undeclared_envelope_word(forms: Seq<FormV>, declared: Set<Seq<char>>) -> Option<ErrV>
    decreases forms.len(),
{
    if forms.len() == 0 {
        None
    } else if forms[0] is Block {
        if forms.len() > 1 && forms[1] == FormV::Word("elsif"@) {
            undeclared_envelope_word(forms.subrange(2, forms.len() as int), declared)
        } else {
            None
        }
    } else if forms[0] == FormV::Word("envelope"@) && !declared.contains("envelope"@) {
        Some(missing_test_error("envelope"@))
    } else {
        undeclared_envelope_word(forms.subrange(1, forms.len() as int), declared)
    }
}

/// The first use of an undeclared extension in a statement: the command
/// word itself, an `envelope` word in the test of any clause of an `if`
/// chain (`if` or `elsif`), then the forms
/// in order (an undeclared `:regex` tag, or anything inside blocks and
/// test lists).
pub open spec fn extension_error(stmt: Seq<FormV>, declared: Set<Seq<char>>) -> Option<ErrV>
    decreases stmt, 1nat,
{
    let head: Option<ErrV> = if stmt.len() > 0 && stmt[0] is Word {
        let w = stmt[0]->Word_0;
        if command_extension(w) is Some && !declared.contains(command_extension(w)->0) {
            Some(missing_command_error(w, command_extension(w)->0))
        } else if w == "envelope"@ && !declared.contains("envelope"@) {
            Some(missing_test_error(w))
        } else if w == "if"@ || w == "elsif"@ {
            undeclared_envelope_word(stmt.subrange(1, stmt.len() as int), declared)
        } else {
            None
        }
    } else {
        None
    };
    if head is Some {
        head
    } else {
        forms_extension_error(stmt, declared)
    }
}

/// The first undeclared-extension error among forms, in order.
pub open spec fn forms_extension_error(forms: Seq<FormV>, declared: Set<Seq<char>>) -> Option<ErrV>
    decreases forms, 0nat,
{
    if forms.len() == 0 {
        None
    } else {
        let first: Option<ErrV> = match forms[0] {
            FormV::Tag(t) => if t == "regex"@ && !declared.contains("regex"@) {
                Some(missing_tag_error(t))
            } else {
                None
            },
            FormV::Block(b) => list_extension_error(b, declared),
            FormV::TestList(ts) => list_extension_error(ts, declared),
            _ => None,
        };
        if first is Some {
            first
        } else {
            forms_extension_error(forms.subrange(1, forms.len() as int), declared)
        }
    }
}

/// The first undeclared-extension error among statements, in order.
pub open spec fn list_extension_error(stmts: Seq<Seq<FormV>>, declared: Set<Seq<char>>) -> Option<ErrV>
    decreases stmts, 0nat,
{
    if stmts.len() == 0 {
        None
    } else {
        let first = extension_error(stmts[0], declared);
        if first is Some {
            first
        } else {
            list_extension_error(stmts.subrange(1, stmts.len() as int), declared)
        }
    }
}

// ---------------------------------------------------------------------------
// Clauses, comparators and regex patterns
// ---------------------------------------------------------------------------

/// The clauses of a statement from index `i`, the current clause starting
/// at `start`: each block closes the clause before it (which comes first),
/// followed by the clauses of the block's statements; the clauses of the
/// tests of a test list come where the list stands; the trailing forms
/// make the last clause.
pub open spec fn clauses_from(stmt: Seq<FormV>, i: int, start: int) -> Seq<Seq<FormV>>
    decreases stmt, stmt.len() - i,
{
    if i < 0 || i >= stmt.len() || start < 0 || start > i {
        seq![stmt.subrange(start, stmt.len() as int)]
    } else {
        match stmt[i] {
            FormV::Block(b) => seq![stmt.subrange(start, i)] + list_clauses(b) + clauses_from(stmt, i + 1, i + 1),
            FormV::TestList(ts) => list_clauses(ts) + clauses_from(stmt, i + 1, start),
            _ => clauses_from(stmt, i + 1, start),
        }
    }
}

/// The clauses of statements, in order.
pub open spec fn list_clauses(stmts: Seq<Seq<FormV>>) -> Seq<Seq<FormV>>
    decreases stmts, 0int,
{
    if stmts.len() == 0 {
        Seq::empty()
    } else {
        clauses_from(stmts[0], 0, 0) + list_clauses(stmts.subrange(1, stmts.len() as int))
    }
}

pub open spec fn is_known_comparator(name: Seq<char>) -> bool {
    name == "i;ascii-casemap"@ || name == "i;octet"@
}

/// Scanning a clause from `i`: the first bad `:comparator` (unknown name,
/// or not followed by a string), else whether a `:regex` tag occurs.
pub open spec fn comparator_scan(c: Seq<FormV>, i: int, has_regex: bool) -> Result<bool, ErrV>
    decreases c.len() - i,
{
    if i < 0 || i >= c.len() {
        Ok(has_regex)
    } else if c[i] == FormV::Tag("comparator"@) {
        if i + 1 < c.len() && c[i + 1] is Str {
            let name = c[i + 1]->Str_0;
            if is_known_comparator(name) {
                comparator_scan(c, i + 2, has_regex)
            } else {
                Err(("unsupported comparator: "@ + name, KindV::UnsupportedComparator(name)))
            }
        } else {
            Err((":comparator tag must be followed by a comparator name string"@, KindV::Parse))
        }
    } else if c[i] == FormV::Tag("regex"@) {
        comparator_scan(c, i + 1, true)
    } else {
        comparator_scan(c, i + 1, has_regex)
    }
}

/// The index of the last `Str` or `StringList` form (the key list).
pub open spec fn last_string_pos(c: Seq<FormV>) -> Option<int>
    decreases c.len(),
{
    if c.len() == 0 {
        None
    } else if c.last() is Str || c.last() is StringList {
        Some(c.len() - 1)
    } else {
        last_string_pos(c.drop_last())
    }
}

/// The error for a `:regex` pattern that does not compile.
pub open spec fn regex_pattern_error(p: Seq<char>) -> Option<ErrV> {
    match regex_compile_error(regex_base_key_of(p)) {
        Some(e) => Some(("invalid regex pattern "@ + debug_quoted(p) + ": "@ + e, KindV::InvalidRegex(p))),
        None => None,
    }
}

/// The first pattern of the list that does not compile.
pub open spec fn patterns_error(ps: Seq<Seq<char>>) -> Option<ErrV>
    decreases ps.len(),
{
    if ps.len() == 0 {
        None
    } else if regex_pattern_error(ps[0]) is Some {
        regex_pattern_error(ps[0])
    } else {
        patterns_error(ps.subrange(1, ps.len() as int))
    }
}

/// The patterns of a clause: the strings of its key list.
pub open spec fn clause_patterns(c: Seq<FormV>) -> Seq<Seq<char>> {
    match last_string_pos(c) {
        Some(pos) => match c[pos] {
            FormV::Str(p) => seq![p],
            FormV::StringList(ps) => ps,
            _ => Seq::empty(),
        },
        None => Seq::empty(),
    }
}

/// The error of one clause: a bad comparator, else (when the clause uses
/// `:regex`) the first pattern that does not compile.
pub open spec fn clause_error(c: Seq<FormV>) -> Option<ErrV> {
    match comparator_scan(c, 0, false) {
        Err(e) => Some(e),
        Ok(has_regex) => if has_regex {
            patterns_error(clause_patterns(c))
        } else {
            None
        },
    }
}

/// The first clause error.
pub open spec fn clauses_error(cs: Seq<Seq<FormV>>) -> Option<ErrV>
    decreases cs.len(),
{
    if cs.len() == 0 {
        None
    } else if clause_error(cs[0]) is Some {
        clause_error(cs[0])
    } else {
        clauses_error(cs.subrange(1, cs.len() as int))
    }
}

// ---------------------------------------------------------------------------
// Implementation
// ---------------------------------------------------------------------------

fn lit_error(message: &str, kind: SieveErrorKind) -> (e: SieveError)
    ensures
        e.source is None,
        e.message@ == message@,
        e.kind == kind,
{
    SieveError::new(message.to_owned(), kind)
}

/// The extensions named by the top-level `require` statements, or an
/// error for the first one that is not supported.
pub fn check_requires(script: &[Stmt]) -> (r: Result<Vec<Vec<char>>, SieveError>)
    ensures
        sourceless(r),
        match r {
            Ok(names) => first_unknown(required_names(stmts_view(script@))) is None
                && crate::message::seqs_view(names@) == required_names(stmts_view(script@)),
            Err(e) => first_unknown(required_names(stmts_view(script@))) matches Some(s)
                && error_view(e) == unsupported_extension_error(s),
        },
{
    proof {
        lemma_stmts_view(script@);
    }
    let ghost sv = stmts_view(script@);
    let mut k: usize = 0;
    let mut all: Vec<Vec<char>> = Vec::new();
    assert(sv.subrange(0, 0) =~= Seq::<Seq<FormV>>::empty());
    assert(crate::message::seqs_view(all@) =~= Seq::<Seq<char>>::empty());
    while k < script.len()
        invariant
            k <= script@.len(),
            crate::message::seqs_view(all@) == required_names(sv.subrange(0, k as int)),
            sv == stmts_view(script@),
            sv.len() == script@.len(),
            forall|q: int| 0 <= q < script@.len() ==> #[trigger] sv[q] == stmt_view(script@[q]@),
            first_unknown(required_names(sv.subrange(0, k as int))) is None,
        decreases script@.len() - k,
    {
        let ghost prefix = sv.subrange(0, k as int);
        let st = &script[k];
        let ghost stv = sv[k as int];
        proof {
            assert(sv.subrange(0, k + 1).drop_last() =~= prefix);
            assert(sv.subrange(0, k + 1).last() == stv);
            lemma_stmt_view(st@);
        }
        if st.len() > 0 && is_word_lit(&st[0], "require") {
            let rest = vstd::slice::slice_subrange(st.as_slice(), 1, st.len());
            proof {
                lemma_stmt_view_subrange(st@, 1, st@.len() as int);
            }
            let names = crate::evaluator::collect_strings(rest);
            let ghost ns = crate::message::seqs_view(names@);
            proof {
                assert(stv == stmt_view(st@));
                assert(rest@ == st@.subrange(1, st@.len() as int));
                assert(required_names(sv.subrange(0, k + 1)) == required_names(prefix) + ns);
            }
            let mut j: usize = 0;
            while j < names.len()
                invariant
                    j <= names@.len(),
                    ns == crate::message::seqs_view(names@),
                    ns.len() == names@.len(),
                    forall|q: int| 0 <= q < j ==> is_known_extension(#[trigger] ns[q]),
                    k < sv.len(),
                    sv == stmts_view(script@),
                    first_unknown(required_names(prefix)) is None,
                    required_names(sv.subrange(0, k + 1)) == required_names(prefix) + ns,
                decreases names@.len() - j,
            {
                if !known_extension(names[j].as_slice()) {
                    proof {
                        lemma_first_unknown_append(required_names(prefix), ns, j as int);
                        lemma_first_unknown_prefix(
                            required_names(sv.subrange(0, k + 1)),
                            sv,
                            k as int,
                        );
                    }
                    let s = crate::text::string_of(names[j].as_slice());
                    assert(s@ == ns[j as int]);
                    assert(first_unknown(required_names(sv)) == Some(ns[j as int]));
                    let msg = "unsupported Sieve extension: ".to_owned().concat(s.as_str());
                    let err = SieveError::new(msg, SieveErrorKind::UnsupportedExtension(s));
                    return Err(err);
                }
                j += 1;
            }
            proof {
                lemma_first_unknown_append(required_names(prefix), ns, ns.len() as int);
            }
            let ghost before = all@;
            let mut names = names;
            all.append(&mut names);
            proof {
                assert(crate::message::seqs_view(all@) =~= crate::message::seqs_view(before) + ns);
            }
        } else {
            proof {
                assert(required_names(sv.subrange(0, k + 1)) =~= required_names(prefix) + Seq::<Seq<char>>::empty());
            }
        }
        k += 1;
    }
    assert(sv.subrange(0, script@.len() as int) =~= sv);
    Ok(all)
}

proof fn lemma_first_unknown_append(a: Seq<Seq<char>>, b: Seq<Seq<char>>, j: int)
    requires
        first_unknown(a) is None,
        0 <= j <= b.len(),
        forall|q: int| 0 <= q < j ==> is_known_extension(#[trigger] b[q]),
    ensures
        j < b.len() && !is_known_extension(b[j]) ==> first_unknown(a + b) == Some(b[j]),
        j == b.len() ==> first_unknown(a + b) is None,
    decreases a.len(),
{
    if a.len() > 0 {
        assert((a + b).subrange(1, (a + b).len() as int) =~= a.subrange(1, a.len() as int) + b);
        lemma_first_unknown_append(a.subrange(1, a.len() as int), b, j);
    } else {
        assert(a + b =~= b);
        lemma_first_unknown_known_prefix(b, j);
    }
}

proof fn lemma_first_unknown_known_prefix(b: Seq<Seq<char>>, j: int)
    requires
        0 <= j <= b.len(),
        forall|q: int| 0 <= q < j ==> is_known_extension(#[trigger] b[q]),
    ensures
        j < b.len() && !is_known_extension(b[j]) ==> first_unknown(b) == Some(b[j]),
        j == b.len() ==> first_unknown(b) is None,
    decreases j,
{
    if j > 0 {
        let t = b.subrange(1, b.len() as int);
        assert forall|q: int| 0 <= q < j - 1 implies is_known_extension(#[trigger] t[q]) by {
            assert(t[q] == b[q + 1]);
        }
        lemma_first_unknown_known_prefix(t, j - 1);
        assert(is_known_extension(b[0]));
        if j < b.len() {
            assert(t[j - 1] == b[j]);
        }
    } else if b.len() > 0 {
    }
}

/// A found unknown name in the required names of a prefix is the first one
/// for the whole script.
proof fn lemma_first_unknown_prefix(pre: Seq<Seq<char>>, sv: Seq<Seq<FormV>>, k: int)
    requires
        0 <= k < sv.len(),
        pre == required_names(sv.subrange(0, k + 1)),
        first_unknown(pre) is Some,
    ensures
        first_unknown(required_names(sv)) == first_unknown(pre),
    decreases sv.len() - k,
{
    if k + 1 < sv.len() {
        let p2 = required_names(sv.subrange(0, k + 2));
        assert(sv.subrange(0, k + 2).drop_last() =~= sv.subrange(0, k + 1));
        lemma_first_unknown_concat(pre, p2.subrange(pre.len() as int, p2.len() as int));
        assert(pre + p2.subrange(pre.len() as int, p2.len() as int) =~= p2);
        lemma_first_unknown_prefix(p2, sv, k + 1);
    } else {
        assert(sv.subrange(0, k + 1) =~= sv);
    }
}

proof fn lemma_first_unknown_concat(a: Seq<Seq<char>>, b: Seq<Seq<char>>)
    requires
        first_unknown(a) is Some,
    ensures
        first_unknown(a + b) == first_unknown(a),
    decreases a.len(),
{
    if is_known_extension(a[0]) {
        assert((a + b).subrange(1, (a + b).len() as int) =~= a.subrange(1, a.len() as int) + b);
        lemma_first_unknown_concat(a.subrange(1, a.len() as int), b);
    }
}

fn is_word_lit(f: &Form, lit: &str) -> (r: bool)
    ensures
        r == (form_view(*f) == FormV::Word(lit@)),
{
    match f {
        Form::Word(w) => str_eq(w.as_str(), lit),
        _ => false,
    }
}

fn known_extension(s: &[char]) -> (r: bool)
    ensures
        r == is_known_extension(s@),
{
    let st = crate::text::string_of(s);
    str_eq(st.as_str(), "fileinto") || str_eq(st.as_str(), "reject") || str_eq(st.as_str(), "envelope")
        || str_eq(st.as_str(), "variables") || str_eq(st.as_str(), "regex")
}


// ---------------------------------------------------------------------------
// Extension use, executable
// ---------------------------------------------------------------------------

/// The error of a check, if it failed.
pub open spec fn check_error(r: Result<(), SieveError>) -> Option<ErrV> {
    match r {
        Ok(_) => None,
        Err(e) => Some(error_view(e)),
    }
}

/// An error, if any, carries no underlying parse error.
pub open spec fn sourceless<T>(r: Result<T, SieveError>) -> bool {
    r matches Err(e) ==> e.source is None
}

/// The declared extension names, as a set.
pub open spec fn declared_set(declared: Seq<Vec<char>>) -> Set<Seq<char>> {
    crate::message::seqs_view(declared).to_set()
}

/// Whether `name` is among the declared extensions.
pub fn declares(declared: &Vec<Vec<char>>, name: &str) -> (r: bool)
    ensures
        r == declared_set(declared@).contains(name@),
{
    let n = crate::text::chars_of(name);
    let ghost dv = crate::message::seqs_view(declared@);
    let mut i: usize = 0;
    while i < declared.len()
        invariant
            i <= declared@.len(),
            n@ == name@,
            dv == crate::message::seqs_view(declared@),
            forall|q: int| 0 <= q < i ==> #[trigger] dv[q] != name@,
        decreases declared@.len() - i,
    {
        if crate::text::chars_eq(declared[i].as_slice(), n.as_slice()) {
            assert(dv[i as int] == name@);
            return true;
        }
        i += 1;
    }
    false
}

fn missing_command(w: &str, ext: &str) -> (e: SieveError)
    ensures
        e.source is None,
        error_view(e) == missing_command_error(w@, ext@),
{
    let msg = "extension command \"".to_owned().concat(w).concat("\" used without require declaration");
    SieveError::new(msg, SieveErrorKind::MissingRequire(ext.to_owned()))
}

fn missing_test(w: &str) -> (e: SieveError)
    ensures
        e.source is None,
        error_view(e) == missing_test_error(w@),
{
    let msg = "extension test \"".to_owned().concat(w).concat("\" used without require declaration");
    SieveError::new(msg, SieveErrorKind::MissingRequire(w.to_owned()))
}

fn missing_tag(t: &str) -> (e: SieveError)
    ensures
        e.source is None,
        error_view(e) == missing_tag_error(t@),
{
    let msg = "extension match type \":".to_owned().concat(t).concat("\" used without require declaration");
    SieveError::new(msg, SieveErrorKind::MissingRequire(t.to_owned()))
}

/// An undeclared `envelope` word in the test of any clause of an `if` chain.
fn check_test_words(forms: &[Form], declared: &Vec<Vec<char>>) -> (r: Result<(), SieveError>)
    ensures
        sourceless(r),
        check_error(r) == undeclared_envelope_word(stmt_view(forms@), declared_set(declared@)),
{
    proof {
        lemma_stmt_view(forms@);
    }
    let ghost v = stmt_view(forms@);
    let ghost d = declared_set(declared@);
    let mut i: usize = 0;
    assert(v.subrange(0, v.len() as int) =~= v);
    while i < forms.len()
        invariant
            i <= forms@.len(),
            v == stmt_view(forms@),
            v.len() == forms@.len(),
            forall|q: int| 0 <= q < forms@.len() ==> #[trigger] v[q] == form_view(forms@[q]),
            d == declared_set(declared@),
            undeclared_envelope_word(v, d) == undeclared_envelope_word(v.subrange(i as int, v.len() as int), d),
        decreases forms@.len() - i,
    {
        let ghost t = v.subrange(i as int, v.len() as int);
        assert(t[0] == v[i as int]);
        assert(t.subrange(1, t.len() as int) =~= v.subrange(i + 1, v.len() as int));
        match &forms[i] {
            Form::Block(_) => {
                if i + 1 < forms.len() && is_word_lit(&forms[i + 1], "elsif") {
                    assert(t[1] == v[i + 1]);
                    assert(t.subrange(2, t.len() as int) =~= v.subrange(i + 2, v.len() as int));
                    i = i + 2;
                    continue;
                }
                if i + 1 < forms.len() {
                    assert(t[1] == v[i + 1]);
                }
                return Ok(());
            },
            Form::Word(w) => {
                if str_eq(w.as_str(), "envelope") && !declares(declared, "envelope") {
                    return Err(missing_test(w.as_str()));
                }
            },
            _ => {},
        }
        i += 1;
    }
    Ok(())
}

/// Checks that the extensions a statement uses (commands, tests, the
/// `:regex` match type, in blocks and test lists too) were declared.
pub fn check_extension_use(stmt: &[Form], declared: &Vec<Vec<char>>) -> (r: Result<(), SieveError>)
    ensures
        sourceless(r),
        check_error(r) == extension_error(stmt_view(stmt@), declared_set(declared@)),
    decreases stmt_view(stmt@), 1nat,
{
    proof {
        lemma_stmt_view(stmt@);
    }
    let n = stmt.len();
    if n > 0 {
        match &stmt[0] {
            Form::Word(w) => {
                let ext: Option<&str> = if str_eq(w.as_str(), "fileinto") {
                    Some("fileinto")
                } else if str_eq(w.as_str(), "reject") {
                    Some("reject")
                } else if str_eq(w.as_str(), "set") {
                    Some("variables")
                } else {
                    None
                };
                match ext {
                    Some(e) => {
                        if !declares(declared, e) {
                            return Err(missing_command(w.as_str(), e));
                        }
                    },
                    None => {},
                }
                if str_eq(w.as_str(), "envelope") && !declares(declared, "envelope") {
                    return Err(missing_test(w.as_str()));
                }
                if str_eq(w.as_str(), "if") || str_eq(w.as_str(), "elsif") {
                    let rest = vstd::slice::slice_subrange(stmt, 1, n);
                    proof {
                        lemma_stmt_view_subrange(stmt@, 1, n as int);
                    }
                    let h = check_test_words(rest, declared);
                    if h.is_err() {
                        return h;
                    }
                }
            },
            _ => {},
        }
    }
    check_forms_extensions(stmt, declared)
}

fn check_forms_extensions(forms: &[Form], declared: &Vec<Vec<char>>) -> (r: Result<(), SieveError>)
    ensures
        sourceless(r),
        check_error(r) == forms_extension_error(stmt_view(forms@), declared_set(declared@)),
    decreases stmt_view(forms@), 0nat,
{
    proof {
        lemma_stmt_view(forms@);
    }
    let ghost v = stmt_view(forms@);
    let ghost d = declared_set(declared@);
    let mut i: usize = 0;
    assert(v.subrange(0, v.len() as int) =~= v);
    while i < forms.len()
        invariant
            i <= forms@.len(),
            v == stmt_view(forms@),
            v.len() == forms@.len(),
            forall|q: int| 0 <= q < forms@.len() ==> #[trigger] v[q] == form_view(forms@[q]),
            d == declared_set(declared@),
            forms_extension_error(v, d) == forms_extension_error(v.subrange(i as int, v.len() as int), d),
        decreases forms@.len() - i,
    {
        let ghost t = v.subrange(i as int, v.len() as int);
        assert(t[0] == v[i as int]);
        assert(t.subrange(1, t.len() as int) =~= v.subrange(i + 1, v.len() as int));
        match &forms[i] {
            Form::Tag(t) => {
                if str_eq(t.as_str(), "regex") && !declares(declared, "regex") {
                    return Err(missing_tag(t.as_str()));
                }
            },
            Form::Block(b) => {
                proof {
                    assert(decreases_to!(v => v[i as int]));
                    assert(v[i as int]->Block_0 == stmts_view(b@));
                }
                let h = check_list_extensions(b.as_slice(), declared);
                if h.is_err() {
                    return h;
                }
            },
            Form::TestList(ts) => {
                proof {
                    assert(decreases_to!(v => v[i as int]));
                    assert(v[i as int]->TestList_0 == stmts_view(ts@));
                }
                let h = check_list_extensions(ts.as_slice(), declared);
                if h.is_err() {
                    return h;
                }
            },
            _ => {},
        }
        i += 1;
    }
    Ok(())
}

pub fn check_list_extensions(stmts: &[Stmt], declared: &Vec<Vec<char>>) -> (r: Result<(), SieveError>)
    ensures
        sourceless(r),
        check_error(r) == list_extension_error(stmts_view(stmts@), declared_set(declared@)),
    decreases stmts_view(stmts@), 0nat,
{
    proof {
        lemma_stmts_view(stmts@);
    }
    let ghost sv = stmts_view(stmts@);
    let ghost d = declared_set(declared@);
    let mut k: usize = 0;
    assert(sv.subrange(0, sv.len() as int) =~= sv);
    while k < stmts.len()
        invariant
            k <= stmts@.len(),
            sv == stmts_view(stmts@),
            sv.len() == stmts@.len(),
            forall|q: int| 0 <= q < stmts@.len() ==> #[trigger] sv[q] == stmt_view(stmts@[q]@),
            d == declared_set(declared@),
            list_extension_error(sv, d) == list_extension_error(sv.subrange(k as int, sv.len() as int), d),
        decreases stmts@.len() - k,
    {
        let ghost t = sv.subrange(k as int, sv.len() as int);
        assert(t[0] == sv[k as int]);
        assert(t.subrange(1, t.len() as int) =~= sv.subrange(k + 1, sv.len() as int));
        proof {
            assert(decreases_to!(sv => sv[k as int]));
        }
        let h = check_extension_use(stmts[k].as_slice(), declared);
        if h.is_err() {
            return h;
        }
        k += 1;
    }
    Ok(())
}

// ---------------------------------------------------------------------------
// Clauses, executable
// ---------------------------------------------------------------------------

/// The values of a list of clauses.
pub open spec fn clauses_view(cs: Seq<&[Form]>) -> Seq<Seq<FormV>> {
    cs.map_values(|c: &[Form]| stmt_view(c@))
}

proof fn lemma_clauses_view_push(cs: Seq<&[Form]>, c: &[Form])
    ensures
        clauses_view(cs.push(c)) == clauses_view(cs) + seq![stmt_view(c@)],
{
    assert(clauses_view(cs.push(c)) =~= clauses_view(cs) + seq![stmt_view(c@)]);
}

/// Appends the clauses of a statement (see [`clauses_from`]): the forms
/// between block boundaries, with the clauses of nested blocks and test
/// lists where they stand.
pub fn collect_clauses<'a>(stmt: &'a [Form], out: &mut Vec<&'a [Form]>)
    ensures
        clauses_view(final(out)@) == clauses_view(old(out)@) + clauses_from(stmt_view(stmt@), 0, 0),
    decreases stmt_view(stmt@),
{
    proof {
        lemma_stmt_view(stmt@);
    }
    let ghost v = stmt_view(stmt@);
    let ghost o0 = clauses_view(out@);
    let mut start: usize = 0;
    let mut i: usize = 0;
    assert(o0 + clauses_from(v, 0, 0) =~= clauses_view(out@) + clauses_from(v, 0, 0));
    while i < stmt.len()
        invariant
            start <= i <= stmt@.len(),
            v == stmt_view(stmt@),
            v.len() == stmt@.len(),
            forall|q: int| 0 <= q < stmt@.len() ==> #[trigger] v[q] == form_view(stmt@[q]),
            o0 + clauses_from(v, 0, 0) == clauses_view(out@) + clauses_from(v, i as int, start as int),
        decreases stmt@.len() - i,
    {
        let ghost before = clauses_view(out@);
        match &stmt[i] {
            Form::Block(b) => {
                let c = vstd::slice::slice_subrange(stmt, start, i);
                proof {
                    lemma_stmt_view_subrange(stmt@, start as int, i as int);
                    lemma_clauses_view_push(out@, c);
                }
                out.push(c);
                let ghost mid = clauses_view(out@);
                proof {
                    assert(decreases_to!(v => v[i as int]));
                    assert(v[i as int]->Block_0 == stmts_view(b@));
                }
                collect_list_clauses(b.as_slice(), out);
                proof {
                    let bl = list_clauses(stmts_view(b@));
                    let rest = clauses_from(v, i + 1, i + 1);
                    assert(clauses_from(v, i as int, start as int) == seq![v.subrange(start as int, i as int)] + bl + rest);
                    assert(before + (seq![v.subrange(start as int, i as int)] + bl + rest) =~= clauses_view(out@) + rest);
                }
                start = i + 1;
            },
            Form::TestList(ts) => {
                proof {
                    assert(decreases_to!(v => v[i as int]));
                    assert(v[i as int]->TestList_0 == stmts_view(ts@));
                }
                collect_list_clauses(ts.as_slice(), out);
                proof {
                    let tl = list_clauses(stmts_view(ts@));
                    let rest = clauses_from(v, i + 1, start as int);
                    assert(clauses_from(v, i as int, start as int) == tl + rest);
                    assert(before + (tl + rest) =~= clauses_view(out@) + rest);
                }
            },
            _ => {},
        }
        i += 1;
    }
    let c = vstd::slice::slice_subrange(stmt, start, stmt.len());
    proof {
        lemma_stmt_view_subrange(stmt@, start as int, stmt@.len() as int);
        lemma_clauses_view_push(out@, c);
    }
    out.push(c);
}

/// Appends the clauses of each statement, in order.
pub fn collect_list_clauses<'a>(stmts: &'a [Stmt], out: &mut Vec<&'a [Form]>)
    ensures
        clauses_view(final(out)@) == clauses_view(old(out)@) + list_clauses(stmts_view(stmts@)),
    decreases stmts_view(stmts@),
{
    proof {
        lemma_stmts_view(stmts@);
    }
    let ghost sv = stmts_view(stmts@);
    let ghost o0 = clauses_view(out@);
    let mut k: usize = 0;
    assert(sv.subrange(0, sv.len() as int) =~= sv);
    while k < stmts.len()
        invariant
            k <= stmts@.len(),
            sv == stmts_view(stmts@),
            sv.len() == stmts@.len(),
            forall|q: int| 0 <= q < stmts@.len() ==> #[trigger] sv[q] == stmt_view(stmts@[q]@),
            o0 + list_clauses(sv) == clauses_view(out@) + list_clauses(sv.subrange(k as int, sv.len() as int)),
        decreases stmts@.len() - k,
    {
        let ghost t = sv.subrange(k as int, sv.len() as int);
        let ghost before = clauses_view(out@);
        assert(t[0] == sv[k as int]);
        assert(t.subrange(1, t.len() as int) =~= sv.subrange(k + 1, sv.len() as int));
        proof {
            assert(decreases_to!(sv => sv[k as int]));
        }
        collect_clauses(stmts[k].as_slice(), out);
        proof {
            let rest = list_clauses(sv.subrange(k + 1, sv.len() as int));
            assert(list_clauses(t) == clauses_from(sv[k as int], 0, 0) + rest);
            assert(before + (clauses_from(sv[k as int], 0, 0) + rest) =~= clauses_view(out@) + rest);
        }
        k += 1;
    }
    assert(sv.subrange(stmts@.len() as int, sv.len() as int) =~= Seq::<Seq<FormV>>::empty());
    assert(clauses_view(out@) + Seq::<Seq<FormV>>::empty() =~= clauses_view(out@));
}

// ---------------------------------------------------------------------------
// Comparators and regex patterns, executable
// ---------------------------------------------------------------------------

/// Scans a clause for `:comparator` arguments and a `:regex` tag.
fn scan_comparators(c: &[Form]) -> (r: Result<bool, SieveError>)
    ensures
        sourceless(r),
        match r {
            Ok(b) => comparator_scan(stmt_view(c@), 0, false) == Ok::<bool, ErrV>(b),
            Err(e) => comparator_scan(stmt_view(c@), 0, false) == Err::<bool, ErrV>(error_view(e)),
        },
{
    proof {
        lemma_stmt_view(c@);
    }
    let ghost v = stmt_view(c@);
    let mut i: usize = 0;
    let mut has_regex = false;
    while i < c.len()
        invariant
            i <= c@.len(),
            v == stmt_view(c@),
            v.len() == c@.len(),
            forall|q: int| 0 <= q < c@.len() ==> #[trigger] v[q] == form_view(c@[q]),
            comparator_scan(v, 0, false) == comparator_scan(v, i as int, has_regex),
        decreases c@.len() - i,
    {
        match &c[i] {
            Form::Tag(t) => {
                if str_eq(t.as_str(), "comparator") {
                    if i + 1 < c.len() {
                        match &c[i + 1] {
                            Form::Str(name) => {
                                assert(v[i + 1] == FormV::Str(name@));
                                if str_eq(name.as_str(), "i;ascii-casemap") || str_eq(name.as_str(), "i;octet") {
                                    i = i + 2;
                                    continue;
                                }
                                let msg = "unsupported comparator: ".to_owned().concat(name.as_str());
                                return Err(SieveError::new(msg, SieveErrorKind::UnsupportedComparator(name.as_str().to_owned())));
                            },
                            _ => {},
                        }
                    }
                    return Err(lit_error(":comparator tag must be followed by a comparator name string", SieveErrorKind::Parse));
                } else if str_eq(t.as_str(), "regex") {
                    has_regex = true;
                }
            },
            _ => {},
        }
        i += 1;
    }
    Ok(has_regex)
}

/// The index of the last `Str` or `StringList` form.
fn last_string_index(c: &[Form]) -> (r: Option<usize>)
    ensures
        match r {
            Some(p) => last_string_pos(stmt_view(c@)) == Some(p as int),
            None => last_string_pos(stmt_view(c@)) is None,
        },
{
    proof {
        lemma_stmt_view(c@);
    }
    let ghost v = stmt_view(c@);
    let mut i: usize = c.len();
    assert(v.subrange(0, v.len() as int) =~= v);
    while i > 0
        invariant
            i <= c@.len(),
            v == stmt_view(c@),
            v.len() == c@.len(),
            forall|q: int| 0 <= q < c@.len() ==> #[trigger] v[q] == form_view(c@[q]),
            last_string_pos(v) == last_string_pos(v.subrange(0, i as int)),
        decreases i,
    {
        let ghost t = v.subrange(0, i as int);
        assert(t.last() == v[i - 1]);
        assert(t.drop_last() =~= v.subrange(0, i - 1));
        match &c[i - 1] {
            Form::Str(_) => {
                return Some(i - 1);
            },
            Form::StringList(_) => {
                return Some(i - 1);
            },
            _ => {},
        }
        i -= 1;
    }
    None
}

/// The error for a `:regex` pattern whose anchored form failed to compile
/// with the given reason.
pub fn invalid_regex_error(pattern: &str, reason: &str) -> (e: SieveError)
    ensures
        error_view(e) == (
            "invalid regex pattern "@ + debug_quoted(pattern@) + ": "@ + reason@,
            KindV::InvalidRegex(pattern@),
        ),
        e.source is None,
{
    let q = debug_str(pattern);
    let msg = "invalid regex pattern ".to_owned().concat(q.as_str()).concat(": ").concat(reason);
    SieveError::new(msg, SieveErrorKind::InvalidRegex(pattern.to_owned()))
}

/// Compiles a `:regex` pattern, anchored to the whole value.
fn check_regex_pattern(pattern: &str) -> (r: Result<(), SieveError>)
    ensures
        sourceless(r),
        check_error(r) == regex_pattern_error(pattern@),
{
    let anchored = regex_base_key(pattern);
    match compile_regex(anchored.as_str()) {
        Ok(_) => Ok(()),
        Err(reason) => Err(invalid_regex_error(pattern, reason.as_str())),
    }
}

/// Compiles every pattern of the clause's key list (the last string or
/// string list; earlier strings are header names, not patterns).
fn validate_regex_in_clause(c: &[Form]) -> (r: Result<(), SieveError>)
    ensures
        sourceless(r),
        check_error(r) == patterns_error(clause_patterns(stmt_view(c@))),
{
    proof {
        lemma_stmt_view(c@);
    }
    let ghost v = stmt_view(c@);
    match last_string_index(c) {
        None => Ok(()),
        Some(pos) => {
            proof {
                lemma_last_string_pos(v);
            }
            match &c[pos] {
                Form::Str(p) => {
                    let ghost ps = seq![p@];
                    assert(v[pos as int] == form_view(c@[pos as int]));
                    assert(clause_patterns(v) == ps);
                    assert(ps.subrange(1, 1) =~= Seq::<Seq<char>>::empty());
                    assert(patterns_error(ps.subrange(1, 1)) is None);
                    check_regex_pattern(p.as_str())
                },
                Form::StringList(list) => {
                    let ghost ps = strings_view(list@);
                    let mut j: usize = 0;
                    assert(v[pos as int] == form_view(c@[pos as int]));
                    assert(clause_patterns(v) == ps);
                    assert(ps.subrange(0, ps.len() as int) =~= ps);
                    while j < list.len()
                        invariant
                            j <= list@.len(),
                            v == stmt_view(c@),
                            ps == strings_view(list@),
                            ps.len() == list@.len(),
                            clause_patterns(v) == ps,
                            patterns_error(ps) == patterns_error(ps.subrange(j as int, ps.len() as int)),
                        decreases list@.len() - j,
                    {
                        let ghost t = ps.subrange(j as int, ps.len() as int);
                        assert(t[0] == ps[j as int]);
                        assert(t.subrange(1, t.len() as int) =~= ps.subrange(j + 1, ps.len() as int));
                        let h = check_regex_pattern(list[j].as_str());
                        if h.is_err() {
                            return h;
                        }
                        j += 1;
                    }
                    assert(ps.subrange(j as int, ps.len() as int) =~= Seq::<Seq<char>>::empty());
                    Ok(())
                },
                _ => Ok(()),
            }
        },
    }
}

pub proof fn lemma_last_string_pos(c: Seq<FormV>)
    ensures
        last_string_pos(c) matches Some(p) ==> 0 <= p < c.len() && (c[p] is Str || c[p] is StringList),
    decreases c.len(),
{
    if c.len() > 0 && !(c.last() is Str || c.last() is StringList) {
        lemma_last_string_pos(c.drop_last());
    }
}

/// The checks of one clause: comparator names, then (with `:regex`) the patterns.
fn validate_clause(c: &[Form]) -> (r: Result<(), SieveError>)
    ensures
        sourceless(r),
        check_error(r) == clause_error(stmt_view(c@)),
{
    match scan_comparators(c) {
        Err(e) => Err(e),
        Ok(has_regex) => {
            if has_regex {
                validate_regex_in_clause(c)
            } else {
                Ok(())
            }
        },
    }
}

/// Checks the clauses of one statement in order (see [`clauses_from`]).
fn validate_stmt(stmt: &[Form]) -> (r: Result<(), SieveError>)
    ensures
        sourceless(r),
        check_error(r) == clauses_error(clauses_from(stmt_view(stmt@), 0, 0)),
{
    let mut cs: Vec<&[Form]> = Vec::new();
    collect_clauses(stmt, &mut cs);
    let ghost cv = clauses_view(cs@);
    assert(cv =~= Seq::<Seq<FormV>>::empty() + clauses_from(stmt_view(stmt@), 0, 0));
    let mut k: usize = 0;
    assert(cv.subrange(0, cv.len() as int) =~= cv);
    while k < cs.len()
        invariant
            k <= cs@.len(),
            cv == clauses_view(cs@),
            cv.len() == cs@.len(),
            cv == clauses_from(stmt_view(stmt@), 0, 0),
            clauses_error(cv) == clauses_error(cv.subrange(k as int, cv.len() as int)),
        decreases cs@.len() - k,
    {
        let ghost t = cv.subrange(k as int, cv.len() as int);
        assert(t[0] == cv[k as int]);
        assert(cv[k as int] == stmt_view(cs@[k as int]@));
        assert(t.subrange(1, t.len() as int) =~= cv.subrange(k + 1, cv.len() as int));
        let h = validate_clause(cs[k]);
        if h.is_err() {
            return h;
        }
        k += 1;
    }
    Ok(())
}

proof fn lemma_clauses_error_concat(a: Seq<Seq<FormV>>, b: Seq<Seq<FormV>>)
    ensures
        clauses_error(a + b) == if clauses_error(a) is Some {
            clauses_error(a)
        } else {
            clauses_error(b)
        },
    decreases a.len(),
{
    if a.len() > 0 {
        assert((a + b)[0] == a[0]);
        assert((a + b).subrange(1, (a + b).len() as int) =~= a.subrange(1, a.len() as int) + b);
        lemma_clauses_error_concat(a.subrange(1, a.len() as int), b);
    } else {
        assert(a + b =~= b);
    }
}

/// Checks each statement of the script in order: comparator names
/// (RFC 5228 §2.7.2) and, in clauses with `:regex`, the patterns.
pub fn validate_script(script: &[Stmt]) -> (r: Result<(), SieveError>)
    ensures
        sourceless(r),
        check_error(r) == clauses_error(list_clauses(stmts_view(script@))),
{
    proof {
        lemma_stmts_view(script@);
    }
    let ghost sv = stmts_view(script@);
    let mut k: usize = 0;
    assert(sv.subrange(0, sv.len() as int) =~= sv);
    while k < script.len()
        invariant
            k <= script@.len(),
            sv == stmts_view(script@),
            sv.len() == script@.len(),
            forall|q: int| 0 <= q < script@.len() ==> #[trigger] sv[q] == stmt_view(script@[q]@),
            clauses_error(list_clauses(sv)) == clauses_error(list_clauses(sv.subrange(k as int, sv.len() as int))),
        decreases script@.len() - k,
    {
        let ghost t = sv.subrange(k as int, sv.len() as int);
        assert(t[0] == sv[k as int]);
        assert(t.subrange(1, t.len() as int) =~= sv.subrange(k + 1, sv.len() as int));
        proof {
            lemma_clauses_error_concat(clauses_from(sv[k as int], 0, 0), list_clauses(sv.subrange(k + 1, sv.len() as int)));
        }
        let h = validate_stmt(script[k].as_slice());
        if h.is_err() {
            return h;
        }
        k += 1;
    }
    assert(sv.subrange(script@.len() as int, sv.len() as int) =~= Seq::<Seq<FormV>>::empty());
    Ok(())
}

// ---------------------------------------------------------------------------
// The regex cache
// ---------------------------------------------------------------------------

/// Whether the clause holds the tag `t`.
pub open spec fn has_tag(c: Seq<FormV>, t: Seq<char>) -> bool {
    exists|i: int| 0 <= i < c.len() && c[i] == FormV::Tag(t)
}

/// Whether the patterns of a clause are regexes or Sieve globs.
#[derive(Clone, Copy, PartialEq, Eq, Debug)]
pub enum PatternKind {
    Regex,
    Glob,
}

/// The cache keys of one pattern (plain and case-insensitive), among them
/// those whose regex compiles.
pub open spec fn pattern_keys(p: Seq<char>, kind: PatternKind) -> Set<Seq<char>> {
    let base = match kind {
        PatternKind::Regex => regex_base_key_of(p),
        PatternKind::Glob => glob_base_key_of(p),
    };
    Set::new(|k: Seq<char>| (k == base || k == ci_key_of(base)) && regex_compile_error(cache_source(k)) is None)
}

/// The cache keys of a list of patterns.
pub open spec fn patterns_keys(ps: Seq<Seq<char>>, kind: PatternKind) -> Set<Seq<char>> {
    Set::new(|k: Seq<char>| exists|j: int| 0 <= j < ps.len() && #[trigger] pattern_keys(ps[j], kind).contains(k))
}

/// The kind of a clause's patterns: `:regex` wins over `:matches`.
pub open spec fn clause_kind(c: Seq<FormV>) -> Option<PatternKind> {
    if has_tag(c, "regex"@) {
        Some(PatternKind::Regex)
    } else if has_tag(c, "matches"@) {
        Some(PatternKind::Glob)
    } else {
        None
    }
}

/// The cache keys of one clause.
pub open spec fn clause_keys(c: Seq<FormV>) -> Set<Seq<char>> {
    match clause_kind(c) {
        Some(kind) => patterns_keys(clause_patterns(c), kind),
        None => Set::empty(),
    }
}

/// The cache keys of a list of clauses.
pub open spec fn cache_keys(cs: Seq<Seq<FormV>>) -> Set<Seq<char>> {
    Set::new(|k: Seq<char>| exists|i: int| 0 <= i < cs.len() && #[trigger] clause_keys(cs[i]).contains(k))
}

fn has_tag_exec(c: &[Form], t: &str) -> (r: bool)
    ensures
        r == has_tag(stmt_view(c@), t@),
{
    proof {
        lemma_stmt_view(c@);
    }
    let ghost v = stmt_view(c@);
    let mut i: usize = 0;
    while i < c.len()
        invariant
            i <= c@.len(),
            v == stmt_view(c@),
            forall|q: int| 0 <= q < c@.len() ==> #[trigger] v[q] == form_view(c@[q]),
            v.len() == c@.len(),
            forall|q: int| 0 <= q < i ==> v[q] != FormV::Tag(t@),
        decreases c@.len() - i,
    {
        match &c[i] {
            Form::Tag(x) => {
                if str_eq(x.as_str(), t) {
                    assert(v[i as int] == FormV::Tag(t@));
                    return true;
                }
            },
            _ => {},
        }
        i += 1;
    }
    false
}

/// Compiles the regex that `key` stands for and caches it under `key`;
/// a regex that does not compile is left out.
fn cache_key(cache: &mut RegexCache, key: String, source: &str)
    requires
        source@ == cache_source(key@),
    ensures
        final(cache).keys() == if regex_compile_error(source@) is None {
            old(cache).keys().insert(key@)
        } else {
            old(cache).keys()
        },
{
    match compile_regex(source) {
        Ok(re) => cache.insert(key, re),
        Err(_) => {},
    }
}

/// Caches a `:regex` pattern: its anchored form and the case-insensitive one.
fn cache_pattern(pattern: &str, cache: &mut RegexCache)
    ensures
        final(cache).keys() == old(cache).keys().union(pattern_keys(pattern@, PatternKind::Regex)),
{
    let base = regex_base_key(pattern);
    let ci = regex_ci_key(base.as_str());
    proof {
        lemma_regex_keys(pattern@);
    }
    let ghost k0 = cache.keys();
    cache_key(cache, regex_base_key(pattern), base.as_str());
    cache_key(cache, regex_ci_key(base.as_str()), ci.as_str());
    assert(cache.keys() =~= k0.union(pattern_keys(pattern@, PatternKind::Regex)));
}

/// Caches a `:matches` glob: its translated regex and the case-insensitive one.
fn cache_glob_pattern(pattern: &str, cache: &mut RegexCache)
    ensures
        final(cache).keys() == old(cache).keys().union(pattern_keys(pattern@, PatternKind::Glob)),
{
    let regex_str = sieve_glob_to_regex(pattern);
    let base_key = glob_base_key(pattern);
    let ci_str = regex_ci_key(regex_str.as_str());
    proof {
        crate::evaluator::lemma_glob_key(pattern@);
    }
    let ghost k0 = cache.keys();
    cache_key(cache, glob_base_key(pattern), regex_str.as_str());
    cache_key(cache, glob_ci_key(base_key.as_str()), ci_str.as_str());
    assert(cache.keys() =~= k0.union(pattern_keys(pattern@, PatternKind::Glob)));
}

/// Caches every pattern of the clause's key list.
fn cache_patterns_in_clause(c: &[Form], kind: PatternKind, cache: &mut RegexCache)
    ensures
        final(cache).keys() == old(cache).keys().union(patterns_keys(clause_patterns(stmt_view(c@)), kind)),
{
    proof {
        lemma_stmt_view(c@);
    }
    let ghost v = stmt_view(c@);
    let ghost k0 = cache.keys();
    match last_string_index(c) {
        None => {
            assert(patterns_keys(Seq::empty(), kind) =~= Set::<Seq<char>>::empty());
            assert(k0.union(Set::<Seq<char>>::empty()) =~= k0);
        },
        Some(pos) => {
            proof {
                lemma_last_string_pos(v);
            }
            assert(v[pos as int] == form_view(c@[pos as int]));
            match &c[pos] {
                Form::Str(p) => {
                    cache_one(p.as_str(), kind, cache);
                    assert(patterns_keys(seq![p@], kind) =~= pattern_keys(p@, kind)) by {
                        assert forall|k: Seq<char>| pattern_keys(p@, kind).contains(k) implies patterns_keys(seq![p@], kind).contains(k) by {
                            assert(seq![p@][0] == p@);
                        }
                    }
                },
                Form::StringList(list) => {
                    let ghost ps = strings_view(list@);
                    assert(clause_patterns(v) == ps);
                    let mut j: usize = 0;
                    assert(patterns_keys(ps.subrange(0, 0), kind) =~= Set::<Seq<char>>::empty());
                    assert(k0.union(Set::<Seq<char>>::empty()) =~= k0);
                    while j < list.len()
                        invariant
                            j <= list@.len(),
                            ps == strings_view(list@),
                            ps.len() == list@.len(),
                            cache.keys() == k0.union(patterns_keys(ps.subrange(0, j as int), kind)),
                        decreases list@.len() - j,
                    {
                        let ghost before = cache.keys();
                        cache_one(list[j].as_str(), kind, cache);
                        proof {
                            lemma_patterns_keys_push(ps, j as int, kind);
                            assert(cache.keys() =~= k0.union(patterns_keys(ps.subrange(0, j + 1), kind)));
                        }
                        j += 1;
                    }
                    assert(ps.subrange(0, ps.len() as int) =~= ps);
                },
                _ => {},
            }
        },
    }
}

proof fn lemma_patterns_keys_push(ps: Seq<Seq<char>>, j: int, kind: PatternKind)
    requires
        0 <= j < ps.len(),
    ensures
        patterns_keys(ps.subrange(0, j + 1), kind) == patterns_keys(ps.subrange(0, j), kind).union(pattern_keys(ps[j], kind)),
{
    let a = ps.subrange(0, j + 1);
    let b = ps.subrange(0, j);
    assert forall|k: Seq<char>| patterns_keys(a, kind).contains(k) <==> #[trigger] patterns_keys(b, kind).union(pattern_keys(ps[j], kind)).contains(k) by {
        if patterns_keys(a, kind).contains(k) {
            let q = choose|q: int| 0 <= q < a.len() && #[trigger] pattern_keys(a[q], kind).contains(k);
            if q < j {
                assert(b[q] == a[q]);
            }
        }
        if patterns_keys(b, kind).contains(k) {
            let q = choose|q: int| 0 <= q < b.len() && #[trigger] pattern_keys(b[q], kind).contains(k);
            assert(a[q] == b[q]);
        }
        if pattern_keys(ps[j], kind).contains(k) {
            assert(a[j] == ps[j]);
        }
    }
    assert(patterns_keys(a, kind) =~= patterns_keys(b, kind).union(pattern_keys(ps[j], kind)));
}

fn cache_one(p: &str, kind: PatternKind, cache: &mut RegexCache)
    ensures
        final(cache).keys() == old(cache).keys().union(pattern_keys(p@, kind)),
{
    match kind {
        PatternKind::Glob => cache_glob_pattern(p, cache),
        PatternKind::Regex => cache_pattern(p, cache),
    }
}

/// The keys of `:regex` patterns stand for themselves.
proof fn lemma_regex_keys(p: Seq<char>)
    ensures
        cache_source(regex_base_key_of(p)) == regex_base_key_of(p),
        cache_source(ci_key_of(regex_base_key_of(p))) == ci_key_of(regex_base_key_of(p)),
{
    crate::evaluator::lemma_anchored_starts(p);
    crate::evaluator::lemma_paren_key(regex_base_key_of(p));
    let ci = ci_key_of(regex_base_key_of(p));
    reveal_strlit("(?i)");
    assert(ci[0] == '(');
    assert(ci[4] == regex_base_key_of(p)[0]);
    crate::evaluator::lemma_paren_key(ci);
}

/// Caches the patterns of one clause: as regexes in a `:regex` clause, as
/// globs in a `:matches` clause.
fn cache_clause(c: &[Form], cache: &mut RegexCache)
    ensures
        final(cache).keys() == old(cache).keys().union(clause_keys(stmt_view(c@))),
{
    let ghost k0 = cache.keys();
    if has_tag_exec(c, "regex") {
        cache_patterns_in_clause(c, PatternKind::Regex, cache);
    } else if has_tag_exec(c, "matches") {
        cache_patterns_in_clause(c, PatternKind::Glob, cache);
    } else {
        assert(k0.union(Set::<Seq<char>>::empty()) =~= k0);
    }
}

/// Caches the patterns of every clause of one statement.
fn collect_regex_patterns(stmt: &[Form], cache: &mut RegexCache)
    ensures
        final(cache).keys() == old(cache).keys().union(cache_keys(clauses_from(stmt_view(stmt@), 0, 0))),
{
    let mut cs: Vec<&[Form]> = Vec::new();
    collect_clauses(stmt, &mut cs);
    let ghost cv = clauses_view(cs@);
    let ghost k0 = cache.keys();
    assert(cv =~= Seq::<Seq<FormV>>::empty() + clauses_from(stmt_view(stmt@), 0, 0));
    let mut k: usize = 0;
    assert(cache_keys(cv.subrange(0, 0)) =~= Set::<Seq<char>>::empty());
    assert(k0.union(Set::<Seq<char>>::empty()) =~= k0);
    while k < cs.len()
        invariant
            k <= cs@.len(),
            cv == clauses_view(cs@),
            cv.len() == cs@.len(),
            cache.keys() == k0.union(cache_keys(cv.subrange(0, k as int))),
        decreases cs@.len() - k,
    {
        assert(cv[k as int] == stmt_view(cs@[k as int]@));
        cache_clause(cs[k], cache);
        proof {
            lemma_cache_keys_push(cv, k as int);
            assert(cache.keys() =~= k0.union(cache_keys(cv.subrange(0, k + 1))));
        }
        k += 1;
    }
    assert(cv.subrange(0, cv.len() as int) =~= cv);
}

proof fn lemma_cache_keys_concat(a: Seq<Seq<FormV>>, b: Seq<Seq<FormV>>)
    ensures
        cache_keys(a + b) == cache_keys(a).union(cache_keys(b)),
{
    let ab = a + b;
    assert forall|key: Seq<char>| cache_keys(ab).contains(key) <==> #[trigger] cache_keys(a).union(cache_keys(b)).contains(key) by {
        if cache_keys(ab).contains(key) {
            let q = choose|q: int| 0 <= q < ab.len() && #[trigger] clause_keys(ab[q]).contains(key);
            if q < a.len() {
                assert(ab[q] == a[q]);
            } else {
                assert(ab[q] == b[q - a.len()]);
            }
        }
        if cache_keys(a).contains(key) {
            let q = choose|q: int| 0 <= q < a.len() && #[trigger] clause_keys(a[q]).contains(key);
            assert(ab[q] == a[q]);
        }
        if cache_keys(b).contains(key) {
            let q = choose|q: int| 0 <= q < b.len() && #[trigger] clause_keys(b[q]).contains(key);
            assert(ab[q + a.len()] == b[q]);
        }
    }
    assert(cache_keys(ab) =~= cache_keys(a).union(cache_keys(b)));
}

/// The regexes of every `:regex` and `:matches` clause of the script,
/// compiled once.
pub fn build_regex_cache(script: &[Stmt]) -> (c: RegexCache)
    ensures
        c.keys() == cache_keys(list_clauses(stmts_view(script@))),
{
    proof {
        lemma_stmts_view(script@);
    }
    let ghost sv = stmts_view(script@);
    let mut cache = RegexCache::new();
    let mut k: usize = 0;
    assert(sv.subrange(0, sv.len() as int) =~= sv);
    assert(cache.keys().union(cache_keys(list_clauses(sv))) =~= cache_keys(list_clauses(sv)));
    while k < script.len()
        invariant
            k <= script@.len(),
            sv == stmts_view(script@),
            sv.len() == script@.len(),
            forall|q: int| 0 <= q < script@.len() ==> #[trigger] sv[q] == stmt_view(script@[q]@),
            cache_keys(list_clauses(sv)) == cache.keys().union(cache_keys(list_clauses(sv.subrange(k as int, sv.len() as int)))),
        decreases script@.len() - k,
    {
        let ghost t = sv.subrange(k as int, sv.len() as int);
        let ghost before = cache.keys();
        assert(t[0] == sv[k as int]);
        assert(t.subrange(1, t.len() as int) =~= sv.subrange(k + 1, sv.len() as int));
        let ghost head = clauses_from(sv[k as int], 0, 0);
        let ghost tail = list_clauses(sv.subrange(k + 1, sv.len() as int));
        proof {
            lemma_cache_keys_concat(head, tail);
        }
        collect_regex_patterns(script[k].as_slice(), &mut cache);
        assert(before.union(cache_keys(head).union(cache_keys(tail))) =~= cache.keys().union(cache_keys(tail)));
        k += 1;
    }
    assert(sv.subrange(script@.len() as int, sv.len() as int) =~= Seq::<Seq<FormV>>::empty());
    assert(cache_keys(Seq::<Seq<FormV>>::empty()) =~= Set::<Seq<char>>::empty());
    assert(cache.keys().union(Set::<Seq<char>>::empty()) =~= cache.keys());
    cache
}

proof fn lemma_cache_keys_push(cs: Seq<Seq<FormV>>, k: int)
    requires
        0 <= k < cs.len(),
    ensures
        cache_keys(cs.subrange(0, k + 1)) == cache_keys(cs.subrange(0, k)).union(clause_keys(cs[k])),
{
    let a = cs.subrange(0, k + 1);
    let b = cs.subrange(0, k);
    assert forall|key: Seq<char>| cache_keys(a).contains(key) <==> #[trigger] cache_keys(b).union(clause_keys(cs[k])).contains(key) by {
        if cache_keys(a).contains(key) {
            let q = choose|q: int| 0 <= q < a.len() && #[trigger] clause_keys(a[q]).contains(key);
            if q < k {
                assert(b[q] == a[q]);
            }
        }
        if cache_keys(b).contains(key) {
            let q = choose|q: int| 0 <= q < b.len() && #[trigger] clause_keys(b[q]).contains(key);
            assert(a[q] == b[q]);
        }
        if clause_keys(cs[k]).contains(key) {
            assert(a[k] == cs[k]);
        }
    }
    assert(cache_keys(a) =~= cache_keys(b).union(clause_keys(cs[k])));
}

} // verus!
