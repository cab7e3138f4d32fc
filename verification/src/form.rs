//! The form layer: a uniform, Lisp-like representation of Sieve scripts.
//!
//! Every statement is a flat list of forms; nesting is expressed only
//! through `Block` (`{ ... }`) and `TestList` (`( ..., ... )`).  A statement
//! ends at `;`, or after a block that is not followed by `elsif`/`else`.
//! Blocks and test lists may nest at most [`MAX_DEPTH`] deep.

use vstd::prelude::*;
use crate::lexer::{Token, TokenV, tokens_view};
use crate::parse_error::ParseError;

verus! {

/// One element of a statement.
#[derive(Debug, PartialEq, Eq)]
pub enum Form {
    /// Identifier keyword.
    Word(String),
    /// Tagged argument (colon stripped).
    Tag(String),
    /// String literal.
    Str(String),
    /// Numeric literal.
    Num(u64),
    /// `["a", "b"]`
    StringList(Vec<String>),
    /// `(test1, test2)`
    TestList(Vec<Stmt>),
    /// `{ stmt; stmt; }`
    Block(Vec<Stmt>),
}

/// A statement: a flat sequence of forms.
pub type Stmt = Vec<Form>;

/// A script: a sequence of statements.
pub type Script = Vec<Stmt>;

/// The mathematical value of a [`Form`].
pub enum FormV {
    Word(Seq<char>),
    Tag(Seq<char>),
    Str(Seq<char>),
    Num(u64),
    StringList(Seq<Seq<char>>),
    TestList(Seq<Seq<FormV>>),
    Block(Seq<Seq<FormV>>),
}

pub open spec fn strings_view(v: Seq<String>) -> Seq<Seq<char>> {
    v.map_values(|s: String| s@)
}

pub open spec fn form_view(f: Form) -> FormV
    decreases f,
{
    match f {
        Form::Word(w) => FormV::Word(w@),
        Form::Tag(w) => FormV::Tag(w@),
        Form::Str(w) => FormV::Str(w@),
        Form::Num(n) => FormV::Num(n),
        Form::StringList(v) => FormV::StringList(strings_view(v@)),
        Form::TestList(ts) => FormV::TestList(stmts_view(ts@)),
        Form::Block(b) => FormV::Block(stmts_view(b@)),
    }
}

/// The value of a statement, form by form.
pub open spec fn stmt_view(st: Seq<Form>) -> Seq<FormV>
    decreases st,
{
    if st.len() == 0 {
        Seq::empty()
    } else {
        stmt_view(st.subrange(0, st.len() - 1)).push(form_view(st[st.len() - 1]))
    }
}

/// The value of a list of statements, statement by statement.
pub open spec fn stmts_view(s: Seq<Vec<Form>>) -> Seq<Seq<FormV>>
    decreases s,
{
    if s.len() == 0 {
        Seq::empty()
    } else {
        stmts_view(s.subrange(0, s.len() - 1)).push(stmt_view(s[s.len() - 1]@))
    }
}

pub proof fn lemma_stmt_view(st: Seq<Form>)
    ensures
        stmt_view(st).len() == st.len(),
        forall|i: int| 0 <= i < st.len() ==> #[trigger] stmt_view(st)[i] == form_view(st[i]),
    decreases st.len(),
{
    if st.len() > 0 {
        lemma_stmt_view(st.subrange(0, st.len() - 1));
    }
}

pub proof fn lemma_stmts_view(s: Seq<Vec<Form>>)
    ensures
        stmts_view(s).len() == s.len(),
        forall|i: int| 0 <= i < s.len() ==> #[trigger] stmts_view(s)[i] == stmt_view(s[i]@),
    decreases s.len(),
{
    if s.len() > 0 {
        lemma_stmts_view(s.subrange(0, s.len() - 1));
    }
}

pub proof fn lemma_stmt_view_subrange(st: Seq<Form>, a: int, b: int)
    requires
        0 <= a <= b <= st.len(),
    ensures
        stmt_view(st.subrange(a, b)) == stmt_view(st).subrange(a, b),
{
    lemma_stmt_view(st);
    lemma_stmt_view(st.subrange(a, b));
    assert(stmt_view(st.subrange(a, b)) =~= stmt_view(st).subrange(a, b));
}

pub proof fn lemma_stmt_view_push(st: Seq<Form>, f: Form)
    ensures
        stmt_view(st.push(f)) == stmt_view(st).push(form_view(f)),
{
    assert(st.push(f).subrange(0, st.len() as int) =~= st);
}

pub proof fn lemma_stmts_view_push(s: Seq<Vec<Form>>, st: Vec<Form>)
    ensures
        stmts_view(s.push(st)) == stmts_view(s).push(stmt_view(st@)),
{
    assert(s.push(st).subrange(0, s.len() as int) =~= s);
}

// ---------------------------------------------------------------------------
// Specification of the reader
// ---------------------------------------------------------------------------

/// How deep blocks and test lists may nest.
pub const MAX_DEPTH: usize = 100;

/// How many tokens are left from `pos` on.
pub open spec fn remaining(t: Seq<TokenV>, pos: int) -> nat {
    if pos < 0 || pos >= t.len() {
        0
    } else {
        (t.len() - pos) as nat
    }
}

/// The form of an atom token (word, tag, string or number).
pub open spec fn atom_form(t: TokenV) -> Option<FormV> {
    match t {
        TokenV::Word(w) => Some(FormV::Word(w)),
        TokenV::Tag(w) => Some(FormV::Tag(w)),
        TokenV::StringLit(w) => Some(FormV::Str(w)),
        TokenV::Number(n) => Some(FormV::Num(n)),
        _ => None,
    }
}

/// Whether the token continues an `if` chain after a block.
pub open spec fn continues_chain(t: TokenV) -> bool {
    t == TokenV::Word("elsif"@) || t == TokenV::Word("else"@)
}

/// The strings of a string list from `pos` (just after `[` or a comma).
pub open spec fn strings_from(t: Seq<TokenV>, pos: int, acc: Seq<Seq<char>>) -> Result<(Seq<Seq<char>>, int), Seq<char>>
    decreases t.len() - pos,
{
    if pos < 0 || pos >= t.len() {
        Err("unclosed string list: missing ']'"@)
    } else {
        match t[pos] {
            TokenV::StringLit(s) => {
                if pos + 1 >= t.len() {
                    Err("unclosed string list: missing ']'"@)
                } else if t[pos + 1] == TokenV::Comma {
                    strings_from(t, pos + 2, acc.push(s))
                } else if t[pos + 1] == TokenV::RBracket {
                    Ok((acc.push(s), pos + 2))
                } else {
                    Err("expected ',' or ']' in string list"@)
                }
            },
            _ => Err("expected string in string list"@),
        }
    }
}

/// A string list whose contents start at `start` (just after its `[`):
/// `[]` is the empty list.
pub open spec fn string_list_at(t: Seq<TokenV>, start: int) -> Result<(Seq<Seq<char>>, int), Seq<char>> {
    if 0 <= start < t.len() && t[start] == TokenV::RBracket {
        Ok((Seq::empty(), start + 1))
    } else {
        strings_from(t, start, Seq::empty())
    }
}

/// The message for a token that cannot appear where a form of a statement is expected.
pub open spec fn stmt_stray(t: TokenV) -> Seq<char> {
    match t {
        TokenV::RParen => "unexpected ')'"@,
        TokenV::RBracket => "unexpected ']'"@,
        _ => "unexpected ','"@,
    }
}

/// The message for a token that cannot appear inside a test list.
pub open spec fn test_stray(t: TokenV) -> Seq<char> {
    match t {
        TokenV::LBrace => "unexpected '{' in test list"@,
        TokenV::RBrace => "unexpected '}' in test list"@,
        TokenV::Semicolon => "unexpected ';' in test list"@,
        _ => "unexpected ']' in test list"@,
    }
}

/// Statements from `pos` until the end of the tokens (top level) or the
/// closing `}` (inside a block), appended to `acc`.
pub open spec fn stmts_from(t: Seq<TokenV>, pos: int, depth: nat, in_block: bool, acc: Seq<Seq<FormV>>) -> Result<(Seq<Seq<FormV>>, int), Seq<char>>
    decreases remaining(t, pos), 4nat,
{
    if pos < 0 || pos >= t.len() {
        if in_block {
            Err("unclosed block: missing '}'"@)
        } else {
            Ok((acc, pos))
        }
    } else if t[pos] == TokenV::RBrace {
        if in_block {
            Ok((acc, pos + 1))
        } else {
            Err("unexpected '}'"@)
        }
    } else {
        match stmt_from(t, pos, depth, Seq::empty()) {
            Ok((st, p)) => if pos < p {
                stmts_from(t, p, depth, in_block, acc.push(st))
            } else {
                Err(Seq::empty())
            },
            Err(m) => Err(m),
        }
    }
}

/// The forms of one statement from `pos`, appended to `forms`: the
/// statement and the index after it.
pub open spec fn stmt_from(t: Seq<TokenV>, pos: int, depth: nat, forms: Seq<FormV>) -> Result<(Seq<FormV>, int), Seq<char>>
    decreases remaining(t, pos), 3nat,
{
    if pos < 0 || pos >= t.len() {
        Err("missing ';' at end of input"@)
    } else {
        match t[pos] {
            TokenV::Semicolon => if forms.len() == 0 {
                Err("empty statement"@)
            } else {
                Ok((forms, pos + 1))
            },
            TokenV::RBrace => Err("missing ';' before '}'"@),
            TokenV::LBrace => match block_at(t, pos + 1, depth) {
                Ok((b, p)) => if pos < p {
                    let forms2 = forms.push(FormV::Block(b));
                    if p < t.len() && continues_chain(t[p]) {
                        stmt_from(t, p, depth, forms2)
                    } else {
                        Ok((forms2, p))
                    }
                } else {
                    Err(Seq::empty())
                },
                Err(m) => Err(m),
            },
            TokenV::LParen => match test_list_at(t, pos + 1, depth) {
                Ok((ts, p)) => if pos < p {
                    stmt_from(t, p, depth, forms.push(FormV::TestList(ts)))
                } else {
                    Err(Seq::empty())
                },
                Err(m) => Err(m),
            },
            TokenV::LBracket => match string_list_at(t, pos + 1) {
                Ok((v, p)) => if pos < p {
                    stmt_from(t, p, depth, forms.push(FormV::StringList(v)))
                } else {
                    Err(Seq::empty())
                },
                Err(m) => Err(m),
            },
            TokenV::RParen => Err(stmt_stray(t[pos])),
            TokenV::RBracket => Err(stmt_stray(t[pos])),
            TokenV::Comma => Err(stmt_stray(t[pos])),
            _ => stmt_from(t, pos + 1, depth, forms.push(atom_form(t[pos])->0)),
        }
    }
}

/// A block whose contents start at `start` (just after its `{`), at
/// nesting `depth` outside it.
pub open spec fn block_at(t: Seq<TokenV>, start: int, depth: nat) -> Result<(Seq<Seq<FormV>>, int), Seq<char>>
    decreases remaining(t, start) + 1, 1nat,
{
    if depth >= MAX_DEPTH {
        Err("nesting depth limit exceeded"@)
    } else {
        stmts_from(t, start, depth + 1, true, Seq::empty())
    }
}

/// A test list whose tests start at `start` (just after its `(`), at
/// nesting `depth` outside it.
pub open spec fn test_list_at(t: Seq<TokenV>, start: int, depth: nat) -> Result<(Seq<Seq<FormV>>, int), Seq<char>>
    decreases remaining(t, start) + 1, 1nat,
{
    if depth >= MAX_DEPTH {
        Err("nesting depth limit exceeded"@)
    } else {
        tests_from(t, start, depth + 1, Seq::empty())
    }
}

/// The tests of a test list from `pos`, appended to `acc`: the tests and
/// the index after the closing `)`.
pub open spec fn tests_from(t: Seq<TokenV>, pos: int, depth: nat, acc: Seq<Seq<FormV>>) -> Result<(Seq<Seq<FormV>>, int), Seq<char>>
    decreases remaining(t, pos), 3nat,
{
    if pos < 0 || pos >= t.len() {
        Err("unclosed test list: missing ')'"@)
    } else {
    match test_from(t, pos, depth, Seq::empty()) {
        Ok((f, p, more)) => if pos < p {
            if more {
                tests_from(t, p, depth, acc.push(f))
            } else {
                Ok((acc.push(f), p))
            }
        } else {
            Err(Seq::empty())
        },
        Err(m) => Err(m),
    }
    }
}

/// The forms of one test from `pos`, appended to `forms`: the test, the
/// index after the `,` or `)` that ends it, and whether a `,` did.
pub open spec fn test_from(t: Seq<TokenV>, pos: int, depth: nat, forms: Seq<FormV>) -> Result<(Seq<FormV>, int, bool), Seq<char>>
    decreases remaining(t, pos), 2nat,
{
    if pos < 0 || pos >= t.len() {
        Err("unclosed test list: missing ')'"@)
    } else {
        match t[pos] {
            TokenV::Comma => if forms.len() == 0 {
                Err("empty test in test list"@)
            } else {
                Ok((forms, pos + 1, true))
            },
            TokenV::RParen => if forms.len() == 0 {
                Err("empty test in test list"@)
            } else {
                Ok((forms, pos + 1, false))
            },
            TokenV::LParen => match test_list_at(t, pos + 1, depth) {
                Ok((ts, p)) => if pos < p {
                    test_from(t, p, depth, forms.push(FormV::TestList(ts)))
                } else {
                    Err(Seq::empty())
                },
                Err(m) => Err(m),
            },
            TokenV::LBracket => match string_list_at(t, pos + 1) {
                Ok((v, p)) => if pos < p {
                    test_from(t, p, depth, forms.push(FormV::StringList(v)))
                } else {
                    Err(Seq::empty())
                },
                Err(m) => Err(m),
            },
            TokenV::LBrace => Err(test_stray(t[pos])),
            TokenV::RBrace => Err(test_stray(t[pos])),
            TokenV::Semicolon => Err(test_stray(t[pos])),
            TokenV::RBracket => Err(test_stray(t[pos])),
            _ => test_from(t, pos + 1, depth, forms.push(atom_form(t[pos])->0)),
        }
    }
}

/// The script read from a whole token sequence, or the error message.
pub open spec fn spec_read_script(t: Seq<TokenV>) -> Result<Seq<Seq<FormV>>, Seq<char>> {
    match stmts_from(t, 0, 0, false, Seq::empty()) {
        Ok((s, _)) => Ok(s),
        Err(m) => Err(m),
    }
}

// ---------------------------------------------------------------------------
// Implementation
// ---------------------------------------------------------------------------

fn form_error(message: &str) -> (e: ParseError)
    ensures
        e.message@ == message@,
        e.line is None,
        e.col is None,
{
    ParseError { message: message.to_owned(), line: None, col: None }
}

fn is_chain_word(t: &Token) -> (r: bool)
    ensures
        r == continues_chain(t@),
{
    match t {
        Token::Word(w) => {
            let r = crate::text::str_eq(w.as_str(), "elsif") || crate::text::str_eq(w.as_str(), "else");
            proof {
                if r {
                    assert(t@ == TokenV::Word("elsif"@) || t@ == TokenV::Word("else"@));
                }
            }
            r
        },
        _ => false,
    }
}

fn atom_of(t: &Token) -> (r: Option<Form>)
    ensures
        match r {
            Some(f) => atom_form(t@) == Some(form_view(f)),
            None => atom_form(t@) is None,
        },
{
    match t {
        Token::Word(w) => Some(Form::Word(w.clone())),
        Token::Tag(w) => Some(Form::Tag(w.clone())),
        Token::StringLit(w) => Some(Form::Str(w.clone())),
        Token::Number(n) => Some(Form::Num(*n)),
        _ => None,
    }
}

fn read_strings(t: &[Token], pos: usize) -> (r: Result<(Vec<String>, usize), ParseError>)
    requires
        pos <= t@.len(),
    ensures
        match r {
            Ok((v, p)) => strings_from(tokens_view(t@), pos as int, Seq::empty()) == Ok::<(Seq<Seq<char>>, int), Seq<char>>((strings_view(v@), p as int)) && pos < p <= t@.len(),
            Err(e) => strings_from(tokens_view(t@), pos as int, Seq::empty()) == Err::<(Seq<Seq<char>>, int), Seq<char>>(e.message@) && e.line is None && e.col is None,
        },
{
    let ghost tv = tokens_view(t@);
    let mut acc: Vec<String> = Vec::new();
    let mut p = pos;
    assert(strings_view(acc@) =~= Seq::<Seq<char>>::empty());
    loop
        invariant
            pos <= p <= t@.len(),
            tv == tokens_view(t@),
            strings_from(tv, pos as int, Seq::empty()) == strings_from(tv, p as int, strings_view(acc@)),
        decreases t@.len() - p,
    {
        if p >= t.len() {
            return Err(form_error("unclosed string list: missing ']'"));
        }
        match &t[p] {
            Token::StringLit(s) => {
                if p + 1 >= t.len() {
                    return Err(form_error("unclosed string list: missing ']'"));
                }
                let ghost old_acc = acc@;
                acc.push(s.clone());
                proof {
                    assert(strings_view(acc@) =~= strings_view(old_acc).push(s@));
                }
                match &t[p + 1] {
                    Token::Comma => {
                        p = p + 2;
                    },
                    Token::RBracket => {
                        return Ok((acc, p + 2));
                    },
                    _ => {
                        return Err(form_error("expected ',' or ']' in string list"));
                    },
                }
            },
            _ => {
                return Err(form_error("expected string in string list"));
            },
        }
    }
}

fn read_string_list(t: &[Token], pos: usize) -> (r: Result<(Vec<String>, usize), ParseError>)
    requires
        pos <= t@.len(),
    ensures
        match r {
            Ok((v, p)) => string_list_at(tokens_view(t@), pos as int) == Ok::<(Seq<Seq<char>>, int), Seq<char>>((strings_view(v@), p as int)) && pos < p <= t@.len(),
            Err(e) => string_list_at(tokens_view(t@), pos as int) == Err::<(Seq<Seq<char>>, int), Seq<char>>(e.message@) && e.line is None && e.col is None,
        },
{
    if pos < t.len() {
        match &t[pos] {
            Token::RBracket => {
                let v: Vec<String> = Vec::new();
                assert(strings_view(v@) =~= Seq::<Seq<char>>::empty());
                return Ok((v, pos + 1));
            },
            _ => {},
        }
    }
    read_strings(t, pos)
}

fn read_stmts(t: &[Token], pos: usize, depth: usize, in_block: bool) -> (r: Result<(Vec<Stmt>, usize), ParseError>)
    requires
        pos <= t@.len(),
        depth <= MAX_DEPTH,
    ensures
        match r {
            Ok((v, p)) => stmts_from(tokens_view(t@), pos as int, depth as nat, in_block, Seq::empty()) == Ok::<(Seq<Seq<FormV>>, int), Seq<char>>((stmts_view(v@), p as int)) && pos <= p <= t@.len() && (in_block ==> pos < p),
            Err(e) => stmts_from(tokens_view(t@), pos as int, depth as nat, in_block, Seq::empty()) == Err::<(Seq<Seq<FormV>>, int), Seq<char>>(e.message@) && e.line is None && e.col is None,
        },
    decreases t@.len() - pos, 4nat,
{
    let ghost tv = tokens_view(t@);
    let mut acc: Vec<Stmt> = Vec::new();
    let mut p = pos;
    assert(stmts_view(acc@) =~= Seq::<Seq<FormV>>::empty());
    loop
        invariant
            pos <= p <= t@.len(),
            depth <= MAX_DEPTH,
            tv == tokens_view(t@),
            stmts_from(tv, pos as int, depth as nat, in_block, Seq::empty()) == stmts_from(tv, p as int, depth as nat, in_block, stmts_view(acc@)),
        decreases t@.len() - p,
    {
        if p >= t.len() {
            if in_block {
                return Err(form_error("unclosed block: missing '}'"));
            } else {
                return Ok((acc, p));
            }
        }
        if let Token::RBrace = &t[p] {
            if in_block {
                return Ok((acc, p + 1));
            } else {
                return Err(form_error("unexpected '}'"));
            }
        }
        let (st, np) = match read_stmt(t, p, depth) {
            Ok(x) => x,
            Err(e) => {
                return Err(e);
            },
        };
        let ghost old_acc = acc@;
        acc.push(st);
        proof {
            lemma_stmts_view_push(old_acc, st);
        }
        p = np;
    }
}

fn read_stmt(t: &[Token], pos: usize, depth: usize) -> (r: Result<(Stmt, usize), ParseError>)
    requires
        pos < t@.len(),
        depth <= MAX_DEPTH,
    ensures
        match r {
            Ok((v, p)) => stmt_from(tokens_view(t@), pos as int, depth as nat, Seq::empty()) == Ok::<(Seq<FormV>, int), Seq<char>>((stmt_view(v@), p as int)) && pos < p <= t@.len(),
            Err(e) => stmt_from(tokens_view(t@), pos as int, depth as nat, Seq::empty()) == Err::<(Seq<FormV>, int), Seq<char>>(e.message@) && e.line is None && e.col is None,
        },
    decreases t@.len() - pos, 3nat,
{
    let ghost tv = tokens_view(t@);
    let mut forms: Stmt = Vec::new();
    let mut p = pos;
    assert(stmt_view(forms@) =~= Seq::<FormV>::empty());
    loop
        invariant
            pos <= p <= t@.len(),
            depth <= MAX_DEPTH,
            tv == tokens_view(t@),
            forms@.len() > 0 ==> pos < p,
            stmt_from(tv, pos as int, depth as nat, Seq::empty()) == stmt_from(tv, p as int, depth as nat, stmt_view(forms@)),
        decreases t@.len() - p,
    {
        if p >= t.len() {
            return Err(form_error("missing ';' at end of input"));
        }
        let ghost old_forms = forms@;
        proof {
            lemma_stmt_view(forms@);
        }
        match &t[p] {
            Token::Semicolon => {
                if forms.len() == 0 {
                    return Err(form_error("empty statement"));
                }
                return Ok((forms, p + 1));
            },
            Token::RBrace => {
                return Err(form_error("missing ';' before '}'"));
            },
            Token::LBrace => {
                let (b, np) = match read_block(t, p, depth) {
                    Ok(x) => x,
                    Err(e) => {
                        return Err(e);
                    },
                };
                let f = Form::Block(b);
                forms.push(f);
                proof {
                    lemma_stmt_view_push(old_forms, f);
                }
                if np < t.len() && is_chain_word(&t[np]) {
                    p = np;
                } else {
                    return Ok((forms, np));
                }
            },
            Token::LParen => {
                let (ts, np) = match read_test_list(t, p, depth) {
                    Ok(x) => x,
                    Err(e) => {
                        return Err(e);
                    },
                };
                let f = Form::TestList(ts);
                forms.push(f);
                proof {
                    lemma_stmt_view_push(old_forms, f);
                }
                p = np;
            },
            Token::LBracket => {
                let (v, np) = match read_string_list(t, p + 1) {
                    Ok(x) => x,
                    Err(e) => {
                        return Err(e);
                    },
                };
                let f = Form::StringList(v);
                forms.push(f);
                proof {
                    lemma_stmt_view_push(old_forms, f);
                }
                p = np;
            },
            Token::RParen => {
                return Err(form_error("unexpected ')'"));
            },
            Token::RBracket => {
                return Err(form_error("unexpected ']'"));
            },
            Token::Comma => {
                return Err(form_error("unexpected ','"));
            },
            _ => {
                let f = match atom_of(&t[p]) {
                    Some(f) => f,
                    None => {
                        return Err(form_error("unexpected token"));
                    },
                };
                forms.push(f);
                proof {
                    lemma_stmt_view_push(old_forms, f);
                }
                p = p + 1;
            },
        }
    }
}

fn read_block(t: &[Token], pos: usize, depth: usize) -> (r: Result<(Vec<Stmt>, usize), ParseError>)
    requires
        pos < t@.len(),
        depth <= MAX_DEPTH,
    ensures
        match r {
            Ok((v, p)) => block_at(tokens_view(t@), pos + 1, depth as nat) == Ok::<(Seq<Seq<FormV>>, int), Seq<char>>((stmts_view(v@), p as int)) && pos < p <= t@.len(),
            Err(e) => block_at(tokens_view(t@), pos + 1, depth as nat) == Err::<(Seq<Seq<FormV>>, int), Seq<char>>(e.message@) && e.line is None && e.col is None,
        },
    decreases t@.len() - pos, 1nat,
{
    if depth >= MAX_DEPTH {
        return Err(form_error("nesting depth limit exceeded"));
    }
    let n = t.len();
    assert(pos < n);
    read_stmts(t, pos + 1, depth + 1, true)
}

fn read_test_list(t: &[Token], pos: usize, depth: usize) -> (r: Result<(Vec<Stmt>, usize), ParseError>)
    requires
        pos < t@.len(),
        depth <= MAX_DEPTH,
    ensures
        match r {
            Ok((v, p)) => test_list_at(tokens_view(t@), pos + 1, depth as nat) == Ok::<(Seq<Seq<FormV>>, int), Seq<char>>((stmts_view(v@), p as int)) && pos < p <= t@.len(),
            Err(e) => test_list_at(tokens_view(t@), pos + 1, depth as nat) == Err::<(Seq<Seq<FormV>>, int), Seq<char>>(e.message@) && e.line is None && e.col is None,
        },
    decreases t@.len() - pos, 1nat,
{
    if depth >= MAX_DEPTH {
        return Err(form_error("nesting depth limit exceeded"));
    }
    let n = t.len();
    assert(pos < n);
    read_tests(t, pos + 1, depth + 1)
}

fn read_tests(t: &[Token], pos: usize, depth: usize) -> (r: Result<(Vec<Stmt>, usize), ParseError>)
    requires
        pos <= t@.len(),
        depth <= MAX_DEPTH,
    ensures
        match r {
            Ok((v, p)) => tests_from(tokens_view(t@), pos as int, depth as nat, Seq::empty()) == Ok::<(Seq<Seq<FormV>>, int), Seq<char>>((stmts_view(v@), p as int)) && pos < p <= t@.len(),
            Err(e) => tests_from(tokens_view(t@), pos as int, depth as nat, Seq::empty()) == Err::<(Seq<Seq<FormV>>, int), Seq<char>>(e.message@) && e.line is None && e.col is None,
        },
    decreases t@.len() - pos, 3nat,
{
    let ghost tv = tokens_view(t@);
    let mut acc: Vec<Stmt> = Vec::new();
    let mut p = pos;
    assert(stmts_view(acc@) =~= Seq::<Seq<FormV>>::empty());
    loop
        invariant
            pos <= p <= t@.len(),
            depth <= MAX_DEPTH,
            tv == tokens_view(t@),
            acc@.len() > 0 ==> pos < p,
            tests_from(tv, pos as int, depth as nat, Seq::empty()) == tests_from(tv, p as int, depth as nat, stmts_view(acc@)),
        decreases t@.len() - p,
    {
        let (f, np, more) = match read_test(t, p, depth) {
            Ok(x) => x,
            Err(e) => {
                return Err(e);
            },
        };
        let ghost old_acc = acc@;
        acc.push(f);
        proof {
            lemma_stmts_view_push(old_acc, f);
        }
        if more {
            p = np;
        } else {
            return Ok((acc, np));
        }
    }
}

fn read_test(t: &[Token], pos: usize, depth: usize) -> (r: Result<(Stmt, usize, bool), ParseError>)
    requires
        pos <= t@.len(),
        depth <= MAX_DEPTH,
    ensures
        match r {
            Ok((v, p, more)) => test_from(tokens_view(t@), pos as int, depth as nat, Seq::empty()) == Ok::<(Seq<FormV>, int, bool), Seq<char>>((stmt_view(v@), p as int, more)) && pos < p <= t@.len(),
            Err(e) => test_from(tokens_view(t@), pos as int, depth as nat, Seq::empty()) == Err::<(Seq<FormV>, int, bool), Seq<char>>(e.message@) && e.line is None && e.col is None,
        },
    decreases t@.len() - pos, 2nat,
{
    let ghost tv = tokens_view(t@);
    let mut forms: Stmt = Vec::new();
    let mut p = pos;
    assert(stmt_view(forms@) =~= Seq::<FormV>::empty());
    loop
        invariant
            pos <= p <= t@.len(),
            depth <= MAX_DEPTH,
            tv == tokens_view(t@),
            forms@.len() > 0 ==> pos < p,
            test_from(tv, pos as int, depth as nat, Seq::empty()) == test_from(tv, p as int, depth as nat, stmt_view(forms@)),
        decreases t@.len() - p,
    {
        if p >= t.len() {
            return Err(form_error("unclosed test list: missing ')'"));
        }
        let ghost old_forms = forms@;
        proof {
            lemma_stmt_view(forms@);
        }
        match &t[p] {
            Token::Comma => {
                if forms.len() == 0 {
                    return Err(form_error("empty test in test list"));
                }
                return Ok((forms, p + 1, true));
            },
            Token::RParen => {
                if forms.len() == 0 {
                    return Err(form_error("empty test in test list"));
                }
                return Ok((forms, p + 1, false));
            },
            Token::LParen => {
                let (ts, np) = match read_test_list(t, p, depth) {
                    Ok(x) => x,
                    Err(e) => {
                        return Err(e);
                    },
                };
                let f = Form::TestList(ts);
                forms.push(f);
                proof {
                    lemma_stmt_view_push(old_forms, f);
                }
                p = np;
            },
            Token::LBracket => {
                let (v, np) = match read_string_list(t, p + 1) {
                    Ok(x) => x,
                    Err(e) => {
                        return Err(e);
                    },
                };
                let f = Form::StringList(v);
                forms.push(f);
                proof {
                    lemma_stmt_view_push(old_forms, f);
                }
                p = np;
            },
            Token::LBrace => {
                return Err(form_error("unexpected '{' in test list"));
            },
            Token::RBrace => {
                return Err(form_error("unexpected '}' in test list"));
            },
            Token::Semicolon => {
                return Err(form_error("unexpected ';' in test list"));
            },
            Token::RBracket => {
                return Err(form_error("unexpected ']' in test list"));
            },
            _ => {
                let f = match atom_of(&t[p]) {
                    Some(f) => f,
                    None => {
                        return Err(form_error("unexpected token"));
                    },
                };
                forms.push(f);
                proof {
                    lemma_stmt_view_push(old_forms, f);
                }
                p = p + 1;
            },
        }
    }
}

/// Read a token sequence into a [`Script`].
///
/// # Errors
///
/// Returns a [`ParseError`] without a position when the tokens do not form
/// a script: an unclosed block, test list or string list, a statement not
/// ended by `;`, an empty statement or test, a stray closing token, or
/// nesting deeper than [`MAX_DEPTH`].
pub fn read_script(tokens: &[Token]) -> (r: Result<Script, ParseError>)
    ensures
        match r {
            Ok(s) => spec_read_script(tokens_view(tokens@)) == Ok::<Seq<Seq<FormV>>, Seq<char>>(stmts_view(s@)),
            Err(e) => spec_read_script(tokens_view(tokens@)) == Err::<Seq<Seq<FormV>>, Seq<char>>(e.message@) && e.line is None && e.col is None,
        },
{
    match read_stmts(tokens, 0, 0, false) {
        Ok((s, _)) => Ok(s),
        Err(e) => Err(e),
    }
}

} // verus!
