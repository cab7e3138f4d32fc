//! Tokenizer for the Sieve scripting language (RFC 5228).
//!
//! The meaning of tokenization is given by [`lex_from`]: starting at a
//! character index, [`scan`] classifies the next lexeme (something to skip,
//! a token, or an error with the index whose line/column is reported), and
//! the scan continues after it.

use vstd::prelude::*;
use crate::parse_error::ParseError;
use crate::text::{
    ascii_digit, ascii_ws, chars_of, decimal, decimal_chars, extend_chars, ident_char, ident_start,
    is_ascii_digit, is_ascii_ws, is_ident_char, is_ident_start, slice_to_vec_range, string_of,
};

verus! {

/// Tokens produced by the Sieve lexer.
#[derive(Debug, Clone, PartialEq, Eq)]
pub enum Token {
    /// An identifier: `[a-zA-Z_][a-zA-Z0-9_]*`
    Word(String),
    /// A tagged argument with the leading `:` stripped: `:is` → `Tag("is")`
    Tag(String),
    /// A string literal with escape sequences resolved.
    StringLit(String),
    /// A numeric literal, with optional size multiplier already applied.
    Number(u64),
    LBracket,
    RBracket,
    LParen,
    RParen,
    LBrace,
    RBrace,
    Semicolon,
    Comma,
}

/// The mathematical value of a [`Token`].
pub enum TokenV {
    Word(Seq<char>),
    Tag(Seq<char>),
    StringLit(Seq<char>),
    Number(u64),
    LBracket,
    RBracket,
    LParen,
    RParen,
    LBrace,
    RBrace,
    Semicolon,
    Comma,
}

impl View for Token {
    type V = TokenV;

    open spec fn view(&self) -> TokenV {
        match self {
            Token::Word(w) => TokenV::Word(w@),
            Token::Tag(t) => TokenV::Tag(t@),
            Token::StringLit(s) => TokenV::StringLit(s@),
            Token::Number(n) => TokenV::Number(*n),
            Token::LBracket => TokenV::LBracket,
            Token::RBracket => TokenV::RBracket,
            Token::LParen => TokenV::LParen,
            Token::RParen => TokenV::RParen,
            Token::LBrace => TokenV::LBrace,
            Token::RBrace => TokenV::RBrace,
            Token::Semicolon => TokenV::Semicolon,
            Token::Comma => TokenV::Comma,
        }
    }
}

pub open spec fn tokens_view(v: Seq<Token>) -> Seq<TokenV> {
    v.map_values(|t: Token| t@)
}

// ---------------------------------------------------------------------------
// Specification
// ---------------------------------------------------------------------------

/// 1-based (line, column) of the character at index `k`: every `\n` before
/// it starts a new line, every other character advances the column.
pub open spec fn line_col(s: Seq<char>, k: int) -> (int, int)
    decreases k,
{
    if k <= 0 {
        (1, 1)
    } else {
        let p = line_col(s, k - 1);
        if s[k - 1] == '\n' {
            (p.0 + 1, 1)
        } else {
            (p.0, p.1 + 1)
        }
    }
}

/// First index at or after `i` holding `\n`, or the length.
pub open spec fn line_end(s: Seq<char>, i: int) -> int
    decreases s.len() - i,
{
    if i >= s.len() || s[i] == '\n' {
        i
    } else {
        line_end(s, i + 1)
    }
}

/// First index at or after `i` that does not continue an identifier.
pub open spec fn ident_end(s: Seq<char>, i: int) -> int
    decreases s.len() - i,
{
    if i >= s.len() || !is_ident_char(s[i]) {
        i
    } else {
        ident_end(s, i + 1)
    }
}

/// First index at or after `i` that is not an ASCII digit.
pub open spec fn digits_end(s: Seq<char>, i: int) -> int
    decreases s.len() - i,
{
    if i >= s.len() || !is_ascii_digit(s[i]) {
        i
    } else {
        digits_end(s, i + 1)
    }
}

/// First index at or after `i` that is neither a space nor a tab.
pub open spec fn blanks_end(s: Seq<char>, i: int) -> int
    decreases s.len() - i,
{
    if i >= s.len() || (s[i] != ' ' && s[i] != '\t') {
        i
    } else {
        blanks_end(s, i + 1)
    }
}

/// Index just past the first `*/` that starts at or after `k`.
pub open spec fn comment_close(s: Seq<char>, k: int) -> Option<int>
    decreases s.len() - k,
{
    if k + 1 >= s.len() {
        None
    } else if s[k] == '*' && s[k + 1] == '/' {
        Some(k + 2)
    } else {
        comment_close(s, k + 1)
    }
}

pub open spec fn digit_value(c: char) -> nat {
    ((c as u32) - ('0' as u32)) as nat
}

/// The value of a string of decimal digits.
pub open spec fn digits_value(d: Seq<char>) -> nat
    decreases d.len(),
{
    if d.len() == 0 {
        0
    } else {
        digits_value(d.drop_last()) * 10 + digit_value(d.last())
    }
}

/// The body of a quoted string from index `k` (just after the opening
/// quote or a previous character), with `acc` already read: the string and
/// the index after the closing quote, or the error message.
pub open spec fn quoted_from(s: Seq<char>, k: int, acc: Seq<char>) -> Result<(Seq<char>, int), Seq<char>>
    decreases s.len() - k,
{
    if k >= s.len() {
        Err("unterminated string literal"@)
    } else if s[k] == '"' {
        Ok((acc, k + 1))
    } else if s[k] == '\\' {
        if k + 1 >= s.len() {
            Err("unexpected end of input after backslash"@)
        } else if s[k + 1] == '"' || s[k + 1] == '\\' {
            quoted_from(s, k + 2, acc.push(s[k + 1]))
        } else {
            quoted_from(s, k + 2, acc.push('\\').push(s[k + 1]))
        }
    } else {
        quoted_from(s, k + 1, acc.push(s[k]))
    }
}

/// A line of a multiline string, as stored: a trailing CR is dropped and a
/// leading `..` loses one dot.
pub open spec fn stored_line(raw: Seq<char>) -> Seq<char> {
    let line = if raw.len() > 0 && raw.last() == '\r' {
        raw.drop_last()
    } else {
        raw
    };
    if line.len() >= 2 && line[0] == '.' && line[1] == '.' {
        line.subrange(1, line.len() as int)
    } else {
        line
    }
}

/// Whether a raw line (possibly ending in CR) is the `.` terminator.
pub open spec fn is_terminator(raw: Seq<char>) -> bool {
    raw =~= seq!['.'] || raw =~= seq!['.', '\r']
}

/// The lines of a multiline string from index `k`, appended to `content`
/// (lines are joined by `\n`; nothing is added before the first non-empty
/// content): the string and the index after the terminator line.
pub open spec fn text_lines(s: Seq<char>, k: int, content: Seq<char>) -> Result<(Seq<char>, int), Seq<char>>
    decreases s.len() - k,
{
    if k < 0 || k >= s.len() {
        Err("unterminated multiline string (missing '.' terminator)"@)
    } else {
        let e = line_end(s, k);
        let next = if e < s.len() {
            e + 1
        } else {
            e
        };
        let raw = s.subrange(k, e);
        if is_terminator(raw) {
            Ok((content, next))
        } else {
            let stored = stored_line(raw);
            let content2 = if content.len() == 0 {
                stored
            } else {
                content.push('\n') + stored
            };
            proof {
                lemma_line_end_bounds(s, k);
            }
            text_lines(s, next, content2)
        }
    }
}

/// A multiline string `text:` whose colon is at index `c`: optional blanks
/// and a `#` comment, an optional CR, a mandatory LF, then the lines.
pub open spec fn text_literal(s: Seq<char>, c: int) -> Result<(Seq<char>, int), Seq<char>> {
    let k1 = blanks_end(s, c + 1);
    let k2 = if k1 < s.len() && s[k1] == '#' {
        line_end(s, k1)
    } else {
        k1
    };
    let k3 = if k2 < s.len() && s[k2] == '\r' {
        k2 + 1
    } else {
        k2
    };
    if k3 < s.len() && s[k3] == '\n' {
        text_lines(s, k3 + 1, Seq::empty())
    } else {
        Err("expected newline after 'text:'"@)
    }
}

/// What starts at index `i`.
pub enum Scan {
    /// Nothing to emit; continue at the index.
    Skip(int),
    /// A token; continue at the index.
    Emit(TokenV, int),
    /// An error message and the index whose line/column is reported.
    Fail(Seq<char>, int),
}

pub open spec fn punct(c: char) -> Option<TokenV> {
    if c == '[' {
        Some(TokenV::LBracket)
    } else if c == ']' {
        Some(TokenV::RBracket)
    } else if c == '(' {
        Some(TokenV::LParen)
    } else if c == ')' {
        Some(TokenV::RParen)
    } else if c == '{' {
        Some(TokenV::LBrace)
    } else if c == '}' {
        Some(TokenV::RBrace)
    } else if c == ';' {
        Some(TokenV::Semicolon)
    } else if c == ',' {
        Some(TokenV::Comma)
    } else {
        None
    }
}

/// The size multiplier that may follow a number at index `j`, and the index after it.
pub open spec fn multiplier(s: Seq<char>, j: int) -> (nat, int) {
    if j < s.len() && (s[j] == 'K' || s[j] == 'k') {
        (1024, j + 1)
    } else if j < s.len() && (s[j] == 'M' || s[j] == 'm') {
        (1048576, j + 1)
    } else if j < s.len() && (s[j] == 'G' || s[j] == 'g') {
        (1073741824, j + 1)
    } else {
        (1, j)
    }
}

/// A number starting at index `i`.
pub open spec fn scan_number(s: Seq<char>, i: int) -> Scan {
    let j = digits_end(s, i);
    let d = s.subrange(i, j);
    let v = digits_value(d);
    if v > u64::MAX {
        Scan::Fail("number overflow: "@ + d, j)
    } else {
        let (m, j2) = multiplier(s, j);
        if v * m > u64::MAX {
            Scan::Fail("number overflow applying multiplier to "@ + decimal(v), j2)
        } else {
            Scan::Emit(TokenV::Number((v * m) as u64), j2)
        }
    }
}

/// A word (or a `text:` multiline string) starting at index `i`.
pub open spec fn scan_word(s: Seq<char>, i: int) -> Scan {
    let e = ident_end(s, i);
    let w = s.subrange(i, e);
    if w == "text"@ && e < s.len() && s[e] == ':' {
        match text_literal(s, e) {
            Ok((c, n)) => Scan::Emit(TokenV::StringLit(c), n),
            Err(m) => Scan::Fail(m, e),
        }
    } else {
        Scan::Emit(TokenV::Word(w), e)
    }
}

/// Classifies what starts at index `i` (which must be inside `s`).
pub open spec fn scan(s: Seq<char>, i: int) -> Scan {
    let ch = s[i];
    if is_ascii_ws(ch) {
        Scan::Skip(i + 1)
    } else if ch == '#' {
        Scan::Skip(line_end(s, i))
    } else if ch == '/' {
        if i + 1 < s.len() && s[i + 1] == '*' {
            match comment_close(s, i + 2) {
                Some(k) => Scan::Skip(k),
                None => Scan::Fail("unterminated block comment"@, i),
            }
        } else {
            Scan::Fail("unexpected character '/'"@, i)
        }
    } else if punct(ch) is Some {
        Scan::Emit(punct(ch)->0, i + 1)
    } else if ch == ':' {
        if i + 1 < s.len() && is_ident_start(s[i + 1]) {
            let e = ident_end(s, i + 1);
            Scan::Emit(TokenV::Tag(s.subrange(i + 1, e)), e)
        } else {
            Scan::Fail("expected identifier after ':'"@, i)
        }
    } else if is_ascii_digit(ch) {
        scan_number(s, i)
    } else if is_ident_start(ch) {
        scan_word(s, i)
    } else if ch == '"' {
        match quoted_from(s, i + 1, Seq::empty()) {
            Ok((c, n)) => Scan::Emit(TokenV::StringLit(c), n),
            Err(m) => Scan::Fail(m, i),
        }
    } else {
        Scan::Fail("unexpected character '"@ + seq![ch] + "'"@, i)
    }
}

/// The tokens of `s` from index `i` on, or the first error: its message and
/// the index whose position is reported.
pub open spec fn lex_from(s: Seq<char>, i: int) -> Result<Seq<TokenV>, (Seq<char>, int)>
    decreases s.len() - i,
{
    if i < 0 || i >= s.len() {
        Ok(Seq::empty())
    } else {
        proof {
            lemma_scan_advances(s, i);
        }
        match scan(s, i) {
            Scan::Skip(j) => lex_from(s, j),
            Scan::Emit(t, j) => match lex_from(s, j) {
                Ok(ts) => Ok(seq![t] + ts),
                Err(e) => Err(e),
            },
            Scan::Fail(m, at) => Err((m, at)),
        }
    }
}

/// The tokens of a whole source text, or the first error.
pub open spec fn spec_tokenize(s: Seq<char>) -> Result<Seq<TokenV>, (Seq<char>, int)> {
    lex_from(s, 0)
}

/// Whether `e` is the error that `spec_tokenize(s)` describes.
pub open spec fn lex_error_matches(s: Seq<char>, e: ParseError) -> bool {
    match spec_tokenize(s) {
        Err((m, at)) => e.message@ == m && e.line == Some(line_col(s, at).0 as usize) && e.col
            == Some(line_col(s, at).1 as usize),
        Ok(_) => false,
    }
}

// ---------------------------------------------------------------------------
// Lemmas
// ---------------------------------------------------------------------------

pub proof fn lemma_line_end_bounds(s: Seq<char>, i: int)
    requires
        0 <= i <= s.len(),
    ensures
        i <= line_end(s, i) <= s.len(),
        line_end(s, i) < s.len() ==> s[line_end(s, i)] == '\n',
    decreases s.len() - i,
{
    if i < s.len() && s[i] != '\n' {
        lemma_line_end_bounds(s, i + 1);
    }
}

pub proof fn lemma_ident_end_bounds(s: Seq<char>, i: int)
    requires
        0 <= i <= s.len(),
    ensures
        i <= ident_end(s, i) <= s.len(),
        forall|k: int| i <= k < ident_end(s, i) ==> is_ident_char(#[trigger] s[k]),
    decreases s.len() - i,
{
    if i < s.len() && is_ident_char(s[i]) {
        lemma_ident_end_bounds(s, i + 1);
    }
}

pub proof fn lemma_digits_end_bounds(s: Seq<char>, i: int)
    requires
        0 <= i <= s.len(),
    ensures
        i <= digits_end(s, i) <= s.len(),
        forall|k: int| i <= k < digits_end(s, i) ==> is_ascii_digit(#[trigger] s[k]),
    decreases s.len() - i,
{
    if i < s.len() && is_ascii_digit(s[i]) {
        lemma_digits_end_bounds(s, i + 1);
    }
}

pub proof fn lemma_blanks_end_bounds(s: Seq<char>, i: int)
    requires
        0 <= i <= s.len(),
    ensures
        i <= blanks_end(s, i) <= s.len(),
    decreases s.len() - i,
{
    if i < s.len() && (s[i] == ' ' || s[i] == '\t') {
        lemma_blanks_end_bounds(s, i + 1);
    }
}

pub proof fn lemma_comment_close_bounds(s: Seq<char>, k: int)
    requires
        0 <= k,
    ensures
        comment_close(s, k) matches Some(j) ==> k + 2 <= j <= s.len(),
    decreases s.len() - k,
{
    if k + 1 < s.len() && !(s[k] == '*' && s[k + 1] == '/') {
        lemma_comment_close_bounds(s, k + 1);
    }
}

pub proof fn lemma_quoted_bounds(s: Seq<char>, k: int, acc: Seq<char>)
    requires
        0 <= k,
    ensures
        quoted_from(s, k, acc) matches Ok((_, n)) ==> k < n <= s.len(),
    decreases s.len() - k,
{
    if k < s.len() && s[k] != '"' {
        if s[k] == '\\' {
            if k + 1 < s.len() {
                if s[k + 1] == '"' || s[k + 1] == '\\' {
                    lemma_quoted_bounds(s, k + 2, acc.push(s[k + 1]));
                } else {
                    lemma_quoted_bounds(s, k + 2, acc.push('\\').push(s[k + 1]));
                }
            }
        } else {
            lemma_quoted_bounds(s, k + 1, acc.push(s[k]));
        }
    }
}

pub proof fn lemma_text_lines_bounds(s: Seq<char>, k: int, content: Seq<char>)
    requires
        0 <= k,
    ensures
        text_lines(s, k, content) matches Ok((_, n)) ==> k < n <= s.len(),
    decreases s.len() - k,
{
    if k < s.len() {
        lemma_line_end_bounds(s, k);
        let e = line_end(s, k);
        let next = if e < s.len() {
            e + 1
        } else {
            e
        };
        let raw = s.subrange(k, e);
        if !is_terminator(raw) {
            let stored = stored_line(raw);
            let content2 = if content.len() == 0 {
                stored
            } else {
                content.push('\n') + stored
            };
            lemma_text_lines_bounds(s, next, content2);
        }
    }
}

pub proof fn lemma_text_literal_bounds(s: Seq<char>, c: int)
    requires
        0 <= c < s.len(),
    ensures
        text_literal(s, c) matches Ok((_, n)) ==> c < n <= s.len(),
{
    lemma_blanks_end_bounds(s, c + 1);
    let k1 = blanks_end(s, c + 1);
    if k1 < s.len() && s[k1] == '#' {
        lemma_line_end_bounds(s, k1);
    }
    let k2 = if k1 < s.len() && s[k1] == '#' {
        line_end(s, k1)
    } else {
        k1
    };
    let k3 = if k2 < s.len() && s[k2] == '\r' {
        k2 + 1
    } else {
        k2
    };
    if k3 < s.len() && s[k3] == '\n' {
        lemma_text_lines_bounds(s, k3 + 1, Seq::empty());
    }
}

/// Every scan moves forward and stays inside the text.
pub proof fn lemma_scan_advances(s: Seq<char>, i: int)
    requires
        0 <= i < s.len(),
    ensures
        scan(s, i) matches Scan::Skip(j) ==> i < j <= s.len(),
        scan(s, i) matches Scan::Emit(_, j) ==> i < j <= s.len(),
        scan(s, i) matches Scan::Fail(_, at) ==> i <= at <= s.len(),
{
    let ch = s[i];
    lemma_line_end_bounds(s, i);
    lemma_comment_close_bounds(s, i + 2);
    lemma_ident_end_bounds(s, i + 1);
    lemma_ident_end_bounds(s, i);
    lemma_digits_end_bounds(s, i + 1);
    lemma_digits_end_bounds(s, i);
    lemma_quoted_bounds(s, i + 1, Seq::empty());
    let e = ident_end(s, i);
    if e < s.len() {
        lemma_text_literal_bounds(s, e);
    }
}

pub proof fn lemma_line_col_bounds(s: Seq<char>, k: int)
    requires
        0 <= k,
    ensures
        1 <= line_col(s, k).0 <= k + 1,
        1 <= line_col(s, k).1 <= k + 1,
    decreases k,
{
    if k > 0 {
        lemma_line_col_bounds(s, k - 1);
    }
}

pub proof fn lemma_digits_value_prefix(d: Seq<char>, k: int)
    requires
        0 <= k <= d.len(),
    ensures
        digits_value(d.subrange(0, k)) <= digits_value(d),
    decreases d.len() - k,
{
    if k < d.len() {
        lemma_digits_value_prefix(d, k + 1);
        let p = d.subrange(0, k + 1);
        assert(p.drop_last() =~= d.subrange(0, k));
    } else {
        assert(d.subrange(0, k) =~= d);
    }
}

// ---------------------------------------------------------------------------
// Implementation
// ---------------------------------------------------------------------------

fn line_end_at(s: &[char], i: usize) -> (j: usize)
    requires
        i <= s@.len(),
    ensures
        j == line_end(s@, i as int),
{
    let mut j = i;
    while j < s.len() && s[j] != '\n'
        invariant
            i <= j <= s@.len(),
            line_end(s@, i as int) == line_end(s@, j as int),
        decreases s@.len() - j,
    {
        j += 1;
    }
    j
}

fn ident_end_at(s: &[char], i: usize) -> (j: usize)
    requires
        i <= s@.len(),
    ensures
        j == ident_end(s@, i as int),
{
    let mut j = i;
    while j < s.len() && ident_char(s[j])
        invariant
            i <= j <= s@.len(),
            ident_end(s@, i as int) == ident_end(s@, j as int),
        decreases s@.len() - j,
    {
        j += 1;
    }
    j
}

fn digits_end_at(s: &[char], i: usize) -> (j: usize)
    requires
        i <= s@.len(),
    ensures
        j == digits_end(s@, i as int),
{
    let mut j = i;
    while j < s.len() && ascii_digit(s[j])
        invariant
            i <= j <= s@.len(),
            digits_end(s@, i as int) == digits_end(s@, j as int),
        decreases s@.len() - j,
    {
        j += 1;
    }
    j
}

fn blanks_end_at(s: &[char], i: usize) -> (j: usize)
    requires
        i <= s@.len(),
    ensures
        j == blanks_end(s@, i as int),
{
    let mut j = i;
    while j < s.len() && (s[j] == ' ' || s[j] == '\t')
        invariant
            i <= j <= s@.len(),
            blanks_end(s@, i as int) == blanks_end(s@, j as int),
        decreases s@.len() - j,
    {
        j += 1;
    }
    j
}

fn comment_close_at(s: &[char], k: usize) -> (r: Option<usize>)
    requires
        k <= s@.len(),
    ensures
        r matches Some(j) ==> comment_close(s@, k as int) == Some(j as int),
        r is None ==> comment_close(s@, k as int) is None,
{
    let mut j = k;
    while j < s.len() && s.len() - j > 1
        invariant
            k <= j <= s@.len(),
            comment_close(s@, k as int) == comment_close(s@, j as int),
        decreases s@.len() - j,
    {
        if s[j] == '*' && s[j + 1] == '/' {
            return Some(j + 2);
        }
        j += 1;
    }
    None
}

/// The (line, column) of index `k`, computed from the start of the text.
fn position_of(s: &[char], k: usize) -> (r: (usize, usize))
    requires
        k <= s@.len(),
        s@.len() <= isize::MAX,
    ensures
        r.0 == line_col(s@, k as int).0,
        r.1 == line_col(s@, k as int).1,
{
    let mut line: usize = 1;
    let mut col: usize = 1;
    let mut i: usize = 0;
    while i < k
        invariant
            i <= k <= s@.len(),
            s@.len() <= isize::MAX,
            line == line_col(s@, i as int).0,
            col == line_col(s@, i as int).1,
        decreases k - i,
    {
        proof {
            lemma_line_col_bounds(s@, i as int);
        }
        if s[i] == '\n' {
            line += 1;
            col = 1;
        } else {
            col += 1;
        }
        i += 1;
    }
    (line, col)
}

fn error_at(s: &[char], message: String, at: usize) -> (e: ParseError)
    requires
        at <= s@.len(),
        s@.len() <= isize::MAX,
    ensures
        e.message == message,
        e.line == Some(line_col(s@, at as int).0 as usize),
        e.col == Some(line_col(s@, at as int).1 as usize),
{
    let (line, col) = position_of(s, at);
    ParseError { message, line: Some(line), col: Some(col) }
}

/// Reads a quoted string whose opening quote is just before index `k`.
fn read_quoted(s: &[char], k: usize) -> (r: Result<(Vec<char>, usize), String>)
    requires
        k <= s@.len(),
    ensures
        match r {
            Ok((v, n)) => quoted_from(s@, k as int, Seq::empty()) == Ok::<(Seq<char>, int), Seq<char>>((v@, n as int)),
            Err(m) => quoted_from(s@, k as int, Seq::empty()) == Err::<(Seq<char>, int), Seq<char>>(m@),
        },
{
    let mut acc: Vec<char> = Vec::new();
    let mut j = k;
    while j < s.len()
        invariant
            k <= j <= s@.len(),
            quoted_from(s@, k as int, Seq::empty()) == quoted_from(s@, j as int, acc@),
        decreases s@.len() - j,
    {
        let c = s[j];
        if c == '"' {
            return Ok((acc, j + 1));
        }
        if c == '\\' {
            if j + 1 >= s.len() {
                return Err("unexpected end of input after backslash".to_owned());
            }
            let e = s[j + 1];
            if e == '"' || e == '\\' {
                acc.push(e);
            } else {
                acc.push('\\');
                acc.push(e);
            }
            j += 2;
        } else {
            acc.push(c);
            j += 1;
        }
    }
    Err("unterminated string literal".to_owned())
}

fn is_terminator_at(s: &[char], k: usize, e: usize) -> (r: bool)
    requires
        k <= e <= s@.len(),
    ensures
        r == is_terminator(s@.subrange(k as int, e as int)),
{
    let n = e - k;
    let r = (n == 1 && s[k] == '.') || (n == 2 && s[k] == '.' && s[k + 1] == '\r');
    proof {
        let raw = s@.subrange(k as int, e as int);
        if n == 1 && s@[k as int] == '.' {
            assert(raw =~= seq!['.']);
        }
        if n == 2 && s@[k as int] == '.' && s@[k + 1] == '\r' {
            assert(raw =~= seq!['.', '\r']);
        }
        if raw =~= seq!['.'] {
            assert(raw[0] == '.');
        }
        if raw =~= seq!['.', '\r'] {
            assert(raw[0] == '.' && raw[1] == '\r');
        }
    }
    r
}

/// Appends the stored form of the raw line `s[k..e]` to `content`.
fn append_line(s: &[char], k: usize, e: usize, content: &mut Vec<char>)
    requires
        k <= e <= s@.len(),
    ensures
        final(content)@ == (if old(content)@.len() == 0 {
            stored_line(s@.subrange(k as int, e as int))
        } else {
            old(content)@.push('\n') + stored_line(s@.subrange(k as int, e as int))
        }),
{
    let raw = Ghost(s@.subrange(k as int, e as int));
    let mut end = e;
    if end > k && s[end - 1] == '\r' {
        end -= 1;
    }
    let mut start = k;
    if end - start >= 2 && s[start] == '.' && s[start + 1] == '.' {
        start += 1;
    }
    proof {
        let line = if raw@.len() > 0 && raw@.last() == '\r' {
            raw@.drop_last()
        } else {
            raw@
        };
        assert(line =~= s@.subrange(k as int, end as int));
        assert(stored_line(raw@) =~= s@.subrange(start as int, end as int));
    }
    if content.len() > 0 {
        content.push('\n');
    }
    let mut i = start;
    let ghost base = content@;
    while i < end
        invariant
            start <= i <= end <= s@.len(),
            content@ == base + s@.subrange(start as int, i as int),
        decreases end - i,
    {
        content.push(s[i]);
        i += 1;
        assert(content@ =~= base + s@.subrange(start as int, i as int));
    }
}

/// Reads the lines of a multiline string starting at index `k`.
fn read_text_lines(s: &[char], k: usize) -> (r: Result<(Vec<char>, usize), String>)
    requires
        k <= s@.len(),
    ensures
        match r {
            Ok((v, n)) => text_lines(s@, k as int, Seq::empty()) == Ok::<(Seq<char>, int), Seq<char>>((v@, n as int)),
            Err(m) => text_lines(s@, k as int, Seq::empty()) == Err::<(Seq<char>, int), Seq<char>>(m@),
        },
{
    let mut content: Vec<char> = Vec::new();
    let mut j = k;
    while j < s.len()
        invariant
            k <= j <= s@.len(),
            text_lines(s@, k as int, Seq::empty()) == text_lines(s@, j as int, content@),
        decreases s@.len() - j,
    {
        let e = line_end_at(s, j);
        proof {
            lemma_line_end_bounds(s@, j as int);
        }
        let next = if e < s.len() {
            e + 1
        } else {
            e
        };
        if is_terminator_at(s, j, e) {
            return Ok((content, next));
        }
        append_line(s, j, e, &mut content);
        j = next;
    }
    Err("unterminated multiline string (missing '.' terminator)".to_owned())
}

/// Reads a multiline string whose `text:` colon is at index `c`.
fn read_text_literal(s: &[char], c: usize) -> (r: Result<(Vec<char>, usize), String>)
    requires
        c < s@.len(),
        s@.len() <= isize::MAX,
    ensures
        match r {
            Ok((v, n)) => text_literal(s@, c as int) == Ok::<(Seq<char>, int), Seq<char>>((v@, n as int)),
            Err(m) => text_literal(s@, c as int) == Err::<(Seq<char>, int), Seq<char>>(m@),
        },
{
    let k1 = blanks_end_at(s, c + 1);
    proof {
        lemma_blanks_end_bounds(s@, c + 1);
    }
    let k2 = if k1 < s.len() && s[k1] == '#' {
        proof {
            lemma_line_end_bounds(s@, k1 as int);
        }
        line_end_at(s, k1)
    } else {
        k1
    };
    let k3 = if k2 < s.len() && s[k2] == '\r' {
        k2 + 1
    } else {
        k2
    };
    if k3 < s.len() && s[k3] == '\n' {
        read_text_lines(s, k3 + 1)
    } else {
        Err("expected newline after 'text:'".to_owned())
    }
}

/// The outcome of scanning at one index.
enum Scanned {
    Skip(usize),
    Emit(Token, usize),
    Fail(String, usize),
}

spec fn scanned_matches(s: Seq<char>, i: int, r: Scanned) -> bool {
    match r {
        Scanned::Skip(j) => scan(s, i) == Scan::Skip(j as int),
        Scanned::Emit(t, j) => scan(s, i) == Scan::Emit(t@, j as int),
        Scanned::Fail(m, at) => scan(s, i) == Scan::Fail(m@, at as int),
    }
}

fn punct_token(c: char) -> (r: Option<Token>)
    ensures
        match r {
            Some(t) => punct(c) == Some(t@),
            None => punct(c) is None,
        },
{
    if c == '[' {
        Some(Token::LBracket)
    } else if c == ']' {
        Some(Token::RBracket)
    } else if c == '(' {
        Some(Token::LParen)
    } else if c == ')' {
        Some(Token::RParen)
    } else if c == '{' {
        Some(Token::LBrace)
    } else if c == '}' {
        Some(Token::RBrace)
    } else if c == ';' {
        Some(Token::Semicolon)
    } else if c == ',' {
        Some(Token::Comma)
    } else {
        None
    }
}

fn scan_number_at(s: &[char], i: usize) -> (r: Scanned)
    requires
        i < s@.len(),
        s@.len() <= isize::MAX,
        is_ascii_digit(s@[i as int]),
    ensures
        match r {
            Scanned::Skip(_) => false,
            Scanned::Emit(t, j) => scan_number(s@, i as int) == Scan::Emit(t@, j as int),
            Scanned::Fail(m, at) => scan_number(s@, i as int) == Scan::Fail(m@, at as int),
        },
{
    let j = digits_end_at(s, i);
    proof {
        lemma_digits_end_bounds(s@, i as int);
    }
    let ghost d = s@.subrange(i as int, j as int);
    let mut v: u64 = 0;
    let mut k = i;
    while k < j
        invariant
            i <= k <= j <= s@.len(),
            j == digits_end(s@, i as int),
            d == s@.subrange(i as int, j as int),
            forall|q: int| i <= q < j ==> is_ascii_digit(#[trigger] s@[q]),
            v as nat == digits_value(s@.subrange(i as int, k as int)),
        decreases j - k,
    {
        let c = s[k];
        let dv: u64 = ((c as u32) - ('0' as u32)) as u64;
        proof {
            assert(is_ascii_digit(s@[k as int]));
            let p = s@.subrange(i as int, k + 1);
            assert(p.drop_last() =~= s@.subrange(i as int, k as int));
            assert(p.last() == c);
            assert(d.subrange(0, k + 1 - i) =~= p);
            lemma_digits_value_prefix(d, k + 1 - i);
        }
        proof {
            assert(digits_value(s@.subrange(i as int, k + 1)) == v * 10 + dv);
        }
        let m = v.checked_mul(10);
        match m {
            None => {
                assert(digits_value(d) > u64::MAX) by (nonlinear_arith)
                    requires
                        digits_value(d) >= v * 10 + dv,
                        v * 10 > u64::MAX,
                        dv >= 0,
                ;
                let msg = "number overflow: ".to_owned().concat(string_of(slice_to_vec_range(s, i, j).as_slice()).as_str());
                return Scanned::Fail(msg, j);
            },
            Some(m) => {
                match m.checked_add(dv) {
                    None => {
                        assert(digits_value(d) > u64::MAX);
                        let msg = "number overflow: ".to_owned().concat(string_of(slice_to_vec_range(s, i, j).as_slice()).as_str());
                        return Scanned::Fail(msg, j);
                    },
                    Some(nv) => {
                        v = nv;
                    },
                }
            },
        }
        k += 1;
    }
    assert(s@.subrange(i as int, k as int) =~= d);
    let (mult, j2): (u64, usize) = if j < s.len() && (s[j] == 'K' || s[j] == 'k') {
        (1024, j + 1)
    } else if j < s.len() && (s[j] == 'M' || s[j] == 'm') {
        (1048576, j + 1)
    } else if j < s.len() && (s[j] == 'G' || s[j] == 'g') {
        (1073741824, j + 1)
    } else {
        (1, j)
    };
    match v.checked_mul(mult) {
        None => {
            let mut msg = chars_of("number overflow applying multiplier to ");
            extend_chars(&mut msg, decimal_chars(v).as_slice());
            Scanned::Fail(string_of(msg.as_slice()), j2)
        },
        Some(value) => Scanned::Emit(Token::Number(value), j2),
    }
}

fn scan_word_at(s: &[char], i: usize) -> (r: Scanned)
    requires
        i < s@.len(),
        s@.len() <= isize::MAX,
        is_ident_start(s@[i as int]),
    ensures
        match r {
            Scanned::Skip(_) => false,
            Scanned::Emit(t, j) => scan_word(s@, i as int) == Scan::Emit(t@, j as int),
            Scanned::Fail(m, at) => scan_word(s@, i as int) == Scan::Fail(m@, at as int),
        },
{
    let e = ident_end_at(s, i);
    proof {
        lemma_ident_end_bounds(s@, i as int);
    }
    let w = slice_to_vec_range(s, i, e);
    let is_text = w.len() == 4 && w[0] == 't' && w[1] == 'e' && w[2] == 'x' && w[3] == 't';
    proof {
        reveal_strlit("text");
        if w@.len() == 4 && w@[0] == 't' && w@[1] == 'e' && w@[2] == 'x' && w@[3] == 't' {
            assert(w@ =~= "text"@);
        }
    }
    if is_text && e < s.len() && s[e] == ':' {
        match read_text_literal(s, e) {
            Ok((c, n)) => Scanned::Emit(Token::StringLit(string_of(c.as_slice())), n),
            Err(m) => Scanned::Fail(m, e),
        }
    } else {
        Scanned::Emit(Token::Word(string_of(w.as_slice())), e)
    }
}

fn scan_at(s: &[char], i: usize) -> (r: Scanned)
    requires
        i < s@.len(),
        s@.len() <= isize::MAX,
    ensures
        scanned_matches(s@, i as int, r),
{
    let ch = s[i];
    if ascii_ws(ch) {
        return Scanned::Skip(i + 1);
    }
    if ch == '#' {
        return Scanned::Skip(line_end_at(s, i));
    }
    if ch == '/' {
        if i + 1 < s.len() && s[i + 1] == '*' {
            return match comment_close_at(s, i + 2) {
                Some(k) => Scanned::Skip(k),
                None => Scanned::Fail("unterminated block comment".to_owned(), i),
            };
        }
        return Scanned::Fail("unexpected character '/'".to_owned(), i);
    }
    match punct_token(ch) {
        Some(t) => {
            return Scanned::Emit(t, i + 1);
        },
        None => {},
    }
    if ch == ':' {
        if i + 1 < s.len() && ident_start(s[i + 1]) {
            let e = ident_end_at(s, i + 1);
            proof {
                lemma_ident_end_bounds(s@, i + 1);
            }
            let t = slice_to_vec_range(s, i + 1, e);
            return Scanned::Emit(Token::Tag(string_of(t.as_slice())), e);
        }
        return Scanned::Fail("expected identifier after ':'".to_owned(), i);
    }
    if ascii_digit(ch) {
        return scan_number_at(s, i);
    }
    if ident_start(ch) {
        return scan_word_at(s, i);
    }
    if ch == '"' {
        return match read_quoted(s, i + 1) {
            Ok((c, n)) => Scanned::Emit(Token::StringLit(string_of(c.as_slice())), n),
            Err(m) => Scanned::Fail(m, i),
        };
    }
    let mut msg = chars_of("unexpected character '");
    msg.push(ch);
    extend_chars(&mut msg, chars_of("'").as_slice());
    assert(msg@ =~= "unexpected character '"@ + seq![ch] + "'"@);
    Scanned::Fail(string_of(msg.as_slice()), i)
}

/// Tokenize a Sieve script source string into a flat token list.
///
/// # Errors
///
/// Returns a [`ParseError`] on any unrecognised character or malformed token;
/// its line and column are those of the index that the scan reports.
pub fn tokenize(src: &str) -> (r: Result<Vec<Token>, ParseError>)
    ensures
        match r {
            Ok(v) => spec_tokenize(src@) == Ok::<Seq<TokenV>, (Seq<char>, int)>(tokens_view(v@)),
            Err(e) => lex_error_matches(src@, e),
        },
{
    let s = chars_of(src);
    let mut tokens: Vec<Token> = Vec::new();
    let mut i: usize = 0;
    assert(tokens_view(tokens@) =~= Seq::<TokenV>::empty());
    while i < s.len()
        invariant
            i <= s@.len(),
            s@ == src@,
            s@.len() <= isize::MAX,
            spec_tokenize(src@) == match lex_from(s@, i as int) {
                Ok(ts) => Ok(tokens_view(tokens@) + ts),
                Err(e) => Err::<Seq<TokenV>, (Seq<char>, int)>(e),
            },
        decreases s@.len() - i,
    {
        let r = scan_at(s.as_slice(), i);
        proof {
            lemma_scan_advances(s@, i as int);
        }
        match r {
            Scanned::Skip(j) => {
                i = j;
            },
            Scanned::Emit(t, j) => {
                let ghost old_tokens = tokens@;
                let ghost tv = t@;
                tokens.push(t);
                proof {
                    assert(tokens_view(tokens@) =~= tokens_view(old_tokens).push(tv));
                    match lex_from(s@, j as int) {
                        Ok(ts) => {
                            assert(tokens_view(old_tokens) + (seq![tv] + ts) =~= tokens_view(tokens@) + ts);
                        },
                        Err(_) => {},
                    }
                }
                i = j;
            },
            Scanned::Fail(m, at) => {
                return Err(error_at(s.as_slice(), m, at));
            },
        }
    }
    assert(tokens_view(tokens@) + Seq::<TokenV>::empty() =~= tokens_view(tokens@));
    Ok(tokens)
}

} // verus!
