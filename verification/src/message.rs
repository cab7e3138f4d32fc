//! RFC 5322 message header extraction utilities.

use vstd::prelude::*;
use vstd::utf8::{decode_utf8, valid_utf8};
use crate::lexer::{line_end, lemma_line_end_bounds};
use crate::text::{
    ascii_lower, chars_of, extend_chars, lower_chars, slice_to_vec_range, string_of, trim,
    trim_chars,
};

verus! {

/// The part of an RFC 5322 address to extract.
#[derive(Debug, Clone, Copy, PartialEq, Eq)]
pub enum AddressPart {
    All,
    LocalPart,
    Domain,
}

// ---------------------------------------------------------------------------
// Specification
// ---------------------------------------------------------------------------

/// Whether a header/body separator (`\r\n\r\n` or `\n\n`) starts at `i`.
pub open spec fn separator_at(raw: Seq<u8>, i: int) -> bool {
    (i + 4 <= raw.len() && raw[i] == 13u8 && raw[i + 1] == 10u8 && raw[i + 2] == 13u8 && raw[i + 3] == 10u8)
        || (i + 2 <= raw.len() && raw[i] == 10u8 && raw[i + 1] == 10u8)
}

/// The first index at or after `i` where a separator starts.
pub open spec fn separator_from(raw: Seq<u8>, i: int) -> Option<int>
    decreases raw.len() - i,
{
    if i < 0 || i >= raw.len() {
        None
    } else if separator_at(raw, i) {
        Some(i)
    } else {
        separator_from(raw, i + 1)
    }
}

/// The bytes of the header section: everything before the first separator.
pub open spec fn header_section(raw: Seq<u8>) -> Seq<u8> {
    match separator_from(raw, 0) {
        Some(p) => raw.subrange(0, p),
        None => raw,
    }
}

/// What `String::from_utf8_lossy` decodes from a byte sequence (invalid
/// sequences become U+FFFD).
pub uninterp spec fn utf8_lossy(bytes: Seq<u8>) -> Seq<char>;

/// The text of a byte sequence: its UTF-8 decoding when it is valid UTF-8,
/// else what `String::from_utf8_lossy` makes of it.
pub open spec fn decoded_text(bytes: Seq<u8>) -> Seq<char> {
    if valid_utf8(bytes) {
        decode_utf8(bytes)
    } else {
        utf8_lossy(bytes)
    }
}

/// A header line with a trailing CR dropped.
pub open spec fn strip_cr(raw: Seq<char>) -> Seq<char> {
    if raw.len() > 0 && raw.last() == '\r' {
        raw.drop_last()
    } else {
        raw
    }
}

/// The first index at or after `i` holding `c`.
pub open spec fn index_of_from(s: Seq<char>, c: char, i: int) -> Option<int>
    decreases s.len() - i,
{
    if i < 0 || i >= s.len() {
        None
    } else if s[i] == c {
        Some(i)
    } else {
        index_of_from(s, c, i + 1)
    }
}

/// The last index holding `c`.
pub open spec fn last_index_of(s: Seq<char>, c: char) -> Option<int>
    decreases s.len(),
{
    if s.len() == 0 {
        None
    } else if s.last() == c {
        Some(s.len() - 1)
    } else {
        last_index_of(s.drop_last(), c)
    }
}

pub type HeaderV = (Seq<char>, Seq<char>);

/// One non-empty header line applied to the headers read so far: a
/// continuation line (leading space or tab) extends the last value with a
/// space and its trimmed text; a `name: value` line adds a header with the
/// trimmed, lowercased name and the trimmed value (an empty name is
/// dropped); any other line is ignored.
pub open spec fn apply_header_line(acc: Seq<HeaderV>, line: Seq<char>) -> Seq<HeaderV> {
    if line[0] == ' ' || line[0] == '\t' {
        if acc.len() > 0 {
            let last = acc.last();
            acc.drop_last().push((last.0, last.1 + seq![' '] + trim(line)))
        } else {
            acc
        }
    } else {
        match index_of_from(line, ':', 0) {
            Some(c) => {
                let name = ascii_lower(trim(line.subrange(0, c)));
                let value = trim(line.subrange(c + 1, line.len() as int));
                if name.len() > 0 {
                    acc.push((name, value))
                } else {
                    acc
                }
            },
            None => acc,
        }
    }
}

/// The headers of `text` read from the line starting at `i`, after `acc`:
/// reading stops at the first empty line (or the end).
pub open spec fn header_lines(text: Seq<char>, i: int, acc: Seq<HeaderV>) -> Seq<HeaderV>
    decreases text.len() - i,
{
    if i < 0 || i > text.len() {
        acc
    } else {
        let e = line_end(text, i);
        let line = strip_cr(text.subrange(i, e));
        if line.len() == 0 {
            acc
        } else {
            proof {
                lemma_line_end_bounds(text, i);
            }
            let acc2 = apply_header_line(acc, line);
            if e >= text.len() {
                acc2
            } else {
                header_lines(text, e + 1, acc2)
            }
        }
    }
}

/// The headers of a raw message, in document order.
pub open spec fn spec_headers(raw: Seq<u8>) -> Seq<HeaderV> {
    header_lines(decoded_text(header_section(raw)), 0, Seq::empty())
}

/// The index of the last `<` outside parentheses, scanning from `i` with
/// the parenthesis depth and the last such index found so far.
pub open spec fn last_angle(a: Seq<char>, i: int, depth: nat, last: Option<int>) -> Option<int>
    decreases a.len() - i,
{
    if i < 0 || i >= a.len() {
        last
    } else if a[i] == '(' {
        last_angle(a, i + 1, depth + 1, last)
    } else if a[i] == ')' && depth > 0 {
        last_angle(a, i + 1, (depth - 1) as nat, last)
    } else if a[i] == '<' && depth == 0 {
        last_angle(a, i + 1, depth, Some(i))
    } else {
        last_angle(a, i + 1, depth, last)
    }
}

/// The first `(` outside double quotes, scanning from `i`.
pub open spec fn unquoted_paren(a: Seq<char>, i: int, in_quotes: bool) -> Option<int>
    decreases a.len() - i,
{
    if i < 0 || i >= a.len() {
        None
    } else if a[i] == '"' {
        unquoted_paren(a, i + 1, !in_quotes)
    } else if a[i] == '(' && !in_quotes {
        Some(i)
    } else {
        unquoted_paren(a, i + 1, in_quotes)
    }
}

/// The string with a trailing comment (from the first unquoted `(`) cut off.
pub open spec fn strip_comment(a: Seq<char>) -> Seq<char> {
    match unquoted_paren(a, 0, false) {
        Some(i) => trim(a.subrange(0, i)),
        None => a,
    }
}

/// The bare `local@domain` of an address: what the last `<...>` outside
/// comments encloses, else the address with any trailing comment removed.
pub open spec fn bare_address_of(addr: Seq<char>) -> Seq<char> {
    let a = trim(addr);
    match last_angle(a, 0, 0, None) {
        Some(st) => match index_of_from(a, '>', st) {
            Some(end) => trim(a.subrange(st + 1, end)),
            None => strip_comment(a),
        },
        None => strip_comment(a),
    }
}

/// One part of an address: everything, before the last `@`, or after it
/// (the empty string when there is no `@`).
pub open spec fn address_part_of(addr: Seq<char>, part: AddressPart) -> Seq<char> {
    let b = bare_address_of(addr);
    match part {
        AddressPart::All => b,
        AddressPart::LocalPart => match last_index_of(b, '@') {
            Some(at) => b.subrange(0, at),
            None => Seq::empty(),
        },
        AddressPart::Domain => match last_index_of(b, '@') {
            Some(at) => b.subrange(at + 1, b.len() as int),
            None => Seq::empty(),
        },
    }
}

/// The state of the address splitter.
pub struct SplitState {
    pub cur: Seq<char>,
    pub depth: nat,
    pub in_quotes: bool,
    pub escaped: bool,
    pub out: Seq<Seq<char>>,
}

/// Adds the trimmed piece to the output unless it is empty.
pub open spec fn flush(out: Seq<Seq<char>>, cur: Seq<char>) -> Seq<Seq<char>> {
    if trim(cur).len() > 0 {
        out.push(trim(cur))
    } else {
        out
    }
}

/// One character of the splitter: commas outside quotes and comments end a
/// piece; a backslash inside quotes protects the next character.
pub open spec fn split_step(st: SplitState, ch: char) -> SplitState {
    if st.escaped {
        SplitState { cur: st.cur.push(ch), escaped: false, ..st }
    } else if ch == '\\' && st.in_quotes {
        SplitState { cur: st.cur.push(ch), escaped: true, ..st }
    } else if ch == '"' && st.depth == 0 {
        SplitState { cur: st.cur.push(ch), in_quotes: !st.in_quotes, ..st }
    } else if ch == '(' && !st.in_quotes {
        SplitState { cur: st.cur.push(ch), depth: st.depth + 1, ..st }
    } else if ch == ')' && !st.in_quotes && st.depth > 0 {
        SplitState { cur: st.cur.push(ch), depth: (st.depth - 1) as nat, ..st }
    } else if ch == ',' && !st.in_quotes && st.depth == 0 {
        SplitState { cur: Seq::empty(), out: flush(st.out, st.cur), ..st }
    } else {
        SplitState { cur: st.cur.push(ch), ..st }
    }
}

/// The splitter's state after the first `n` characters.
pub open spec fn split_prefix(s: Seq<char>, n: int) -> SplitState
    decreases n,
{
    if n <= 0 {
        SplitState { cur: Seq::empty(), depth: 0, in_quotes: false, escaped: false, out: Seq::empty() }
    } else {
        split_step(split_prefix(s, n - 1), s[n - 1])
    }
}

/// The addresses of a header value: trimmed, non-empty pieces between
/// separating commas.
pub open spec fn split_addresses_of(s: Seq<char>) -> Seq<Seq<char>> {
    let st = split_prefix(s, s.len() as int);
    flush(st.out, st.cur)
}

// ---------------------------------------------------------------------------
// Implementation
// ---------------------------------------------------------------------------

/// `String::from_utf8_lossy`, as chars.  Valid UTF-8 decodes as itself.
#[verifier::external_body]
pub(crate) fn lossy_chars(bytes: &[u8]) -> (v: Vec<char>)
    ensures
        v@ == utf8_lossy(bytes@),
        valid_utf8(bytes@) ==> v@ == decode_utf8(bytes@),
        v@.len() <= isize::MAX,
{
    String::from_utf8_lossy(bytes).chars().collect()
}

/// Find the byte offset of the header/body separator in a raw RFC 5322
/// message: the first place where `\r\n\r\n` or `\n\n` starts.
pub fn find_header_end(raw: &[u8]) -> (r: Option<usize>)
    ensures
        match r {
            Some(p) => separator_from(raw@, 0) == Some(p as int),
            None => separator_from(raw@, 0) is None,
        },
{
    let mut i: usize = 0;
    let n = raw.len();
    while i < n
        invariant
            i <= n == raw@.len(),
            separator_from(raw@, 0) == separator_from(raw@, i as int),
        decreases n - i,
    {
        let crlf = n - i >= 4 && raw[i] == 13u8 && raw[i + 1] == 10u8 && raw[i + 2] == 13u8 && raw[i + 3] == 10u8;
        let lf = n - i >= 2 && raw[i] == 10u8 && raw[i + 1] == 10u8;
        if crlf || lf {
            return Some(i);
        }
        i += 1;
    }
    None
}

pub fn index_of_char(s: &[char], c: char, from: usize) -> (r: Option<usize>)
    requires
        from <= s@.len(),
    ensures
        match r {
            Some(k) => index_of_from(s@, c, from as int) == Some(k as int),
            None => index_of_from(s@, c, from as int) is None,
        },
{
    let mut i = from;
    while i < s.len()
        invariant
            from <= i <= s@.len(),
            index_of_from(s@, c, from as int) == index_of_from(s@, c, i as int),
        decreases s@.len() - i,
    {
        if s[i] == c {
            return Some(i);
        }
        i += 1;
    }
    None
}

pub proof fn lemma_index_of_from(s: Seq<char>, c: char, i: int)
    requires
        0 <= i,
    ensures
        index_of_from(s, c, i) matches Some(k) ==> i <= k < s.len() && s[k] == c,
    decreases s.len() - i,
{
    if i < s.len() && s[i] != c {
        lemma_index_of_from(s, c, i + 1);
    }
}

fn last_index_of_char(s: &[char], c: char) -> (r: Option<usize>)
    ensures
        match r {
            Some(k) => last_index_of(s@, c) == Some(k as int),
            None => last_index_of(s@, c) is None,
        },
{
    let mut j = s.len();
    assert(s@.subrange(0, j as int) =~= s@);
    while j > 0
        invariant
            j <= s@.len(),
            last_index_of(s@, c) == last_index_of(s@.subrange(0, j as int), c),
        decreases j,
    {
        let ghost p = s@.subrange(0, j as int);
        assert(p.drop_last() =~= s@.subrange(0, j - 1));
        if s[j - 1] == c {
            return Some(j - 1);
        }
        j -= 1;
    }
    None
}

pub proof fn lemma_last_index_of(s: Seq<char>, c: char)
    ensures
        last_index_of(s, c) matches Some(k) ==> 0 <= k < s.len(),
    decreases s.len(),
{
    if s.len() > 0 && s.last() != c {
        lemma_last_index_of(s.drop_last(), c);
    }
}

/// The headers of a raw message as `(lowercase name, value)` char pairs.
pub fn header_fields(raw: &[u8]) -> (r: Vec<(Vec<char>, Vec<char>)>)
    ensures
        headers_view(r@) == spec_headers(raw@),
{
    let section = match find_header_end(raw) {
        Some(p) => {
            proof {
                lemma_separator_from(raw@, 0);
            }
            vstd::slice::slice_subrange(raw, 0, p)
        },
        None => raw,
    };
    let text = lossy_chars(section);
    let ghost t = text@;
    let mut acc: Vec<(Vec<char>, Vec<char>)> = Vec::new();
    let mut i: usize = 0;
    assert(headers_view(acc@) =~= Seq::<HeaderV>::empty());
    loop
        invariant
            i <= text@.len(),
            t == text@,
            t.len() <= isize::MAX,
            spec_headers(raw@) == header_lines(t, i as int, headers_view(acc@)),
        decreases text@.len() - i,
    {
        let e = find_line_end(text.as_slice(), i);
        proof {
            lemma_line_end_bounds(t, i as int);
        }
        let mut end = e;
        if end > i && text[end - 1] == '\r' {
            end -= 1;
        }
        proof {
            assert(strip_cr(t.subrange(i as int, e as int)) =~= t.subrange(i as int, end as int));
        }
        if end == i {
            return acc;
        }
        let line = slice_to_vec_range(text.as_slice(), i, end);
        apply_line(&mut acc, &line);
        if e >= text.len() {
            return acc;
        }
        i = e + 1;
    }
}

pub open spec fn headers_view(v: Seq<(Vec<char>, Vec<char>)>) -> Seq<HeaderV> {
    v.map_values(|h: (Vec<char>, Vec<char>)| (h.0@, h.1@))
}

proof fn lemma_separator_from(raw: Seq<u8>, i: int)
    requires
        0 <= i,
    ensures
        separator_from(raw, i) matches Some(p) ==> i <= p < raw.len(),
    decreases raw.len() - i,
{
    if i < raw.len() && !separator_at(raw, i) {
        lemma_separator_from(raw, i + 1);
    }
}

fn find_line_end(s: &[char], i: usize) -> (j: usize)
    requires
        i <= s@.len(),
    ensures
        j == line_end(s@, i as int),
{
    let mut j = i;
    while j < s.len() && s[j] != '\n'
        invariant
            i <= j <= s@.len(),
            line_end(s@, i as int) == line_end(s@, j as int),
        decreases s@.len() - j,
    {
        j += 1;
    }
    j
}

fn apply_line(acc: &mut Vec<(Vec<char>, Vec<char>)>, line: &Vec<char>)
    requires
        line@.len() > 0,
    ensures
        headers_view(final(acc)@) == apply_header_line(headers_view(old(acc)@), line@),
{
    let ghost old_v = headers_view(acc@);
    if line[0] == ' ' || line[0] == '\t' {
        if acc.len() > 0 {
            let ghost old_acc = acc@;
            let (name, mut value) = acc.pop().unwrap();
            proof {
                assert(headers_view(acc@) =~= old_v.drop_last());
                assert((name@, value@) == old_v.last());
            }
            let ghost old_value = value@;
            let ghost mid = acc@;
            value.push(' ');
            let t = trim_chars(line.as_slice());
            extend_chars(&mut value, t.as_slice());
            assert(value@ =~= old_value + seq![' '] + trim(line@));
            let ghost nv = (name@, value@);
            acc.push((name, value));
            proof {
                assert(headers_view(acc@) =~= headers_view(mid).push(nv));
                assert(headers_view(acc@) =~= old_v.drop_last().push((old_v.last().0, old_v.last().1 + seq![' '] + trim(line@))));
            }
        }
        return;
    }
    match index_of_char(line.as_slice(), ':', 0) {
        Some(c) => {
            proof {
                lemma_index_of_from(line@, ':', 0);
            }
            let before = slice_to_vec_range(line.as_slice(), 0, c);
            let name = lower_chars(trim_chars(before.as_slice()).as_slice());
            let n = line.len();
            let after = slice_to_vec_range(line.as_slice(), c + 1, n);
            let value = trim_chars(after.as_slice());
            if name.len() > 0 {
                let ghost nv = (name@, value@);
                acc.push((name, value));
                proof {
                    assert(headers_view(acc@) =~= old_v.push(nv));
                }
            }
        },
        None => {},
    }
}

/// Extract all headers from raw RFC 5322 message bytes.
///
/// Returns `Vec<(lowercase_name, value)>`.  Folds continuation lines
/// (lines whose first character is whitespace) into the preceding header's
/// value.  Stops at the first blank line (the header/body separator).
/// Non-UTF-8 bytes are replaced with the Unicode replacement character.
pub fn extract_headers(raw: &[u8]) -> (r: Vec<(String, String)>)
    ensures
        r@.len() == spec_headers(raw@).len(),
        forall|k: int| 0 <= k < r@.len() ==> (#[trigger] r@[k]).0@ == spec_headers(raw@)[k].0 && r@[k].1@ == spec_headers(raw@)[k].1,
{
    let fields = header_fields(raw);
    let mut out: Vec<(String, String)> = Vec::new();
    let mut k: usize = 0;
    while k < fields.len()
        invariant
            k <= fields@.len(),
            headers_view(fields@) == spec_headers(raw@),
            out@.len() == k,
            forall|q: int| 0 <= q < k ==> (#[trigger] out@[q]).0@ == fields@[q].0@ && out@[q].1@ == fields@[q].1@,
        decreases fields@.len() - k,
    {
        let name = string_of(fields[k].0.as_slice());
        let value = string_of(fields[k].1.as_slice());
        out.push((name, value));
        k += 1;
    }
    out
}

fn strip_comment_chars(a: &[char]) -> (r: Vec<char>)
    ensures
        r@ == strip_comment(a@),
{
    let mut in_quotes = false;
    let mut i: usize = 0;
    while i < a.len()
        invariant
            i <= a@.len(),
            unquoted_paren(a@, 0, false) == unquoted_paren(a@, i as int, in_quotes),
        decreases a@.len() - i,
    {
        if a[i] == '"' {
            in_quotes = !in_quotes;
        } else if a[i] == '(' && !in_quotes {
            let head = slice_to_vec_range(a, 0, i);
            return trim_chars(head.as_slice());
        }
        i += 1;
    }
    let r = slice_to_vec_range(a, 0, a.len());
    assert(r@ =~= a@);
    r
}

/// The bare `local@domain` address of an RFC 5322 address string.
pub fn bare_address_chars(addr: &[char]) -> (r: Vec<char>)
    ensures
        r@ == bare_address_of(addr@),
{
    let a = trim_chars(addr);
    let mut depth: usize = 0;
    let mut last: Option<usize> = None;
    let mut i: usize = 0;
    while i < a.len()
        invariant
            i <= a@.len(),
            depth <= i,
            a@ == trim(addr@),
            last matches Some(l) ==> l < i && a@[l as int] == '<',
            last_angle(a@, 0, 0, None) == last_angle(a@, i as int, depth as nat, match last {
                Some(l) => Some(l as int),
                None => None::<int>,
            }),
        decreases a@.len() - i,
    {
        let c = a[i];
        if c == '(' {
            depth += 1;
        } else if c == ')' && depth > 0 {
            depth -= 1;
        } else if c == '<' && depth == 0 {
            last = Some(i);
        }
        i += 1;
    }
    match last {
        Some(st) => {
            match index_of_char(a.as_slice(), '>', st) {
                Some(end) => {
                    proof {
                        lemma_index_of_from(a@, '>', st as int);
                    }
                    let inner = slice_to_vec_range(a.as_slice(), st + 1, end);
                    trim_chars(inner.as_slice())
                },
                None => strip_comment_chars(a.as_slice()),
            }
        },
        None => strip_comment_chars(a.as_slice()),
    }
}

/// One part of an address, as chars.
pub fn address_part_chars(addr: &[char], part: AddressPart) -> (r: Vec<char>)
    ensures
        r@ == address_part_of(addr@, part),
{
    let b = bare_address_chars(addr);
    match part {
        AddressPart::All => b,
        AddressPart::LocalPart => match last_index_of_char(b.as_slice(), '@') {
            Some(at) => {
                proof {
                    lemma_last_index_of(b@, '@');
                }
                slice_to_vec_range(b.as_slice(), 0, at)
            },
            None => Vec::new(),
        },
        AddressPart::Domain => match last_index_of_char(b.as_slice(), '@') {
            Some(at) => {
                proof {
                    lemma_last_index_of(b@, '@');
                }
                let n = b.len();
                slice_to_vec_range(b.as_slice(), at + 1, n)
            },
            None => Vec::new(),
        },
    }
}

/// Extract one part of an RFC 5322 address string.
///
/// The address is first stripped of angle-bracket delimiters and any
/// display-name prefix before extracting the part.  Returns `""` on a
/// malformed address when `LocalPart` or `Domain` was requested.
pub fn address_part(addr: &str, part: AddressPart) -> (r: String)
    ensures
        r@ == address_part_of(addr@, part),
{
    let a = chars_of(addr);
    string_of(address_part_chars(a.as_slice(), part).as_slice())
}

fn flush_piece(out: &mut Vec<Vec<char>>, cur: &[char])
    ensures
        seqs_view(final(out)@) == flush(seqs_view(old(out)@), cur@),
{
    let t = trim_chars(cur);
    if t.len() > 0 {
        let ghost tv = t@;
        let ghost ov = seqs_view(out@);
        out.push(t);
        proof {
            assert(seqs_view(out@) =~= ov.push(tv));
        }
    }
}

pub open spec fn seqs_view(v: Seq<Vec<char>>) -> Seq<Seq<char>> {
    v.map_values(|x: Vec<char>| x@)
}

/// The addresses of a header value, as chars.
pub fn split_address_chars(s: &[char]) -> (r: Vec<Vec<char>>)
    ensures
        seqs_view(r@) == split_addresses_of(s@),
{
    let mut out: Vec<Vec<char>> = Vec::new();
    let mut cur: Vec<char> = Vec::new();
    let mut depth: usize = 0;
    let mut in_quotes = false;
    let mut escaped = false;
    let mut i: usize = 0;
    assert(seqs_view(out@) =~= Seq::<Seq<char>>::empty());
    while i < s.len()
        invariant
            i <= s@.len(),
            depth <= i,
            split_prefix(s@, i as int) == (SplitState { cur: cur@, depth: depth as nat, in_quotes, escaped, out: seqs_view(out@) }),
        decreases s@.len() - i,
    {
        let ch = s[i];
        if escaped {
            escaped = false;
            cur.push(ch);
        } else if ch == '\\' && in_quotes {
            escaped = true;
            cur.push(ch);
        } else if ch == '"' && depth == 0 {
            in_quotes = !in_quotes;
            cur.push(ch);
        } else if ch == '(' && !in_quotes {
            depth += 1;
            cur.push(ch);
        } else if ch == ')' && !in_quotes && depth > 0 {
            depth -= 1;
            cur.push(ch);
        } else if ch == ',' && !in_quotes && depth == 0 {
            flush_piece(&mut out, cur.as_slice());
            cur = Vec::new();
        } else {
            cur.push(ch);
        }
        i += 1;
    }
    flush_piece(&mut out, cur.as_slice());
    out
}

/// Split a header value containing one or more RFC 5322 addresses into
/// individual address strings.
///
/// Splits on `,` while respecting `"..."` quoted strings and `(...)`
/// comments — commas inside those are not treated as separators.
pub fn split_addresses(s: &str) -> (r: Vec<String>)
    ensures
        r@.len() == split_addresses_of(s@).len(),
        forall|k: int| 0 <= k < r@.len() ==> (#[trigger] r@[k])@ == split_addresses_of(s@)[k],
{
    let pieces = split_address_chars(chars_of(s).as_slice());
    let mut out: Vec<String> = Vec::new();
    let mut k: usize = 0;
    while k < pieces.len()
        invariant
            k <= pieces@.len(),
            seqs_view(pieces@) == split_addresses_of(s@),
            out@.len() == k,
            forall|q: int| 0 <= q < k ==> (#[trigger] out@[q])@ == pieces@[q]@,
        decreases pieces@.len() - k,
    {
        out.push(string_of(pieces[k].as_slice()));
        k += 1;
    }
    out
}

} // verus!
