//! Shared lexical rules of the two languages: identifiers, quoted strings,
//! special-character runs, and the parse error type.
//!
//! Parsers work on a character sequence and a cursor position; each returns
//! the parsed value and the position after it, or nothing when its rule does
//! not apply at the cursor. Every parser's result is pinned down by a spec
//! function of the same shape.

use vstd::prelude::*;

verus! {

/// An error from parsing one of the two languages.
#[derive(Debug, Clone)]
pub enum ParseError {
    /// The grammar could not derive a result from the input (which is
    /// carried for context).
    Parse(String),
    /// The grammar matched a prefix but left unconsumed text: the exact
    /// offending suffix is carried.
    ParserDidNotFinish(String),
}

/// Mathematical model of a [`ParseError`].
pub enum ParseErrorV {
    Parse(Seq<char>),
    ParserDidNotFinish(Seq<char>),
}

impl View for ParseError {
    type V = ParseErrorV;

    open spec fn view(&self) -> ParseErrorV {
        match self {
            ParseError::Parse(s) => ParseErrorV::Parse(s@),
            ParseError::ParserDidNotFinish(s) => ParseErrorV::ParserDidNotFinish(s@),
        }
    }
}

impl ParseError {
    /// The text carried by the error.
    pub fn text(&self) -> (r: &str)
        ensures
            self is Parse ==> ParseErrorV::Parse(r@) == self@,
            self is ParserDidNotFinish ==> ParseErrorV::ParserDidNotFinish(r@) == self@,
    {
        match self {
            ParseError::Parse(s) => s.as_str(),
            ParseError::ParserDidNotFinish(s) => s.as_str(),
        }
    }
}

/// Whether a character beyond ASCII counts as alphanumeric; the exact
/// class is the one the standard library implements.
pub uninterp spec fn is_alphanumeric_beyond_ascii(c: char) -> bool;

/// Whether a character counts as alphanumeric: on ASCII, exactly the
/// letters and digits; beyond ASCII, whatever the standard library's
/// Unicode tables say.
pub open spec fn is_alphanumeric_char(c: char) -> bool {
    if (c as u32) < 128 {
        ('a' <= c && c <= 'z') || ('A' <= c && c <= 'Z') || ('0' <= c && c <= '9')
    } else {
        is_alphanumeric_beyond_ascii(c)
    }
}

/// Relies on char::is_alphanumeric: the result depends on the character
/// alone, and on ASCII it holds exactly for the letters and digits.
pub assume_specification[ char::is_alphanumeric ](c: char) -> (r: bool)
    ensures
        r == is_alphanumeric_char(c),
        (c as u32) >= 128 ==> r == is_alphanumeric_beyond_ascii(c),
;

/// Whitespace accepted between tokens: spaces and tabs.
pub open spec fn is_space(c: char) -> bool {
    c == ' ' || c == '\t'
}

/// The permitted punctuation of quoted strings.
pub open spec fn is_special(c: char) -> bool {
    c == '$' || c == '.' || c == '+' || c == '!' || c == '*' || c == '\'' || c == '(' || c == ')'
        || c == ',' || c == ';' || c == '/' || c == '?' || c == ':' || c == '@' || c == '=' || c
        == '&'
}

/// A character that may continue an identifier.
pub open spec fn is_ident_char(c: char) -> bool {
    is_alphanumeric_char(c) || c == '_' || c == '-'
}

/// A quote character.
pub open spec fn is_quote(c: char) -> bool {
    c == '\'' || c == '"'
}

/// Executable test for [`is_space`].
pub fn is_space_c(c: char) -> (r: bool)
    ensures
        r == is_space(c),
{
    c == ' ' || c == '\t'
}

/// Executable test for [`is_special`].
pub fn is_special_c(c: char) -> (r: bool)
    ensures
        r == is_special(c),
{
    c == '$' || c == '.' || c == '+' || c == '!' || c == '*' || c == '\'' || c == '(' || c == ')'
        || c == ',' || c == ';' || c == '/' || c == '?' || c == ':' || c == '@' || c == '=' || c
        == '&'
}

/// Executable test for [`is_ident_char`].
pub fn is_ident_c(c: char) -> (r: bool)
    ensures
        r == is_ident_char(c),
{
    c.is_alphanumeric() || c == '_' || c == '-'
}

/// Executable test for [`is_quote`].
pub fn is_quote_c(c: char) -> (r: bool)
    ensures
        r == is_quote(c),
{
    c == '\'' || c == '"'
}

/// The characters of a string, for the cursor-based parsers.
pub fn str_to_chars(s: &str) -> (r: Vec<char>)
    ensures
        r@ == s@,
{
    let len = s.unicode_len();
    let mut out: Vec<char> = Vec::new();
    let mut i: usize = 0;
    while i < len
        invariant
            0 <= i <= len,
            len == s@.len(),
            out@ =~= s@.take(i as int),
        decreases len - i,
    {
        out.push(s.get_char(i));
        proof {
            assert(out@ =~= s@.take(i as int + 1));
        }
        i = i + 1;
    }
    proof {
        assert(out@ =~= s@);
    }
    out
}

/// A string holding the characters `s[from..]`, for error reporting.
pub fn chars_suffix(chars: &Vec<char>, from: usize) -> (r: String)
    requires
        from <= chars@.len(),
    ensures
        r@ == chars@.skip(from as int),
{
    let mut out = String::new();
    let mut i: usize = from;
    while i < chars.len()
        invariant
            from <= i <= chars@.len(),
            out@ =~= chars@.subrange(from as int, i as int),
        decreases chars@.len() - i,
    {
        let one = char_to_string(chars[i]);
        out.append(one.as_str());
        proof {
            assert(out@ =~= chars@.subrange(from as int, i as int + 1));
        }
        i = i + 1;
    }
    proof {
        assert(out@ =~= chars@.skip(from as int));
    }
    out
}

/// Relies on String's FromIterator (via char::to_string): the returned
/// string holds exactly the one character.
#[verifier::external_body]
fn char_to_string(c: char) -> (r: String)
    ensures
        r@ == seq![c],
{
    c.to_string()
}

// ---------------------------------------------------------------------------
// Scanners.
// ---------------------------------------------------------------------------

/// The end of the identifier-character run starting at `j`.
pub open spec fn spec_scan_ident(s: Seq<char>, j: int) -> int
    decreases s.len() - j,
{
    if 0 <= j < s.len() && is_ident_char(s[j]) {
        spec_scan_ident(s, j + 1)
    } else {
        j
    }
}

/// The end of the whitespace run starting at `j`.
pub open spec fn spec_scan_space(s: Seq<char>, j: int) -> int
    decreases s.len() - j,
{
    if 0 <= j < s.len() && is_space(s[j]) {
        spec_scan_space(s, j + 1)
    } else {
        j
    }
}

/// The end of the special-character run starting at `j`.
pub open spec fn spec_scan_special(s: Seq<char>, j: int) -> int
    decreases s.len() - j,
{
    if 0 <= j < s.len() && is_special(s[j]) {
        spec_scan_special(s, j + 1)
    } else {
        j
    }
}

/// Scanners never move the cursor backwards, and never past the end.
pub proof fn lemma_scan_bounds(s: Seq<char>, j: int)
    requires
        0 <= j <= s.len(),
    ensures
        j <= spec_scan_ident(s, j) <= s.len(),
        j <= spec_scan_space(s, j) <= s.len(),
        j <= spec_scan_special(s, j) <= s.len(),
    decreases s.len() - j,
{
    if j < s.len() {
        lemma_scan_bounds(s, j + 1);
    }
}

/// An identifier: an alphanumeric character, then any run of alphanumerics,
/// `_` and `-`. Yields the characters and the position after them.
pub open spec fn spec_identifier(s: Seq<char>, pos: int) -> Option<(Seq<char>, int)> {
    if 0 <= pos < s.len() && is_alphanumeric_char(s[pos]) {
        let e = spec_scan_ident(s, pos + 1);
        Some((s.subrange(pos, e), e))
    } else {
        None
    }
}

/// Whether `s[j]` may continue the inside of a quoted string whose content
/// started at `start`: whitespace, alphanumerics and the permitted
/// punctuation always may; `_` and `-` only as the continuation of an
/// identifier chunk.
pub open spec fn ok_inner_char(s: Seq<char>, j: int, start: int) -> bool {
    is_space(s[j]) || is_alphanumeric_char(s[j]) || is_special(s[j]) || ((s[j] == '_' || s[j]
        == '-') && j > start && is_ident_char(s[j - 1]))
}

/// The end of the quoted-string content starting at `start`.
pub open spec fn spec_inner_end(s: Seq<char>, j: int, start: int) -> int
    decreases s.len() - j,
{
    if 0 <= j < s.len() && ok_inner_char(s, j, start) {
        spec_inner_end(s, j + 1, start)
    } else {
        j
    }
}

/// The inner scanner never moves backwards, and never past the end.
pub proof fn lemma_inner_end_bounds(s: Seq<char>, j: int, start: int)
    requires
        0 <= j <= s.len(),
    ensures
        j <= spec_inner_end(s, j, start) <= s.len(),
    decreases s.len() - j,
{
    if j < s.len() {
        lemma_inner_end_bounds(s, j + 1, start);
    }
}


/// The quoted-string scanner runs exactly to the first position that
/// cannot continue the content.
pub proof fn lemma_inner_scan(s: Seq<char>, j: int, e: int, start: int)
    requires
        0 <= j <= e <= s.len(),
        forall|i: int| j <= i < e ==> ok_inner_char(s, i, start),
        e < s.len() ==> !ok_inner_char(s, e, start),
    ensures
        spec_inner_end(s, j, start) == e,
    decreases e - j,
{
    if j < e {
        lemma_inner_scan(s, j + 1, e, start);
    }
}

/// A string: either quoted content between two (not necessarily matching)
/// quotes, or a bare identifier.
pub open spec fn spec_string(s: Seq<char>, pos: int) -> Option<(Seq<char>, int)> {
    if 0 <= pos < s.len() && is_quote(s[pos]) {
        let e = spec_inner_end(s, pos + 1, pos + 1);
        if e > pos + 1 && e < s.len() && is_quote(s[e]) {
            Some((s.subrange(pos + 1, e), e + 1))
        } else {
            spec_identifier(s, pos)
        }
    } else {
        spec_identifier(s, pos)
    }
}

/// Executable scan of an identifier run.
fn scan_ident(chars: &Vec<char>, j: usize) -> (r: usize)
    requires
        j <= chars@.len(),
    ensures
        r == spec_scan_ident(chars@, j as int),
        j <= r <= chars@.len(),
{
    let mut k = j;
    while k < chars.len() && is_ident_c(chars[k])
        invariant
            j <= k <= chars@.len(),
            spec_scan_ident(chars@, j as int) == spec_scan_ident(chars@, k as int),
        decreases chars@.len() - k,
    {
        k = k + 1;
    }
    k
}

/// Executable scan of a whitespace run.
pub fn scan_space(chars: &Vec<char>, j: usize) -> (r: usize)
    requires
        j <= chars@.len(),
    ensures
        r == spec_scan_space(chars@, j as int),
        j <= r <= chars@.len(),
{
    let mut k = j;
    while k < chars.len() && is_space_c(chars[k])
        invariant
            j <= k <= chars@.len(),
            spec_scan_space(chars@, j as int) == spec_scan_space(chars@, k as int),
        decreases chars@.len() - k,
    {
        k = k + 1;
    }
    k
}

/// Executable scan of the quoted-string content.
fn scan_inner(chars: &Vec<char>, j: usize, start: usize) -> (r: usize)
    requires
        j <= chars@.len(),
    ensures
        r == spec_inner_end(chars@, j as int, start as int),
        j <= r <= chars@.len(),
{
    let mut k = j;
    while k < chars.len() && (is_space_c(chars[k]) || chars[k].is_alphanumeric() || is_special_c(
        chars[k],
    ) || ((chars[k] == '_' || chars[k] == '-') && k > start && is_ident_c(chars[k - 1])))
        invariant
            j <= k <= chars@.len(),
            spec_inner_end(chars@, j as int, start as int) == spec_inner_end(
                chars@,
                k as int,
                start as int,
            ),
        decreases chars@.len() - k,
    {
        k = k + 1;
    }
    proof {
        if k < chars@.len() {
            assert(!ok_inner_char(chars@, k as int, start as int));
        }
    }
    k
}

/// Executable identifier parser.
pub fn identifier(chars: &Vec<char>, pos: usize) -> (r: Option<(String, usize)>)
    requires
        pos <= chars@.len(),
    ensures
        match r {
            None => spec_identifier(chars@, pos as int) is None,
            Some((t, p)) => spec_identifier(chars@, pos as int) == Some((t@, p as int)) && pos
                <= p <= chars@.len(),
        },
{
    if pos < chars.len() && chars[pos].is_alphanumeric() {
        let e = scan_ident(chars, pos + 1);
        let text = chars_range(chars, pos, e);
        Some((text, e))
    } else {
        None
    }
}

/// A string holding the characters `s[from..to]`.
pub fn chars_range(chars: &Vec<char>, from: usize, to: usize) -> (r: String)
    requires
        from <= to <= chars@.len(),
    ensures
        r@ == chars@.subrange(from as int, to as int),
{
    let mut out = String::new();
    let mut i: usize = from;
    while i < to
        invariant
            from <= i <= to <= chars@.len(),
            out@ =~= chars@.subrange(from as int, i as int),
        decreases to - i,
    {
        let one = char_to_string(chars[i]);
        out.append(one.as_str());
        proof {
            assert(out@ =~= chars@.subrange(from as int, i as int + 1));
        }
        i = i + 1;
    }
    out
}

/// Executable string parser: quoted content or a bare identifier.
pub fn string(chars: &Vec<char>, pos: usize) -> (r: Option<(String, usize)>)
    requires
        pos <= chars@.len(),
    ensures
        match r {
            None => spec_string(chars@, pos as int) is None,
            Some((t, p)) => spec_string(chars@, pos as int) == Some((t@, p as int)) && pos <= p
                <= chars@.len(),
        },
{
    if pos < chars.len() && is_quote_c(chars[pos]) {
        let e = scan_inner(chars, pos + 1, pos + 1);
        if e > pos + 1 && e < chars.len() && is_quote_c(chars[e]) {
            let text = chars_range(chars, pos + 1, e);
            return Some((text, e + 1));
        }
    }
    identifier(chars, pos)
}

} // verus!
