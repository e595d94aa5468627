//! Parser for the query language.
//!
//! Grammar, loosest to tightest: an or-sequence of and-sequences of
//! factors; a factor is a parenthesized group, a term, or a negation of a
//! factor. Terms are `kind:string` with a fixed alias table, or a bare tag
//! reference. The parsers are cursor-based over a character sequence, and
//! every executable parser is pinned to a spec function of the same shape.

use vstd::prelude::*;

use crate::parse::{
    is_space, is_space_c, spec_scan_space, scan_space, spec_string, string, ParseError,
};
use crate::search::{Query, QueryTerm, QueryV, TermV, query_list_view, lemma_query_views,
    lemma_query_list_view_push, spec_normalize};
use crate::tag::parse::{discriminated_tag, spec_discriminated_tag};

verus! {

/// What `str::to_lowercase` returns for the given characters.
pub uninterp spec fn lower_of(s: Seq<char>) -> Seq<char>;

/// Relies on str::to_lowercase: the result depends on the characters alone.
#[verifier::external_body]
pub(crate) fn lowercase(s: &str) -> (r: String)
    ensures
        r@ == lower_of(s@),
{
    s.to_lowercase()
}

/// A literal matched at `pos`: the position after it, if the characters
/// are there.
pub open spec fn spec_match_lit(s: Seq<char>, pos: int, lit: Seq<char>) -> Option<int> {
    if 0 <= pos && pos + lit.len() <= s.len() && s.subrange(pos, pos + lit.len()) == lit {
        Some(pos + lit.len())
    } else {
        None
    }
}

/// Executable literal match.
fn match_lit(chars: &Vec<char>, pos: usize, lit: &str) -> (r: Option<usize>)
    requires
        pos <= chars@.len(),
    ensures
        match r {
            None => spec_match_lit(chars@, pos as int, lit@) is None,
            Some(p) => spec_match_lit(chars@, pos as int, lit@) == Some(p as int) && pos <= p
                <= chars@.len(),
        },
{
    let llen = lit.unicode_len();
    let clen = chars.len();
    if clen - pos < llen {
        return None;
    }
    let mut i: usize = 0;
    while i < llen
        invariant
            0 <= i <= llen,
            llen == lit@.len(),
            clen == chars@.len(),
            pos + llen <= clen,
            forall|k: int| 0 <= k < i ==> chars@[pos + k] == lit@[k],
        decreases llen - i,
    {
        if chars[pos + i] != lit.get_char(i) {
            proof {
                assert(chars@.subrange(pos as int, pos + lit@.len())[i as int] != lit@[i as int]);
            }
            return None;
        }
        i = i + 1;
    }
    proof {
        assert(chars@.subrange(pos as int, pos + lit@.len()) =~= lit@);
    }
    Some(pos + llen)
}

// ---------------------------------------------------------------------------
// Term kinds and terms.
// ---------------------------------------------------------------------------

/// The alias table of term kinds, tried in order: the first literal that
/// matches at `pos` wins.
pub open spec fn spec_term_kind(s: Seq<char>, pos: int) -> Option<(Seq<char>, int)> {
    if let Some(p) = spec_match_lit(s, pos, "tag"@) {
        Some(("tag"@, p))
    } else if let Some(p) = spec_match_lit(s, pos, "title"@) {
        Some(("title"@, p))
    } else if let Some(p) = spec_match_lit(s, pos, "artist"@) {
        Some(("artist"@, p))
    } else if let Some(p) = spec_match_lit(s, pos, "author"@) {
        Some(("author"@, p))
    } else if let Some(p) = spec_match_lit(s, pos, "caption"@) {
        Some(("caption"@, p))
    } else if let Some(p) = spec_match_lit(s, pos, "url"@) {
        Some(("url"@, p))
    } else if let Some(p) = spec_match_lit(s, pos, "t"@) {
        Some(("t"@, p))
    } else if let Some(p) = spec_match_lit(s, pos, "a"@) {
        Some(("a"@, p))
    } else if let Some(p) = spec_match_lit(s, pos, "c"@) {
        Some(("c"@, p))
    } else if let Some(p) = spec_match_lit(s, pos, "u"@) {
        Some(("u"@, p))
    } else {
        None
    }
}

/// Executable term-kind parser: the matched alias and the position after
/// it.
pub fn term_kind(chars: &Vec<char>, pos: usize) -> (r: Option<(String, usize)>)
    requires
        pos <= chars@.len(),
    ensures
        match r {
            None => spec_term_kind(chars@, pos as int) is None,
            Some((k, p)) => spec_term_kind(chars@, pos as int) == Some((k@, p as int)) && pos < p
                <= chars@.len(),
        },
{
    proof {
        lemma_kind_literals();
    }
    if let Some(p) = match_lit(chars, pos, "tag") {
        Some((String::from_str("tag"), p))
    } else if let Some(p) = match_lit(chars, pos, "title") {
        Some((String::from_str("title"), p))
    } else if let Some(p) = match_lit(chars, pos, "artist") {
        Some((String::from_str("artist"), p))
    } else if let Some(p) = match_lit(chars, pos, "author") {
        Some((String::from_str("author"), p))
    } else if let Some(p) = match_lit(chars, pos, "caption") {
        Some((String::from_str("caption"), p))
    } else if let Some(p) = match_lit(chars, pos, "url") {
        Some((String::from_str("url"), p))
    } else if let Some(p) = match_lit(chars, pos, "t") {
        Some((String::from_str("t"), p))
    } else if let Some(p) = match_lit(chars, pos, "a") {
        Some((String::from_str("a"), p))
    } else if let Some(p) = match_lit(chars, pos, "c") {
        Some((String::from_str("c"), p))
    } else if let Some(p) = match_lit(chars, pos, "u") {
        Some((String::from_str("u"), p))
    } else {
        None
    }
}

/// A `kind:content` term.
pub open spec fn spec_tagged_term(s: Seq<char>, pos: int) -> Option<(TermV, int)> {
    match spec_term_kind(s, pos) {
        None => None,
        Some((k, p1)) => match spec_match_lit(s, p1, ":"@) {
            None => None,
            Some(p2) => if k == "tag"@ {
                match spec_discriminated_tag(s, p2) {
                    Some((dt, p3)) => Some((TermV::Tag(dt), p3)),
                    None => None,
                }
            } else if k == "t"@ || k == "title"@ {
                match spec_string(s, p2) {
                    Some((t, p3)) => Some((TermV::Title(t), p3)),
                    None => None,
                }
            } else if k == "a"@ || k == "artist"@ || k == "author"@ {
                match spec_string(s, p2) {
                    Some((t, p3)) => Some((TermV::Author(t), p3)),
                    None => None,
                }
            } else if k == "c"@ || k == "caption"@ {
                match spec_string(s, p2) {
                    Some((t, p3)) => Some((TermV::Caption(t), p3)),
                    None => None,
                }
            } else {
                match spec_string(s, p2) {
                    Some((t, p3)) => Some((TermV::Url(t), p3)),
                    None => None,
                }
            },
        },
    }
}

/// The distinct alias literals, spelled out for the dispatch proof.
proof fn lemma_kind_literals()
    ensures
        "tag"@ =~= seq!['t', 'a', 'g'],
        "title"@ =~= seq!['t', 'i', 't', 'l', 'e'],
        "artist"@ =~= seq!['a', 'r', 't', 'i', 's', 't'],
        "author"@ =~= seq!['a', 'u', 't', 'h', 'o', 'r'],
        "caption"@ =~= seq!['c', 'a', 'p', 't', 'i', 'o', 'n'],
        "url"@ =~= seq!['u', 'r', 'l'],
        "t"@ =~= seq!['t'],
        "a"@ =~= seq!['a'],
        "c"@ =~= seq!['c'],
        "u"@ =~= seq!['u'],
{
    reveal_strlit("tag");
    reveal_strlit("title");
    reveal_strlit("artist");
    reveal_strlit("author");
    reveal_strlit("caption");
    reveal_strlit("url");
    reveal_strlit("t");
    reveal_strlit("a");
    reveal_strlit("c");
    reveal_strlit("u");
}

/// Executable `kind:content` term parser.
fn tagged_term(chars: &Vec<char>, pos: usize) -> (r: Option<(QueryTerm, usize)>)
    requires
        pos <= chars@.len(),
    ensures
        match r {
            None => spec_tagged_term(chars@, pos as int) is None,
            Some((t, p)) => spec_tagged_term(chars@, pos as int) == Some((t@, p as int)) && pos
                <= p <= chars@.len(),
        },
{
    proof {
        lemma_kind_literals();
    }
    let kind = term_kind(chars, pos);
    match kind {
        None => None,
        Some((k, p1)) => {
            match match_lit(chars, p1, ":") {
                None => None,
                Some(p2) => {
                    proof {
                        reveal_strlit(":");
                    }
                    if k.as_str().unicode_len() == 3 && k.as_str().get_char(0) == 't' {
                        // "tag"
                        match discriminated_tag(chars, p2) {
                            Some((dt, p3)) => Some((QueryTerm::Tag(dt.into_tag()), p3)),
                            None => None,
                        }
                    } else if k.as_str().unicode_len() == 1 && k.as_str().get_char(0) == 't'
                        || k.as_str().unicode_len() == 5 {
                        // "t" | "title"
                        match string(chars, p2) {
                            Some((t, p3)) => Some((QueryTerm::Title(t), p3)),
                            None => None,
                        }
                    } else if k.as_str().unicode_len() == 1 && k.as_str().get_char(0) == 'a'
                        || k.as_str().unicode_len() == 6 {
                        // "a" | "artist" | "author"
                        match string(chars, p2) {
                            Some((t, p3)) => Some((QueryTerm::Author(t), p3)),
                            None => None,
                        }
                    } else if k.as_str().unicode_len() == 1 && k.as_str().get_char(0) == 'c'
                        || k.as_str().unicode_len() == 7 {
                        // "c" | "caption"
                        match string(chars, p2) {
                            Some((t, p3)) => Some((QueryTerm::Caption(t), p3)),
                            None => None,
                        }
                    } else {
                        // "u" | "url"
                        match string(chars, p2) {
                            Some((t, p3)) => Some((QueryTerm::Url(t), p3)),
                            None => None,
                        }
                    }
                },
            }
        },
    }
}

// ---------------------------------------------------------------------------
// Separators.
// ---------------------------------------------------------------------------

/// An AND separator: `and` or `&`, with optional whitespace around it.
pub open spec fn spec_and_sep(s: Seq<char>, pos: int) -> Option<int> {
    let p0 = spec_scan_space(s, pos);
    match spec_match_lit(s, p0, "and"@) {
        Some(p) => Some(spec_scan_space(s, p)),
        None => match spec_match_lit(s, p0, "&"@) {
            Some(p) => Some(spec_scan_space(s, p)),
            None => None,
        },
    }
}

/// An OR separator: `or`, `|` or `,`, with optional whitespace around it.
pub open spec fn spec_or_sep(s: Seq<char>, pos: int) -> Option<int> {
    let p0 = spec_scan_space(s, pos);
    match spec_match_lit(s, p0, "or"@) {
        Some(p) => Some(spec_scan_space(s, p)),
        None => match spec_match_lit(s, p0, "|"@) {
            Some(p) => Some(spec_scan_space(s, p)),
            None => match spec_match_lit(s, p0, ","@) {
                Some(p) => Some(spec_scan_space(s, p)),
                None => None,
            },
        },
    }
}

/// A negation: `not` followed by whitespace, `!`, or `-`.
pub open spec fn spec_not_sep(s: Seq<char>, pos: int) -> Option<int> {
    let word = match spec_match_lit(s, pos, "not"@) {
        Some(p) => if 0 <= p < s.len() && is_space(s[p]) {
            Some(spec_scan_space(s, p + 1))
        } else {
            None
        },
        None => None,
    };
    match word {
        Some(p) => Some(p),
        None => match spec_match_lit(s, pos, "!"@) {
            Some(p) => Some(p),
            None => spec_match_lit(s, pos, "-"@),
        },
    }
}

/// Executable AND separator.
fn and_sep(chars: &Vec<char>, pos: usize) -> (r: Option<usize>)
    requires
        pos <= chars@.len(),
    ensures
        match r {
            None => spec_and_sep(chars@, pos as int) is None,
            Some(p) => spec_and_sep(chars@, pos as int) == Some(p as int) && pos < p
                <= chars@.len(),
        },
{
    let p0 = scan_space(chars, pos);
    if let Some(p) = match_lit(chars, p0, "and") {
        proof {
            reveal_strlit("and");
        }
        Some(scan_space(chars, p))
    } else if let Some(p) = match_lit(chars, p0, "&") {
        proof {
            reveal_strlit("&");
        }
        Some(scan_space(chars, p))
    } else {
        None
    }
}

/// Executable OR separator.
fn or_sep(chars: &Vec<char>, pos: usize) -> (r: Option<usize>)
    requires
        pos <= chars@.len(),
    ensures
        match r {
            None => spec_or_sep(chars@, pos as int) is None,
            Some(p) => spec_or_sep(chars@, pos as int) == Some(p as int) && pos < p
                <= chars@.len(),
        },
{
    let p0 = scan_space(chars, pos);
    if let Some(p) = match_lit(chars, p0, "or") {
        proof {
            reveal_strlit("or");
        }
        Some(scan_space(chars, p))
    } else if let Some(p) = match_lit(chars, p0, "|") {
        proof {
            reveal_strlit("|");
        }
        Some(scan_space(chars, p))
    } else if let Some(p) = match_lit(chars, p0, ",") {
        proof {
            reveal_strlit(",");
        }
        Some(scan_space(chars, p))
    } else {
        None
    }
}

/// Executable negation separator.
fn not_sep(chars: &Vec<char>, pos: usize) -> (r: Option<usize>)
    requires
        pos <= chars@.len(),
    ensures
        match r {
            None => spec_not_sep(chars@, pos as int) is None,
            Some(p) => spec_not_sep(chars@, pos as int) == Some(p as int) && pos < p
                <= chars@.len(),
        },
{
    proof {
        reveal_strlit("not");
        reveal_strlit("!");
        reveal_strlit("-");
    }
    if let Some(p) = match_lit(chars, pos, "not") {
        if p < chars.len() && is_space_c(chars[p]) {
            return Some(scan_space(chars, p + 1));
        }
    }
    if let Some(p) = match_lit(chars, pos, "!") {
        Some(p)
    } else {
        match_lit(chars, pos, "-")
    }
}

/// A term: not a separator, then a `kind:content` term or a bare tag
/// reference.
pub open spec fn spec_term(s: Seq<char>, pos: int) -> Option<(TermV, int)> {
    if spec_and_sep(s, pos) is Some || spec_or_sep(s, pos) is Some {
        None
    } else {
        match spec_tagged_term(s, pos) {
            Some(x) => Some(x),
            None => match spec_discriminated_tag(s, pos) {
                Some((dt, p)) => Some((TermV::Tag(dt), p)),
                None => None,
            },
        }
    }
}

/// Executable term parser.
pub fn term(chars: &Vec<char>, pos: usize) -> (r: Option<(QueryTerm, usize)>)
    requires
        pos <= chars@.len(),
    ensures
        match r {
            None => spec_term(chars@, pos as int) is None,
            Some((t, p)) => spec_term(chars@, pos as int) == Some((t@, p as int)) && pos <= p
                <= chars@.len(),
        },
{
    if and_sep(chars, pos).is_some() || or_sep(chars, pos).is_some() {
        return None;
    }
    match tagged_term(chars, pos) {
        Some(x) => Some(x),
        None => match discriminated_tag(chars, pos) {
            Some((dt, p)) => Some((QueryTerm::Tag(dt.into_tag()), p)),
            None => None,
        },
    }
}

// ---------------------------------------------------------------------------
// Factors, sequences and the query entry point.
//
// The mutually recursive rules all decrease the pair (remaining input,
// rule rank).
// ---------------------------------------------------------------------------

/// A factor: a parenthesized group, a term, or a negation of a factor (a
/// negation of a negation needs parentheses).
pub open spec fn spec_term_query(s: Seq<char>, pos: int) -> Option<(QueryV, int)>
    decreases s.len() - pos, 1int,
{
    if pos < 0 || pos > s.len() {
        None
    } else {
        match spec_paren_query(s, pos) {
            Some(x) => Some(x),
            None => match spec_term(s, pos) {
                Some((t, p)) => Some((QueryV::Term(t), p)),
                None => match spec_not_sep(s, pos) {
                    None => None,
                    Some(p1) => if !(pos < p1 <= s.len()) {
                        None
                    } else if spec_not_sep(s, p1) is Some {
                        None
                    } else {
                        match spec_term_query(s, p1) {
                            Some((q, p2)) => Some((QueryV::Not(Box::new(q)), p2)),
                            None => None,
                        }
                    },
                },
            },
        }
    }
}

/// A parenthesized group.
pub open spec fn spec_paren_query(s: Seq<char>, pos: int) -> Option<(QueryV, int)>
    decreases s.len() - pos, 0int,
{
    if 0 <= pos < s.len() && s[pos] == '(' {
        match spec_query(s, pos + 1) {
            Some((q, p)) => if 0 <= p < s.len() && s[p] == ')' {
                Some((q, p + 1))
            } else {
                None
            },
            None => None,
        }
    } else {
        None
    }
}

/// An and-sequence: factors joined by AND separators or bare whitespace.
/// A single factor stands for itself.
pub open spec fn spec_and_sequence(s: Seq<char>, pos: int) -> Option<(QueryV, int)>
    decreases s.len() - pos, 3int,
{
    if pos < 0 || pos > s.len() {
        None
    } else {
        match spec_term_query(s, pos) {
            None => None,
            Some((q1, p1)) => if !(pos <= p1 <= s.len()) {
                None
            } else {
                let (rest, e) = spec_and_rest(s, p1);
                if rest.len() == 0 {
                    Some((q1, e))
                } else {
                    Some((QueryV::And(seq![q1] + rest), e))
                }
            },
        }
    }
}

/// Further factors of an and-sequence: separator, then a factor that is
/// not itself an OR separator.
pub open spec fn spec_and_rest(s: Seq<char>, pos: int) -> (Seq<QueryV>, int)
    decreases s.len() - pos, 2int,
{
    if pos < 0 || pos > s.len() {
        (Seq::empty(), pos)
    } else {
        let sep = match spec_and_sep(s, pos) {
            Some(p) => Some(p),
            None => if 0 <= pos < s.len() && is_space(s[pos]) {
                Some(spec_scan_space(s, pos + 1))
            } else {
                None
            },
        };
        match sep {
            None => (Seq::empty(), pos),
            Some(p1) => if !(pos < p1 <= s.len()) {
                (Seq::empty(), pos)
            } else if spec_or_sep(s, p1) is Some {
                (Seq::empty(), pos)
            } else {
                match spec_term_query(s, p1) {
                    None => (Seq::empty(), pos),
                    Some((q, p2)) => if !(p1 <= p2 <= s.len()) {
                        (Seq::empty(), pos)
                    } else {
                        let (rest, e) = spec_and_rest(s, p2);
                        (seq![q] + rest, e)
                    },
                }
            },
        }
    }
}

/// An or-sequence: and-sequences joined by OR separators. A single
/// and-sequence stands for itself.
pub open spec fn spec_or_sequence(s: Seq<char>, pos: int) -> Option<(QueryV, int)>
    decreases s.len() - pos, 5int,
{
    if pos < 0 || pos > s.len() {
        None
    } else {
        match spec_and_sequence(s, pos) {
            None => None,
            Some((q1, p1)) => if !(pos <= p1 <= s.len()) {
                None
            } else {
                let (rest, e) = spec_or_rest(s, p1);
                if rest.len() == 0 {
                    Some((q1, e))
                } else {
                    Some((QueryV::Or(seq![q1] + rest), e))
                }
            },
        }
    }
}

/// Further and-sequences of an or-sequence.
pub open spec fn spec_or_rest(s: Seq<char>, pos: int) -> (Seq<QueryV>, int)
    decreases s.len() - pos, 4int,
{
    if pos < 0 || pos > s.len() {
        (Seq::empty(), pos)
    } else {
        match spec_or_sep(s, pos) {
            None => (Seq::empty(), pos),
            Some(p1) => if !(pos < p1 <= s.len()) {
                (Seq::empty(), pos)
            } else {
                match spec_and_sequence(s, p1) {
                    None => (Seq::empty(), pos),
                    Some((q, p2)) => if !(p1 <= p2 <= s.len()) {
                        (Seq::empty(), pos)
                    } else {
                        let (rest, e) = spec_or_rest(s, p2);
                        (seq![q] + rest, e)
                    },
                }
            },
        }
    }
}

/// A whole query: an or-sequence with optional whitespace around it.
pub open spec fn spec_query(s: Seq<char>, pos: int) -> Option<(QueryV, int)>
    decreases s.len() - pos, 6int,
{
    if pos < 0 || pos > s.len() {
        None
    } else {
        let p0 = spec_scan_space(s, pos);
        let p0 = if pos <= p0 <= s.len() {
            p0
        } else {
            pos
        };
        match spec_or_sequence(s, p0) {
            None => None,
            Some((q, p1)) => if !(p0 <= p1 <= s.len()) {
                None
            } else {
                Some((q, spec_scan_space(s, p1)))
            },
        }
    }
}

/// Executable factor parser.
fn term_query(chars: &Vec<char>, pos: usize) -> (r: Option<(Query, usize)>)
    requires
        pos <= chars@.len(),
    ensures
        match r {
            None => spec_term_query(chars@, pos as int) is None,
            Some((q, p)) => spec_term_query(chars@, pos as int) == Some((q@, p as int)) && pos
                <= p <= chars@.len(),
        },
    decreases chars@.len() - pos, 1int,
{
    match paren_query(chars, pos) {
        Some(x) => Some(x),
        None => match term(chars, pos) {
            Some((t, p)) => Some((Query::Term(t), p)),
            None => match not_sep(chars, pos) {
                None => None,
                Some(p1) => {
                    if not_sep(chars, p1).is_some() {
                        None
                    } else {
                        match term_query(chars, p1) {
                            Some((q, p2)) => Some((Query::Not(Box::new(q)), p2)),
                            None => None,
                        }
                    }
                },
            },
        },
    }
}

/// Executable parenthesized-group parser.
fn paren_query(chars: &Vec<char>, pos: usize) -> (r: Option<(Query, usize)>)
    requires
        pos <= chars@.len(),
    ensures
        match r {
            None => spec_paren_query(chars@, pos as int) is None,
            Some((q, p)) => spec_paren_query(chars@, pos as int) == Some((q@, p as int)) && pos
                <= p <= chars@.len(),
        },
    decreases chars@.len() - pos, 0int,
{
    if pos < chars.len() && chars[pos] == '(' {
        match query(chars, pos + 1) {
            Some((q, p)) => {
                if p < chars.len() && chars[p] == ')' {
                    Some((q, p + 1))
                } else {
                    None
                }
            },
            None => None,
        }
    } else {
        None
    }
}

/// Executable and-sequence parser.
#[verifier::rlimit(50)]
#[verifier::spinoff_prover]
fn and_sequence(chars: &Vec<char>, pos: usize) -> (r: Option<(Query, usize)>)
    requires
        pos <= chars@.len(),
    ensures
        match r {
            None => spec_and_sequence(chars@, pos as int) is None,
            Some((q, p)) => spec_and_sequence(chars@, pos as int) == Some((q@, p as int)) && pos
                <= p <= chars@.len(),
        },
    decreases chars@.len() - pos, 3int,
{
    match term_query(chars, pos) {
        None => None,
        Some((q1, p1)) => {
            let (rest, e) = and_rest(chars, p1);
            if rest.len() == 0 {
                proof {
                    lemma_query_views(rest@);
                }
                Some((q1, e))
            } else {
                let ghost q1c = q1;
                let ghost restq = rest@;
                let mut all: Vec<Query> = Vec::new();
                all.push(q1);
                let mut rest = rest;
                all.append(&mut rest);
                proof {
                    lemma_query_views(all@);
                    lemma_query_views(restq);
                    assert(all@ =~= seq![q1c] + restq);
                    assert(query_list_view(all@, 0) =~= seq![q1c@] + spec_and_rest(
                        chars@,
                        p1 as int,
                    ).0);
                }
                Some((Query::And(all), e))
            }
        },
    }
}

/// Executable parser for the further factors of an and-sequence.
fn and_rest(chars: &Vec<char>, pos: usize) -> (r: (Vec<Query>, usize))
    requires
        pos <= chars@.len(),
    ensures
        query_list_view(r.0@, 0) == spec_and_rest(chars@, pos as int).0,
        r.1 as int == spec_and_rest(chars@, pos as int).1,
        pos <= r.1 <= chars@.len(),
    decreases chars@.len() - pos, 2int,
{
    let sep: Option<usize> = match and_sep(chars, pos) {
        Some(p) => Some(p),
        None => {
            if pos < chars.len() && is_space_c(chars[pos]) {
                Some(scan_space(chars, pos + 1))
            } else {
                None
            }
        },
    };
    match sep {
        None => {
            let empty: Vec<Query> = Vec::new();
            proof {
                lemma_query_views(empty@);
                assert(query_list_view(empty@, 0) =~= spec_and_rest(chars@, pos as int).0);
            }
            (empty, pos)
        },
        Some(p1) => {
            if or_sep(chars, p1).is_some() {
                let empty: Vec<Query> = Vec::new();
                proof {
                    lemma_query_views(empty@);
                    assert(query_list_view(empty@, 0) =~= spec_and_rest(chars@, pos as int).0);
                }
                return (empty, pos);
            }
            match term_query(chars, p1) {
                None => {
                    let empty: Vec<Query> = Vec::new();
                    proof {
                        lemma_query_views(empty@);
                        assert(query_list_view(empty@, 0) =~= spec_and_rest(chars@, pos as int).0);
                    }
                    (empty, pos)
                },
                Some((q, p2)) => {
                    let ghost qc = q;
                    let (rest, e) = and_rest(chars, p2);
                    let ghost restq = rest@;
                    let mut all: Vec<Query> = Vec::new();
                    all.push(q);
                    let mut rest = rest;
                    all.append(&mut rest);
                    proof {
                        lemma_query_views(all@);
                        lemma_query_views(restq);
                        assert(all@ =~= seq![qc] + restq);
                        assert(query_list_view(all@, 0) =~= seq![qc@] + spec_and_rest(
                            chars@,
                            p2 as int,
                        ).0);
                    }
                    (all, e)
                },
            }
        },
    }
}

/// Executable or-sequence parser.
#[verifier::rlimit(50)]
#[verifier::spinoff_prover]
fn or_sequence(chars: &Vec<char>, pos: usize) -> (r: Option<(Query, usize)>)
    requires
        pos <= chars@.len(),
    ensures
        match r {
            None => spec_or_sequence(chars@, pos as int) is None,
            Some((q, p)) => spec_or_sequence(chars@, pos as int) == Some((q@, p as int)) && pos
                <= p <= chars@.len(),
        },
    decreases chars@.len() - pos, 5int,
{
    match and_sequence(chars, pos) {
        None => None,
        Some((q1, p1)) => {
            let (rest, e) = or_rest(chars, p1);
            if rest.len() == 0 {
                proof {
                    lemma_query_views(rest@);
                }
                Some((q1, e))
            } else {
                let ghost q1c = q1;
                let ghost restq = rest@;
                let mut all: Vec<Query> = Vec::new();
                all.push(q1);
                let mut rest = rest;
                all.append(&mut rest);
                proof {
                    lemma_query_views(all@);
                    lemma_query_views(restq);
                    assert(all@ =~= seq![q1c] + restq);
                    assert(query_list_view(all@, 0) =~= seq![q1c@] + spec_or_rest(
                        chars@,
                        p1 as int,
                    ).0);
                }
                Some((Query::Or(all), e))
            }
        },
    }
}

/// Executable parser for the further and-sequences of an or-sequence.
fn or_rest(chars: &Vec<char>, pos: usize) -> (r: (Vec<Query>, usize))
    requires
        pos <= chars@.len(),
    ensures
        query_list_view(r.0@, 0) == spec_or_rest(chars@, pos as int).0,
        r.1 as int == spec_or_rest(chars@, pos as int).1,
        pos <= r.1 <= chars@.len(),
    decreases chars@.len() - pos, 4int,
{
    match or_sep(chars, pos) {
        None => {
            let empty: Vec<Query> = Vec::new();
            proof {
                lemma_query_views(empty@);
                assert(query_list_view(empty@, 0) =~= spec_or_rest(chars@, pos as int).0);
            }
            (empty, pos)
        },
        Some(p1) => {
            match and_sequence(chars, p1) {
                None => {
                    let empty: Vec<Query> = Vec::new();
                    proof {
                        lemma_query_views(empty@);
                        assert(query_list_view(empty@, 0) =~= spec_or_rest(chars@, pos as int).0);
                    }
                    (empty, pos)
                },
                Some((q, p2)) => {
                    let ghost qc = q;
                    let (rest, e) = or_rest(chars, p2);
                    let ghost restq = rest@;
                    let mut all: Vec<Query> = Vec::new();
                    all.push(q);
                    let mut rest = rest;
                    all.append(&mut rest);
                    proof {
                        lemma_query_views(all@);
                        lemma_query_views(restq);
                        assert(all@ =~= seq![qc] + restq);
                        assert(query_list_view(all@, 0) =~= seq![qc@] + spec_or_rest(
                            chars@,
                            p2 as int,
                        ).0);
                    }
                    (all, e)
                },
            }
        },
    }
}

/// Executable whole-query parser.
pub fn query(chars: &Vec<char>, pos: usize) -> (r: Option<(Query, usize)>)
    requires
        pos <= chars@.len(),
    ensures
        match r {
            None => spec_query(chars@, pos as int) is None,
            Some((q, p)) => spec_query(chars@, pos as int) == Some((q@, p as int)) && pos <= p
                <= chars@.len(),
        },
    decreases chars@.len() - pos, 6int,
{
    let p0 = scan_space(chars, pos);
    match or_sequence(chars, p0) {
        None => None,
        Some((q, p1)) => Some((q, scan_space(chars, p1))),
    }
}

impl Query {
    /// Parse a query from text: the input is lower-cased, parsed, rejected
    /// when the grammar does not consume all of it, and normalized.
    pub fn parse(text: &str) -> (r: Result<Query, ParseError>)
        ensures
            ({
                let low = lower_of(text@);
                match spec_query(low, 0) {
                    None => r matches Err(e) && e@ == crate::parse::ParseErrorV::Parse(low),
                    Some((q, p)) => if p == low.len() {
                        r matches Ok(out) && out@ == spec_normalize(q)
                    } else {
                        r matches Err(e) && e@ == crate::parse::ParseErrorV::ParserDidNotFinish(
                            low.skip(p),
                        )
                    },
                }
            }),
    {
        let low = lowercase(text);
        let chars = crate::parse::str_to_chars(low.as_str());
        match query(&chars, 0) {
            None => Err(ParseError::Parse(low)),
            Some((q, p)) => {
                if p < chars.len() {
                    Err(ParseError::ParserDidNotFinish(crate::parse::chars_suffix(&chars, p)))
                } else {
                    Ok(q.into_normalized())
                }
            },
        }
    }
}

/// LAW (round trip, at the leaf) - the display form of a bare,
/// undiscriminated tag term over a nonempty alphanumeric name parses back
/// to exactly that term, consuming the whole rendering. Deeper round trips
/// are exercised by tests; discriminated tags are excluded because `#` is
/// not quoted-string content, so their display form does not reparse.
pub proof fn lemma_tag_term_round_trip(name: Seq<char>)
    requires
        name.len() > 0,
        forall|i: int| 0 <= i < name.len() ==> crate::parse::is_alphanumeric_char(
            #[trigger] name[i],
        ),
    ensures
        ({
            let t = TermV::Tag(crate::tag::DTagV { name, discriminator: None });
            let s = crate::search::spec_display_term(t);
            spec_query(s, 0) == Some((QueryV::Term(t), s.len() as int))
        }),
{
    reveal_strlit("tag:\"");
    reveal_strlit("\"");
    reveal_strlit("tag");
    reveal_strlit(":");
    reveal_strlit("and");
    reveal_strlit("&");
    reveal_strlit("or");
    reveal_strlit("|");
    reveal_strlit(",");
    let t = TermV::Tag(crate::tag::DTagV { name, discriminator: None });
    let s = crate::search::spec_display_term(t);
    let n = name.len() as int;
    assert(s =~= "tag:\""@ + name + "\""@);
    assert(s.len() == n + 6);
    assert(s[0] == 't' && s[1] == 'a' && s[2] == 'g' && s[3] == ':' && s[4] == '"');
    assert(forall|i: int| 5 <= i < 5 + n ==> s[i] == #[trigger] name[i - 5]);
    assert(s[5 + n] == '"');
    // No leading whitespace, and no separator can match at the start.
    assert(spec_scan_space(s, 0) == 0);
    assert(spec_match_lit(s, 0, "and"@) is None) by {
        if s.subrange(0, 3) == "and"@ {
            assert(s.subrange(0, 3)[0] == 'a');
        }
    }
    assert(spec_match_lit(s, 0, "&"@) is None) by {
        if 0 + "&"@.len() <= s.len() && s.subrange(0, 1) == "&"@ {
            assert(s.subrange(0, 1)[0] == '&');
        }
    }
    assert(spec_match_lit(s, 0, "or"@) is None) by {
        if 0 + "or"@.len() <= s.len() && s.subrange(0, 2) == "or"@ {
            assert(s.subrange(0, 2)[0] == 'o');
        }
    }
    assert(spec_match_lit(s, 0, "|"@) is None) by {
        if 0 + "|"@.len() <= s.len() && s.subrange(0, 1) == "|"@ {
            assert(s.subrange(0, 1)[0] == '|');
        }
    }
    assert(spec_match_lit(s, 0, ","@) is None) by {
        if 0 + ","@.len() <= s.len() && s.subrange(0, 1) == ","@ {
            assert(s.subrange(0, 1)[0] == ',');
        }
    }
    assert(spec_and_sep(s, 0) is None);
    assert(spec_or_sep(s, 0) is None);
    // The term kind and the colon.
    assert(spec_match_lit(s, 0, "tag"@) == Some(3int)) by {
        assert(s.subrange(0, 3) =~= "tag"@);
    }
    assert(spec_term_kind(s, 0) == Some(("tag"@, 3int)));
    assert(spec_match_lit(s, 3, ":"@) == Some(4int)) by {
        assert(s.subrange(3, 4) =~= ":"@);
    }
    // The quoted name.
    assert(crate::parse::is_quote(s[4]));
    assert(crate::parse::spec_inner_end(s, 5, 5) == 5 + n) by {
        assert(forall|i: int|
            5 <= i < 5 + n ==> crate::parse::ok_inner_char(s, i, 5));
        assert(!crate::parse::ok_inner_char(s, 5 + n, 5)) by {
            assert(s[5 + n] == '"');
            assert(!crate::parse::is_alphanumeric_char('"'));
            assert(!crate::parse::is_space('"'));
            assert(!crate::parse::is_special('"'));
        }
        crate::parse::lemma_inner_scan(s, 5, 5 + n, 5);
    }
    assert(crate::parse::is_quote(s[5 + n]));
    assert(crate::parse::spec_string(s, 4) == Some((name, s.len() as int))) by {
        assert(s.subrange(5, 5 + n) =~= name);
    }
    assert(crate::tag::parse::spec_discriminated_tag(s, 4) == Some(
        (crate::tag::DTagV { name, discriminator: None }, s.len() as int),
    ));
    assert(spec_tagged_term(s, 0) == Some((t, s.len() as int)));
    assert(spec_term(s, 0) == Some((t, s.len() as int)));
    // The factor, the sequences, and the whole query consume everything.
    assert(spec_paren_query(s, 0) is None);
    assert(spec_term_query(s, 0) == Some((QueryV::Term(t), s.len() as int)));
    let e = s.len() as int;
    assert(spec_scan_space(s, e) == e);
    assert(spec_match_lit(s, e, "and"@) is None);
    assert(spec_match_lit(s, e, "&"@) is None);
    assert(spec_match_lit(s, e, "or"@) is None);
    assert(spec_match_lit(s, e, "|"@) is None);
    assert(spec_match_lit(s, e, ","@) is None);
    assert(spec_and_sep(s, e) is None);
    assert(spec_or_sep(s, e) is None);
    assert(spec_and_rest(s, e) == (Seq::<QueryV>::empty(), e));
    assert(spec_and_sequence(s, 0) == Some((QueryV::Term(t), e)));
    assert(spec_or_rest(s, e) == (Seq::<QueryV>::empty(), e));
    assert(spec_or_sequence(s, 0) == Some((QueryV::Term(t), e)));
    assert(spec_query(s, 0) == Some((QueryV::Term(t), e)));
}

} // verus!
