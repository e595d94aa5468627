//! Parser for tag references and the tag-expression language.

use vstd::prelude::*;

use crate::parse::{spec_string, string, ParseError, ParseErrorV};
use crate::search::parse::{query, spec_query};
use crate::search::QueryV;
use crate::tag::{dtag_list_view, hierarchy_view, DTagV, DiscriminatedTag, TagExpression};

verus! {

/// A parsed tag reference: a name and an optional discriminator.
#[derive(Debug, Clone)]
pub struct ParsedTag {
    pub name: String,
    pub discriminator: Option<String>,
}

/// Mathematical model of a [`ParsedTag`]; it coincides with the model of a
/// tag reference.
impl View for ParsedTag {
    type V = DTagV;

    open spec fn view(&self) -> DTagV {
        DTagV {
            name: self.name@,
            discriminator: match self.discriminator {
                Some(ref d) => Some(d@),
                None => None,
            },
        }
    }
}

impl ParsedTag {
    /// The tag reference this parse denotes.
    pub fn into_tag(self) -> (r: DiscriminatedTag)
        ensures
            r@ == self@,
    {
        DiscriminatedTag { name: self.name, discriminator: self.discriminator }
    }
}

/// A tag reference: a string, optionally followed by `#` and a
/// discriminator string.
pub open spec fn spec_discriminated_tag(s: Seq<char>, pos: int) -> Option<(DTagV, int)> {
    match spec_string(s, pos) {
        None => None,
        Some((name, p1)) => if 0 <= p1 < s.len() && s[p1] == '#' {
            match spec_string(s, p1 + 1) {
                Some((d, p2)) => Some((DTagV { name, discriminator: Some(d) }, p2)),
                None => Some((DTagV { name, discriminator: None }, p1)),
            }
        } else {
            Some((DTagV { name, discriminator: None }, p1))
        },
    }
}

/// Executable parser for a tag reference.
pub fn discriminated_tag(chars: &Vec<char>, pos: usize) -> (r: Option<(ParsedTag, usize)>)
    requires
        pos <= chars@.len(),
    ensures
        match r {
            None => spec_discriminated_tag(chars@, pos as int) is None,
            Some((t, p)) => spec_discriminated_tag(chars@, pos as int) == Some((t@, p as int))
                && pos <= p <= chars@.len(),
        },
{
    match string(chars, pos) {
        None => None,
        Some((name, p1)) => {
            if p1 < chars.len() && chars[p1] == '#' {
                match string(chars, p1 + 1) {
                    Some((d, p2)) => Some(
                        (ParsedTag { name, discriminator: Some(d) }, p2),
                    ),
                    None => Some((ParsedTag { name, discriminator: None }, p1)),
                }
            } else {
                Some((ParsedTag { name, discriminator: None }, p1))
            }
        },
    }
}

// ---------------------------------------------------------------------------
// Levels and expressions.
// ---------------------------------------------------------------------------

/// A level: a single tag reference, or a parenthesized, comma-separated
/// list of them.
pub open spec fn spec_tag_sequence(s: Seq<char>, pos: int) -> Option<(Seq<DTagV>, int)> {
    match spec_discriminated_tag(s, pos) {
        Some((dt, p)) => Some((seq![dt], p)),
        None => if 0 <= pos < s.len() && s[pos] == '(' {
            match spec_discriminated_tag(s, pos + 1) {
                None => None,
                Some((d1, p1)) => if !(pos + 1 <= p1 <= s.len()) {
                    None
                } else {
                    let (rest, e) = spec_tag_list_rest(s, p1);
                    if 0 <= e < s.len() && s[e] == ')' {
                        Some((seq![d1] + rest, e + 1))
                    } else {
                        None
                    }
                },
            }
        } else {
            None
        },
    }
}

/// Further comma-separated tag references of a parenthesized level.
pub open spec fn spec_tag_list_rest(s: Seq<char>, pos: int) -> (Seq<DTagV>, int)
    decreases s.len() - pos,
{
    if !(0 <= pos < s.len() && s[pos] == ',') {
        (Seq::empty(), pos)
    } else {
        match spec_discriminated_tag(s, pos + 1) {
            None => (Seq::empty(), pos),
            Some((dt, p2)) => if !(pos + 1 <= p2 <= s.len()) {
                (Seq::empty(), pos)
            } else {
                let (rest, e) = spec_tag_list_rest(s, p2);
                (seq![dt] + rest, e)
            },
        }
    }
}

/// A chain of levels joined by `/`.
pub open spec fn spec_levels(s: Seq<char>, pos: int) -> Option<(Seq<Seq<DTagV>>, int)> {
    match spec_tag_sequence(s, pos) {
        None => None,
        Some((l1, p1)) => if !(pos <= p1 <= s.len()) {
            None
        } else {
            let (rest, e) = spec_levels_rest(s, p1);
            Some((seq![l1] + rest, e))
        },
    }
}

/// Further `/`-joined levels of a chain.
pub open spec fn spec_levels_rest(s: Seq<char>, pos: int) -> (Seq<Seq<DTagV>>, int)
    decreases s.len() - pos,
{
    if !(0 <= pos < s.len() && s[pos] == '/') {
        (Seq::empty(), pos)
    } else {
        match spec_tag_sequence(s, pos + 1) {
            None => (Seq::empty(), pos),
            Some((l, p2)) => if !(pos + 1 <= p2 <= s.len()) {
                (Seq::empty(), pos)
            } else {
                let (rest, e) = spec_levels_rest(s, p2);
                (seq![l] + rest, e)
            },
        }
    }
}

/// The `<query>/levels` form of a tag expression.
pub open spec fn spec_tag_expr_filtered(s: Seq<char>, pos: int) -> Option<
    ((Option<QueryV>, Seq<Seq<DTagV>>), int),
> {
    if 0 <= pos < s.len() && s[pos] == '<' {
        match spec_query(s, pos + 1) {
            None => None,
            Some((q, p1)) => if 0 <= p1 < s.len() && p1 + 1 < s.len() && s[p1] == '>' && s[p1 + 1]
                == '/' {
                match spec_levels(s, p1 + 2) {
                    Some((lv, e)) => Some(((Some(q), lv), e)),
                    None => None,
                }
            } else {
                None
            },
        }
    } else {
        None
    }
}

/// A tag expression: an optional `<query>/` filter clause, then a chain of
/// levels.
pub open spec fn spec_tag_expression(s: Seq<char>, pos: int) -> Option<
    ((Option<QueryV>, Seq<Seq<DTagV>>), int),
> {
    match spec_tag_expr_filtered(s, pos) {
        Some(x) => Some(x),
        None => match spec_levels(s, pos) {
            Some((lv, e)) => Some(((None, lv), e)),
            None => None,
        },
    }
}

/// Executable level parser.
fn tag_sequence(chars: &Vec<char>, pos: usize) -> (r: Option<(Vec<DiscriminatedTag>, usize)>)
    requires
        pos <= chars@.len(),
    ensures
        match r {
            None => spec_tag_sequence(chars@, pos as int) is None,
            Some((l, p)) => spec_tag_sequence(chars@, pos as int) == Some(
                (dtag_list_view(l@), p as int),
            ) && pos <= p <= chars@.len(),
        },
{
    match discriminated_tag(chars, pos) {
        Some((dt, p)) => {
            let mut l: Vec<DiscriminatedTag> = Vec::new();
            let ghost dtv = dt@;
            l.push(dt.into_tag());
            proof {
                assert(dtag_list_view(l@) =~= seq![dtv]);
            }
            Some((l, p))
        },
        None => {
            if pos < chars.len() && chars[pos] == '(' {
                match discriminated_tag(chars, pos + 1) {
                    None => None,
                    Some((d1, p1)) => {
                        let ghost d1v = d1@;
                        let (rest, e) = tag_list_rest(chars, p1);
                        if e < chars.len() && chars[e] == ')' {
                            let ghost restq = rest@;
                            let mut l: Vec<DiscriminatedTag> = Vec::new();
                            l.push(d1.into_tag());
                            let mut rest = rest;
                            l.append(&mut rest);
                            proof {
                                assert(dtag_list_view(l@) =~= seq![d1v] + dtag_list_view(restq));
                            }
                            Some((l, e + 1))
                        } else {
                            None
                        }
                    },
                }
            } else {
                None
            }
        },
    }
}

/// Executable parser for the rest of a parenthesized level.
fn tag_list_rest(chars: &Vec<char>, pos: usize) -> (r: (Vec<DiscriminatedTag>, usize))
    requires
        pos <= chars@.len(),
    ensures
        dtag_list_view(r.0@) == spec_tag_list_rest(chars@, pos as int).0,
        r.1 as int == spec_tag_list_rest(chars@, pos as int).1,
        pos <= r.1 <= chars@.len(),
    decreases chars@.len() - pos,
{
    if !(pos < chars.len() && chars[pos] == ',') {
        let empty: Vec<DiscriminatedTag> = Vec::new();
        proof {
            assert(dtag_list_view(empty@) =~= spec_tag_list_rest(chars@, pos as int).0);
        }
        return (empty, pos);
    }
    match discriminated_tag(chars, pos + 1) {
        None => {
            let empty: Vec<DiscriminatedTag> = Vec::new();
            proof {
                assert(dtag_list_view(empty@) =~= spec_tag_list_rest(chars@, pos as int).0);
            }
            (empty, pos)
        },
        Some((dt, p2)) => {
            let ghost dtv = dt@;
            let (rest, e) = tag_list_rest(chars, p2);
            let ghost restq = rest@;
            let mut l: Vec<DiscriminatedTag> = Vec::new();
            l.push(dt.into_tag());
            let mut rest = rest;
            l.append(&mut rest);
            proof {
                assert(dtag_list_view(l@) =~= seq![dtv] + dtag_list_view(restq));
            }
            (l, e)
        },
    }
}

/// Executable chain-of-levels parser.
fn levels(chars: &Vec<char>, pos: usize) -> (r: Option<(Vec<Vec<DiscriminatedTag>>, usize)>)
    requires
        pos <= chars@.len(),
    ensures
        match r {
            None => spec_levels(chars@, pos as int) is None,
            Some((h, p)) => spec_levels(chars@, pos as int) == Some(
                (hierarchy_view(h@), p as int),
            ) && pos <= p <= chars@.len(),
        },
{
    match tag_sequence(chars, pos) {
        None => None,
        Some((l1, p1)) => {
            let ghost l1v = dtag_list_view(l1@);
            let (rest, e) = levels_rest(chars, p1);
            let ghost restq = rest@;
            let mut h: Vec<Vec<DiscriminatedTag>> = Vec::new();
            h.push(l1);
            let mut rest = rest;
            h.append(&mut rest);
            proof {
                assert(hierarchy_view(h@) =~= seq![l1v] + hierarchy_view(restq));
            }
            Some((h, e))
        },
    }
}

/// Executable parser for the further levels of a chain.
fn levels_rest(chars: &Vec<char>, pos: usize) -> (r: (Vec<Vec<DiscriminatedTag>>, usize))
    requires
        pos <= chars@.len(),
    ensures
        hierarchy_view(r.0@) == spec_levels_rest(chars@, pos as int).0,
        r.1 as int == spec_levels_rest(chars@, pos as int).1,
        pos <= r.1 <= chars@.len(),
    decreases chars@.len() - pos,
{
    if !(pos < chars.len() && chars[pos] == '/') {
        let empty: Vec<Vec<DiscriminatedTag>> = Vec::new();
        proof {
            assert(hierarchy_view(empty@) =~= spec_levels_rest(chars@, pos as int).0);
        }
        return (empty, pos);
    }
    match tag_sequence(chars, pos + 1) {
        None => {
            let empty: Vec<Vec<DiscriminatedTag>> = Vec::new();
            proof {
                assert(hierarchy_view(empty@) =~= spec_levels_rest(chars@, pos as int).0);
            }
            (empty, pos)
        },
        Some((l, p2)) => {
            let ghost lv = dtag_list_view(l@);
            let (rest, e) = levels_rest(chars, p2);
            let ghost restq = rest@;
            let mut h: Vec<Vec<DiscriminatedTag>> = Vec::new();
            h.push(l);
            let mut rest = rest;
            h.append(&mut rest);
            proof {
                assert(hierarchy_view(h@) =~= seq![lv] + hierarchy_view(restq));
            }
            (h, e)
        },
    }
}

/// Executable parser for the `<query>/levels` form.
#[verifier::rlimit(100)]
#[verifier::spinoff_prover]
fn tag_expr_filtered(chars: &Vec<char>, pos: usize) -> (r: Option<(TagExpression, usize)>)
    requires
        pos <= chars@.len(),
    ensures
        match r {
            None => spec_tag_expr_filtered(chars@, pos as int) is None,
            Some((te, p)) => spec_tag_expr_filtered(chars@, pos as int) == Some(
                ((te@.query, te@.hierarchy), p as int),
            ) && pos <= p <= chars@.len(),
        },
{
    if pos < chars.len() && chars[pos] == '<' {
        match query(chars, pos + 1) {
            None => None,
            Some((q, p1)) => {
                if p1 < chars.len() && p1 + 1 < chars.len() && chars[p1] == '>' && chars[p1 + 1]
                    == '/' {
                    match levels(chars, p1 + 2) {
                        Some((h, e)) => Some(
                            (TagExpression { query: Some(q), hierarchy: h }, e),
                        ),
                        None => None,
                    }
                } else {
                    None
                }
            },
        }
    } else {
        None
    }
}

/// Executable tag-expression parser.
pub fn tag_expression(chars: &Vec<char>, pos: usize) -> (r: Option<(TagExpression, usize)>)
    requires
        pos <= chars@.len(),
    ensures
        match r {
            None => spec_tag_expression(chars@, pos as int) is None,
            Some((te, p)) => spec_tag_expression(chars@, pos as int) == Some(
                ((te@.query, te@.hierarchy), p as int),
            ) && pos <= p <= chars@.len(),
        },
{
    match tag_expr_filtered(chars, pos) {
        Some(x) => Some(x),
        None => match levels(chars, pos) {
            Some((h, e)) => Some((TagExpression { query: None, hierarchy: h }, e)),
            None => None,
        },
    }
}

impl DiscriminatedTag {
    /// Parse a tag reference from text, rejecting unconsumed input.
    pub fn parse(text: &str) -> (r: Result<DiscriminatedTag, ParseError>)
        ensures
            match spec_discriminated_tag(text@, 0) {
                None => r matches Err(e) && e@ == ParseErrorV::Parse(text@),
                Some((dt, p)) => if p == text@.len() {
                    r matches Ok(out) && out@ == dt
                } else {
                    r matches Err(e) && e@ == ParseErrorV::ParserDidNotFinish(text@.skip(p))
                },
            },
    {
        let chars = crate::parse::str_to_chars(text);
        match discriminated_tag(&chars, 0) {
            None => Err(ParseError::Parse(String::from_str(text))),
            Some((dt, p)) => {
                if p < chars.len() {
                    Err(ParseError::ParserDidNotFinish(crate::parse::chars_suffix(&chars, p)))
                } else {
                    Ok(dt.into_tag())
                }
            },
        }
    }
}

impl TagExpression {
    /// Parse a tag expression from text, rejecting unconsumed input.
    pub fn parse(text: &str) -> (r: Result<TagExpression, ParseError>)
        ensures
            match spec_tag_expression(text@, 0) {
                None => r matches Err(e) && e@ == ParseErrorV::Parse(text@),
                Some(((q, h), p)) => if p == text@.len() {
                    r matches Ok(out) && out@.query == q && out@.hierarchy == h
                } else {
                    r matches Err(e) && e@ == ParseErrorV::ParserDidNotFinish(text@.skip(p))
                },
            },
    {
        let chars = crate::parse::str_to_chars(text);
        match tag_expression(&chars, 0) {
            None => Err(ParseError::Parse(String::from_str(text))),
            Some((te, p)) => {
                if p < chars.len() {
                    Err(ParseError::ParserDidNotFinish(crate::parse::chars_suffix(&chars, p)))
                } else {
                    Ok(te)
                }
            },
        }
    }
}

} // verus!
