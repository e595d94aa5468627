//! Tests of the query language: parsing, canonicalization, rendering.

use chronicle::parse::{str_to_chars, ParseError};
use chronicle::search::parse::{query, term, term_kind};
use chronicle::search::{hash_t, Query, QueryTerm};

fn parse(text: &str) -> Query {
    Query::parse(text).unwrap()
}

#[test]
fn test_normalization() {
    let query1 = parse("a b c");
    let query2 = parse("a c b");
    let query3 = parse("c b a");

    assert_eq!(hash_t(&query1), hash_t(&query2));
    assert_eq!(hash_t(&query1), hash_t(&query3));
}

#[test]
fn test_deep_normalization() {
    let query1 = parse("(a or b) and (c or d) and not e");
    let query2 = parse("(d or c) and not e (a or b)");

    assert_eq!(hash_t(&query1), hash_t(&query2));
}

#[test]
fn test_repetitive_normalization() {
    let query1 = parse("a");
    let query2 = parse("a a a a a");
    let query3 = parse("a:a");

    assert_eq!(hash_t(&query1), hash_t(&query2));
    assert_ne!(hash_t(&query1), hash_t(&query3));
}

#[test]
fn test_term_kind() {
    for kind in &[
        "t", "title", "tag", "a", "artist", "author", "c", "caption", "u", "url",
    ] {
        let chars = str_to_chars(kind);
        let (text, pos) = term_kind(&chars, 0).expect("kind should match");
        assert_eq!(text, *kind);
        assert_eq!(pos, chars.len());
    }

    assert!(term_kind(&str_to_chars(""), 0).is_none());
    assert!(term_kind(&str_to_chars("notakind"), 0).is_none());
    let ti = str_to_chars("ti");
    let (text, pos) = term_kind(&ti, 0).expect("prefix should match");
    assert_eq!(text, "t");
    assert_eq!(pos, 1);
}

#[test]
fn test_term() {
    let chars = str_to_chars("t:Splatoon");
    let (t, pos) = term(&chars, 0).expect("term should parse");
    assert_eq!(pos, chars.len());
    assert!(matches!(t, QueryTerm::Title(s) if s == "Splatoon"));

    let chars = str_to_chars("t:\"Ace Attorney\"");
    let (t, pos) = term(&chars, 0).expect("term should parse");
    assert_eq!(pos, chars.len());
    assert!(matches!(t, QueryTerm::Title(s) if s == "Ace Attorney"));

    let chars = str_to_chars("arlefuri");
    let (t, pos) = term(&chars, 0).expect("term should parse");
    assert_eq!(pos, chars.len());
    assert!(matches!(t, QueryTerm::Tag(dt) if dt.name == "arlefuri" && dt.discriminator.is_none()));
}

#[test]
fn parse_test_query() {
    let chars = str_to_chars("arlecchino and (furina or yae_miko t:\"title here\" -silly)");
    let (q, pos) = query(&chars, 0).expect("query should parse");
    assert_eq!(pos, chars.len());

    let and = match q {
        Query::And(ts) => ts,
        other => panic!("expected And, got {other:?}"),
    };
    assert_eq!(and.len(), 2);
    assert!(matches!(&and[0], Query::Term(QueryTerm::Tag(dt)) if dt.name == "arlecchino"));
    let or = match &and[1] {
        Query::Or(ts) => ts,
        other => panic!("expected Or, got {other:?}"),
    };
    assert_eq!(or.len(), 2);
    assert!(matches!(&or[0], Query::Term(QueryTerm::Tag(dt)) if dt.name == "furina"));
    let inner = match &or[1] {
        Query::And(ts) => ts,
        other => panic!("expected And, got {other:?}"),
    };
    assert_eq!(inner.len(), 3);
    assert!(matches!(&inner[0], Query::Term(QueryTerm::Tag(dt)) if dt.name == "yae_miko"));
    assert!(matches!(&inner[1], Query::Term(QueryTerm::Title(s)) if s == "title here"));
    match &inner[2] {
        Query::Not(b) => {
            assert!(matches!(&**b, Query::Term(QueryTerm::Tag(dt)) if dt.name == "silly"))
        }
        other => panic!("expected Not, got {other:?}"),
    }
}

#[test]
fn test_round_trip() {
    // Parsing the display form back reproduces the canonical tree, over a
    // representative set of shapes: terms of every kind, negation, nesting,
    // and discriminated tags.
    for text in &[
        "a",
        "a b c",
        "a, b, c",
        "(a or b) and (c or d) and not e",
        "t:x u:y c:z author:w",
        "-(a b)",
        "tag:\"x y\"",
    ] {
        let q = parse(text);
        let rendered = q.to_query_string();
        let reparsed = parse(&rendered);
        assert_eq!(
            hash_t(&q),
            hash_t(&reparsed),
            "round trip changed {text:?} (rendered {rendered:?})"
        );
    }
}

#[test]
fn test_display_form() {
    assert_eq!(parse("a").to_query_string(), "tag:\"a\"");
    assert_eq!(parse("a b").to_query_string(), parse("b a").to_query_string());
    assert_eq!(parse("t:x").to_query_string(), "title:\"x\"");
    assert_eq!(parse("a:x").to_query_string(), "author:\"x\"");
    assert_eq!(parse("c:x").to_query_string(), "caption:\"x\"");
    assert_eq!(parse("u:x").to_query_string(), "url:\"x\"");
    assert_eq!(parse("n#d").to_query_string(), "tag:\"n#d\"");
}

#[test]
fn test_parse_errors() {
    match Query::parse("(") {
        Err(ParseError::Parse(_)) => {}
        other => panic!("expected a parse failure, got {other:?}"),
    }
    match Query::parse("a)") {
        Err(ParseError::ParserDidNotFinish(rest)) => assert_eq!(rest, ")"),
        other => panic!("expected trailing input, got {other:?}"),
    }
}

#[test]
fn test_lowercasing() {
    // The read path lower-cases its input before parsing.
    assert_eq!(hash_t(&parse("A B")), hash_t(&parse("a b")));
    assert_eq!(hash_t(&parse("TAG:X")), hash_t(&parse("tag:x")));
}

#[test]
fn test_query_tree_rendering() {
    assert_eq!(parse("a").write_query_tree(), "tag:\"a\"\n");
    assert_eq!(parse("-a").write_query_tree(), "-tag:\"a\"\n");
    let tree = parse("a b").write_query_tree();
    assert!(tree.starts_with("AND (\n"));
    assert!(tree.ends_with(")\n"));
    assert!(tree.contains("  tag:\"a\"\n"));
    assert!(tree.contains("  tag:\"b\"\n"));
    let tree = parse("a, b").write_query_tree();
    assert!(tree.starts_with("OR (\n"));
}

#[test]
fn test_operation_count() {
    assert_eq!(parse("a").operation_count(), 1);
    assert_eq!(parse("a b").operation_count(), 3);
    assert_eq!(parse("-(a, b)").operation_count(), 4);
}

#[test]
fn test_table_name_determinism() {
    let q1 = parse("a b c");
    let q2 = parse("c a b");
    assert_eq!(q1.table_name(), q2.table_name());
    let name = q1.table_name();
    assert!(name.starts_with('t'));
    assert!(!name[1..].starts_with('0'), "no leading zeros in {name}");
    assert_eq!(&name[1..], chronicle::utils::hash_t_hex(&q1));
    assert_ne!(parse("a").table_name(), parse("b").table_name());
}

#[test]
fn test_constructors() {
    let q = parse("a").and(vec![parse("b")]);
    assert!(matches!(&q, Query::And(ts) if ts.len() == 2));
    let q = parse("a").or(vec![parse("b")]);
    assert!(matches!(&q, Query::Or(ts) if ts.len() == 2));
    let q = parse("a").not();
    assert!(matches!(&q, Query::Not(_)));
    let q = Query::new_and(vec![parse("a")]);
    assert!(matches!(&q, Query::Term(_)));
    let q = Query::new_or(vec![parse("a"), parse("b")]);
    assert!(matches!(&q, Query::Or(_)));
}

#[test]
fn test_hex_rendering() {
    assert_eq!(chronicle::utils::to_hex(0), "0");
    assert_eq!(chronicle::utils::to_hex(255), "FF");
    assert_eq!(chronicle::utils::to_hex(0x81486), "81486");
    assert_eq!(chronicle::utils::to_hex(0xDEADBEEF), "DEADBEEF");
    assert_eq!(chronicle::utils::to_hex32(0), "00000000");
    assert_eq!(chronicle::utils::to_hex32(255), "000000FF");
    assert_eq!(chronicle::utils::to_hex32(0xDEADBEEF), "DEADBEEF");
}

#[test]
fn test_limit_len() {
    assert_eq!(chronicle::utils::limit_len("short", 10), "short");
    assert_eq!(chronicle::utils::limit_len("hello world", 8), "hello...");
    assert_eq!(chronicle::utils::limit_len("abc", 3), "abc");
}

#[test]
fn test_model_kind_names() {
    assert_eq!(chronicle::ModelKind::Work.as_str(), "Work");
    assert_eq!(chronicle::ModelKind::Author.as_str(), "Author");
    assert_eq!(chronicle::ModelKind::Tag.as_str(), "Tag");
}
