//! Tests of the catalog: search execution, the tag hierarchy, closure,
//! tag-expression execution, and records.

use chronicle::catalog::Catalog;
use chronicle::search::builder::{PlanStep, SearchQueryBuilder};
use chronicle::models::{Work, WorkId};
use chronicle::record::{Record, RecordDetails};
use chronicle::search::Query;
use chronicle::tag::TagExpression;

fn work(path: &str, title: Option<&str>, caption: Option<&str>, url: Option<&str>) -> Work {
    Work {
        path: path.to_string(),
        work_id: WorkId(0),
        size: 0,
        title: title.map(str::to_string),
        author_id: None,
        caption: caption.map(str::to_string),
        url: url.map(str::to_string),
        hash: 0,
    }
}

fn ids(works: &[Work]) -> Vec<u64> {
    let mut v: Vec<u64> = works.iter().map(|w| w.work_id.0).collect();
    v.sort();
    v
}

#[test]
fn test_get_or_create_idempotent() {
    let mut cat = Catalog::new();
    let t1 = cat.get_discriminated_or_create("cat", None);
    let t2 = cat.get_discriminated_or_create("cat", None);
    assert_eq!(t1.id.0, t2.id.0);
    assert_eq!(cat.tags.len(), 1);
    let t3 = cat.get_discriminated_or_create("cat", Some("animal"));
    assert_ne!(t1.id.0, t3.id.0);
    assert_eq!(cat.tags.len(), 2);
}

#[test]
fn test_tag_lookup() {
    let mut cat = Catalog::new();
    cat.get_discriminated_or_create("cat", None);
    cat.get_discriminated_or_create("cat", Some("band"));
    assert!(cat.try_get_discriminated("cat", None).is_some());
    assert!(cat.try_get_discriminated("dog", None).is_none());
    assert!(cat.get_discriminated("dog", None).is_err());
    assert_eq!(cat.get("cat").len(), 2);
    assert_eq!(cat.get("dog").len(), 0);
    assert_eq!(
        cat.try_get_discriminated("cat", Some("band")).unwrap().to_text(),
        "cat#band"
    );
}

#[test]
fn test_edge_inserts_idempotent() {
    let mut cat = Catalog::new();
    let w = cat.add_work(work("w", None, None, None));
    let t = cat.get_discriminated_or_create("cat", None);
    assert!(cat.tag_work(w, t.id));
    assert!(!cat.tag_work(w, t.id));
    let u = cat.get_discriminated_or_create("animal", None);
    assert!(cat.add_implication(t.id, u.id));
    assert!(!cat.add_implication(t.id, u.id));
}

#[test]
fn test_closure_termination_on_cycle() {
    // A cyclic implication graph must not hang the closure and must return
    // the finite reachable set.
    let mut cat = Catalog::new();
    let a = cat.get_discriminated_or_create("a", None);
    let b = cat.get_discriminated_or_create("b", None);
    cat.add_implication(a.id, b.id);
    cat.add_implication(b.id, a.id);
    let mut reach: Vec<u64> = cat.closure(a.id).iter().map(|t| t.0).collect();
    reach.sort();
    assert_eq!(reach, vec![a.id.0, b.id.0]);
}

#[test]
fn test_closure_direction() {
    let mut cat = Catalog::new();
    let cat_tag = cat.get_discriminated_or_create("cat", None);
    let animal = cat.get_discriminated_or_create("animal", None);
    cat.add_implication(cat_tag.id, animal.id);
    let from_cat: Vec<u64> = cat.closure(cat_tag.id).iter().map(|t| t.0).collect();
    assert!(from_cat.contains(&animal.id.0));
    let from_animal: Vec<u64> = cat.closure(animal.id).iter().map(|t| t.0).collect();
    assert_eq!(from_animal, vec![animal.id.0]);
}

#[test]
fn test_end_to_end_hierarchy_direction() {
    // Works W1 tagged "cat" and W2 tagged "animal", with the implication
    // edge cat -> animal. The closure follows edges outward from the query
    // tag, so querying the source tag "cat" also matches works tagged only
    // with the broader "animal", while querying "animal" matches only W2.
    let mut cat = Catalog::new();
    let w1 = cat.add_work(work("w1", None, None, None));
    let w2 = cat.add_work(work("w2", None, None, None));
    let t_cat = cat.get_discriminated_or_create("cat", None);
    let t_animal = cat.get_discriminated_or_create("animal", None);
    cat.tag_work(w1, t_cat.id);
    cat.tag_work(w2, t_animal.id);
    cat.add_implication(t_cat.id, t_animal.id);

    let by_animal = cat.search_by_str("tag:animal").unwrap();
    assert_eq!(ids(&by_animal), vec![w2.0]);

    let by_cat = cat.search_by_str("tag:cat").unwrap();
    assert_eq!(ids(&by_cat), vec![w1.0, w2.0]);
}

#[test]
fn test_search_terms() {
    let mut cat = Catalog::new();
    let w1 = cat.add_work(work("w1", Some("Deep Blue Sea"), None, None));
    let w2 = cat.add_work(work(
        "w2",
        Some("red sky"),
        Some("a blue caption"),
        Some("https://example.test/2"),
    ));
    let a = cat.add_author("hazel");
    cat.works[w2.0 as usize].author_id = Some(a);

    // Substring match on title and caption; exact match on url and author.
    assert_eq!(ids(&cat.search_by_str("title:blue").unwrap()), vec![w1.0]);
    assert_eq!(ids(&cat.search_by_str("t:sky").unwrap()), vec![w2.0]);
    assert_eq!(ids(&cat.search_by_str("c:blue").unwrap()), vec![w2.0]);
    assert_eq!(
        ids(&cat.search_by_str("u:\"https://example.test/2\"").unwrap()),
        vec![w2.0]
    );
    assert_eq!(ids(&cat.search_by_str("author:hazel").unwrap()), vec![w2.0]);
    assert_eq!(ids(&cat.search_by_str("a:nobody").unwrap()), vec![]);

    // Boolean structure.
    assert_eq!(ids(&cat.search_by_str("t:sky, t:sea").unwrap()), vec![w1.0, w2.0]);
    assert_eq!(ids(&cat.search_by_str("t:sky t:sea").unwrap()), vec![]);
    assert_eq!(ids(&cat.search_by_str("-t:sky").unwrap()), vec![w1.0]);
    assert_eq!(ids(&cat.search_by_str("t:blue c:blue").unwrap()), vec![]);
    assert_eq!(ids(&cat.search_by_str("tag:none").unwrap()), vec![]);
    assert_eq!(cat.get_all().len(), 2);
}

#[test]
fn test_expression() {
    let expr = TagExpression::parse("a/(b,c)/d").unwrap();
    assert!(expr.query.is_none());
    let names: Vec<Vec<String>> = expr
        .hierarchy
        .iter()
        .map(|l| l.iter().map(|t| t.name.clone()).collect())
        .collect();
    assert_eq!(
        names,
        vec![vec!["a".to_string()], vec!["b".to_string(), "c".to_string()], vec![
            "d".to_string()
        ]]
    );
    for level in &expr.hierarchy {
        for t in level {
            assert!(t.discriminator.is_none());
        }
    }
}

#[test]
fn test_query() {
    let expr = TagExpression::parse("<hello>/world").unwrap();
    match &expr.query {
        Some(Query::Term(chronicle::search::QueryTerm::Tag(dt))) => {
            assert_eq!(dt.name, "hello");
            assert!(dt.discriminator.is_none());
        }
        other => panic!("expected a tag-term filter, got {other:?}"),
    }
    assert_eq!(expr.hierarchy.len(), 1);
    assert_eq!(expr.hierarchy[0].len(), 1);
    assert_eq!(expr.hierarchy[0][0].name, "world");
}

#[test]
fn test_approximate_connections() {
    let expr = TagExpression::parse("a/(b,c)/d").unwrap();
    assert_eq!(expr.approximate_connections(), 1 * 2 + 2 * 1);
    let expr = TagExpression::parse("a").unwrap();
    assert_eq!(expr.approximate_connections(), 0);
}

#[test]
fn test_execute_counts_connections() {
    let mut cat = Catalog::new();
    let w1 = cat.add_work(work("w1", None, None, None));
    let t = cat.get_discriminated_or_create("cat", None);
    cat.tag_work(w1, t.id);

    // One matched work tagged with the two first-level tags, plus the
    // 2 x 1 implication edges between the levels.
    let expr = TagExpression::parse("<cat>/(x,y)/z").unwrap();
    let count = expr.execute(&mut cat);
    assert_eq!(count, 2 + 2 * 1);
    // The work now carries x and y.
    assert_eq!(ids(&cat.search_by_str("tag:x").unwrap()), vec![w1.0]);
    assert_eq!(ids(&cat.search_by_str("tag:y").unwrap()), vec![w1.0]);
    // The implication edges run from the later level to the earlier one.
    let z = cat.try_get_discriminated("z", None).unwrap();
    let x = cat.try_get_discriminated("x", None).unwrap();
    let reach: Vec<u64> = cat.closure(z.id).iter().map(|t| t.0).collect();
    assert!(reach.contains(&x.id.0));
}

#[test]
fn test_idempotent_execution() {
    // Executing the same tag-expression twice reports 0 new connections on
    // the second run.
    let mut cat = Catalog::new();
    let w1 = cat.add_work(work("w1", None, None, None));
    let t = cat.get_discriminated_or_create("cat", None);
    cat.tag_work(w1, t.id);

    let expr = TagExpression::parse("<cat>/(x,y)/z").unwrap();
    let first = expr.execute(&mut cat);
    assert!(first > 0);
    let second = expr.execute(&mut cat);
    assert_eq!(second, 0);

    // The same holds without a filter.
    let expr = TagExpression::parse("p/q").unwrap();
    let first = expr.execute(&mut cat);
    assert_eq!(first, 1);
    let second = expr.execute(&mut cat);
    assert_eq!(second, 0);
}

#[test]
fn test_create_missing_tags() {
    let mut cat = Catalog::new();
    cat.get_discriminated_or_create("b", None);
    let expr = TagExpression::parse("a/(b,c)").unwrap();
    assert_eq!(expr.create_missing_tags(&mut cat), 2);
    assert_eq!(expr.create_missing_tags(&mut cat), 0);
    assert_eq!(cat.tags.len(), 3);
}

#[test]
fn test_record_hash() {
    // The content hash is the CRC32 checksum of the bytes.
    let data: Vec<u8> = b"123456789".to_vec();
    let record = Record::from_bytes("p".to_string(), &data, RecordDetails::new());
    assert_eq!(record.hash as u32, 0xCBF43926);
    assert_eq!(record.size, 9);

    let empty: Vec<u8> = Vec::new();
    let record = Record::from_bytes("p".to_string(), &empty, RecordDetails::new());
    assert_eq!(record.hash as u32, 0);
}

#[test]
fn test_record_details_update() {
    let mut details = RecordDetails::new();
    details.title = Some("old".to_string());
    let mut other = RecordDetails::new();
    other.caption = Some("cap".to_string());
    other.tags.push(chronicle::tag::DiscriminatedTag {
        name: "a".to_string(),
        discriminator: None,
    });
    details.update(other);
    assert_eq!(details.title.as_deref(), Some("old"));
    assert_eq!(details.caption.as_deref(), Some("cap"));
    assert_eq!(details.tags.len(), 1);
}

#[test]
fn test_create_from_record() {
    let mut cat = Catalog::new();
    let mut details = RecordDetails::new();
    details.title = Some("a work".to_string());
    details.tags.push(chronicle::tag::DiscriminatedTag {
        name: "cat".to_string(),
        discriminator: None,
    });
    let data: Vec<u8> = vec![1, 2, 3];
    let record = Record::from_bytes("path/w".to_string(), &data, details);
    let id = cat.create_from_record(&record);
    assert_eq!(ids(&cat.search_by_str("tag:cat").unwrap()), vec![id.0]);
    assert_eq!(ids(&cat.search_by_str("t:work").unwrap()), vec![id.0]);
}

#[test]
fn test_plan_builder() {
    let q = Query::parse("a b").unwrap();
    let mut b = SearchQueryBuilder::new();
    let name = b.push_query_table(&q);
    assert_eq!(name, q.table_name());
    // The two terms plus the conjunction: three subsets, compiled once.
    assert_eq!(b.added_tables.len(), 3);
    let name2 = b.push_query_table(&q);
    assert_eq!(name2, name);
    assert_eq!(b.added_tables.len(), 3);

    // A negation materializes the universe.
    let mut b = SearchQueryBuilder::new();
    let nq = Query::parse("-a").unwrap();
    b.push_query_table(&nq);
    assert!(b.has_everything);
    assert!(matches!(b.steps[0], PlanStep::Everything));

    // Repeated subtrees share their subset instead of recompiling.
    let mut b = SearchQueryBuilder::new();
    let shared = Query::parse("(a b), ((a b) c)").unwrap();
    b.push_query_table(&shared);
    // Two terms of the shared conjunction, the conjunction itself, the term
    // c with its enclosing conjunction, and the disjunction: the repeated
    // subtree is materialized once.
    assert_eq!(b.added_tables.len(), 6);
    let before = b.added_tables.len();
    b.push_query_table(&Query::parse("a b").unwrap());
    assert_eq!(b.added_tables.len(), before);

    // A one-child group passes its only child's subset through: no subset
    // of its own is materialized.
    let mut b = SearchQueryBuilder::new();
    let child = Query::parse("a").unwrap();
    let child_name = child.table_name();
    let single = Query::And(vec![Query::parse("a").unwrap()]);
    let name = b.push_query_table(&single);
    assert_eq!(name, child_name);
    assert_eq!(b.added_tables.len(), 1);
    assert_eq!(b.added_tables[0], child_name);

    let mut b = SearchQueryBuilder::new();
    let shared = Query::parse("(a b), ((a b) c)").unwrap();
    b.push_query_table(&shared);
    let tables = b.added_tables.clone();
    b.drop_tables();
    assert_eq!(b.added_tables.len(), 0);
    let drops = b.steps.iter().filter(|s| matches!(s, PlanStep::Drop { .. })).count();
    assert_eq!(drops, tables.len());
}

#[test]
fn test_ancestors_and_descendants() {
    // cat -> animal -> being, and dog -> animal: ancestors follow the
    // implication edges outward, descendants follow them backwards, each
    // tag ranked by the length of the path that first reached it.
    let mut cat = Catalog::new();
    let t_cat = cat.get_discriminated_or_create("cat", None);
    let t_dog = cat.get_discriminated_or_create("dog", None);
    let t_animal = cat.get_discriminated_or_create("animal", None);
    let t_being = cat.get_discriminated_or_create("being", None);
    cat.add_implication(t_cat.id, t_animal.id);
    cat.add_implication(t_dog.id, t_animal.id);
    cat.add_implication(t_animal.id, t_being.id);

    let up = cat.ancestors(t_cat.id);
    assert_eq!(up[0].tag.0, t_cat.id.0);
    assert_eq!(up[0].depth, 0);
    let mut up_ids: Vec<(u64, u64)> = up.iter().map(|r| (r.tag.0, r.depth)).collect();
    up_ids.sort();
    assert_eq!(
        up_ids,
        vec![(t_cat.id.0, 0), (t_animal.id.0, 1), (t_being.id.0, 2)]
    );

    let down = cat.descendants(t_animal.id);
    let mut down_ids: Vec<u64> = down.iter().map(|r| r.tag.0).collect();
    down_ids.sort();
    assert_eq!(down_ids, vec![t_cat.id.0, t_dog.id.0, t_animal.id.0]);
}

#[test]
fn test_list_tags() {
    let mut cat = Catalog::new();
    let expr = TagExpression::parse("a/(b,c)").unwrap();
    assert!(matches!(
        expr.list_tags(&cat),
        Err(chronicle::Error::NotFound { .. })
    ));
    expr.create_missing_tags(&mut cat);
    let rows = expr.list_tags(&cat).unwrap();
    let names: Vec<String> = rows.iter().map(|t| t.name.clone()).collect();
    assert_eq!(names, vec!["a".to_string(), "b".to_string(), "c".to_string()]);
}
