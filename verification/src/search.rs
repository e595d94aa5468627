//! The boolean query language: AST, structural hashing, canonicalization,
//! and the textual rendering of queries.

use vstd::prelude::*;

use crate::tag::DiscriminatedTag;
use crate::tag::DTagV;

pub mod builder;
pub mod parse;

verus! {

/// A leaf predicate of a query.
#[derive(Debug, Clone)]
pub enum QueryTerm {
    /// Matches works tagged with the named tag or with any tag it
    /// transitively implies.
    Tag(DiscriminatedTag),
    /// Substring match on the title.
    Title(String),
    /// Exact match on an author name.
    Author(String),
    /// Substring match on the caption.
    Caption(String),
    /// Exact match on the source url.
    Url(String),
}

/// Mathematical model of a [`QueryTerm`].
pub enum TermV {
    Tag(DTagV),
    Title(Seq<char>),
    Author(Seq<char>),
    Caption(Seq<char>),
    Url(Seq<char>),
}

impl View for QueryTerm {
    type V = TermV;

    open spec fn view(&self) -> TermV {
        match self {
            QueryTerm::Tag(t) => TermV::Tag(t@),
            QueryTerm::Title(s) => TermV::Title(s@),
            QueryTerm::Author(s) => TermV::Author(s@),
            QueryTerm::Caption(s) => TermV::Caption(s@),
            QueryTerm::Url(s) => TermV::Url(s@),
        }
    }
}

/// A boolean query over works: a term, a negation, or an ordered
/// conjunction or disjunction of subqueries.
#[derive(Debug)]
pub enum Query {
    Term(QueryTerm),
    Not(Box<Query>),
    And(Vec<Query>),
    Or(Vec<Query>),
}

/// Mathematical model of a [`Query`].
pub enum QueryV {
    Term(TermV),
    Not(Box<QueryV>),
    And(Seq<QueryV>),
    Or(Seq<QueryV>),
}

/// Recursive view of a [`Query`], also reachable as `q@`.
pub open spec fn query_view(q: Query) -> QueryV
    decreases q, 1int,
{
    match q {
        Query::Term(t) => QueryV::Term(t@),
        Query::Not(b) => QueryV::Not(Box::new(query_view(*b))),
        Query::And(ts) => QueryV::And(query_list_view(ts@, 0)),
        Query::Or(ts) => QueryV::Or(query_list_view(ts@, 0)),
    }
}

/// Views of the queries of `ts`, from index `i` on.
pub open spec fn query_list_view(ts: Seq<Query>, i: int) -> Seq<QueryV>
    decreases ts, ts.len() - i, 0int,
{
    if i < 0 || i >= ts.len() {
        Seq::empty()
    } else {
        seq![query_view(ts[i])] + query_list_view(ts, i + 1)
    }
}

impl View for Query {
    type V = QueryV;

    open spec fn view(&self) -> QueryV {
        query_view(*self)
    }
}

/// `query_list_view` is the element-wise view of `ts`.
pub proof fn lemma_query_list_view(ts: Seq<Query>, i: int)
    requires
        0 <= i <= ts.len(),
    ensures
        query_list_view(ts, i).len() == ts.len() - i,
        forall|k: int|
            i <= k < ts.len() ==> query_list_view(ts, i)[k - i] == query_view(ts[k]),
    decreases ts.len() - i,
{
    if i < ts.len() {
        lemma_query_list_view(ts, i + 1);
    }
}

/// Element-wise form of `lemma_query_list_view` from the start of `ts`.
pub proof fn lemma_query_views(ts: Seq<Query>)
    ensures
        query_list_view(ts, 0).len() == ts.len(),
        forall|k: int|
            0 <= k < ts.len() ==> #[trigger] query_list_view(ts, 0)[k] == query_view(ts[k]),
{
    lemma_query_list_view(ts, 0);
    assert forall|k: int|
        0 <= k < ts.len() implies #[trigger] query_list_view(ts, 0)[k] == query_view(ts[k]) by {
        assert(query_list_view(ts, 0)[k - 0] == query_view(ts[k]));
    }
}

/// Pushing onto the list appends the view.
pub proof fn lemma_query_list_view_push(ts: Seq<Query>, q: Query)
    ensures
        query_list_view(ts.push(q), 0) == query_list_view(ts, 0) + seq![query_view(q)],
{
    lemma_query_views(ts);
    lemma_query_views(ts.push(q));
    assert(query_list_view(ts.push(q), 0) =~= query_list_view(ts, 0) + seq![query_view(q)]);
}

/// The two n-ary connectives of the language.
#[derive(Debug, PartialEq, Eq, Clone, Copy, Structural)]
pub enum Operation {
    And,
    Or,
}

// ---------------------------------------------------------------------------
// Structural hashing.
//
// Canonical identity of a query is an explicit, versioned structural hash:
// a fixed discriminant per node kind mixed with the node's content, so that
// `Term`, `Not`, `And` and `Or` never collide by construction and the hash
// is stable across rebuilds and platforms. The hash of an `And`/`Or` node
// is a function of the sequence of its children's hashes alone, which is
// what makes canonicalization insensitive to sibling order (see
// `lemma_canonical_hash_of_siblings`).
// ---------------------------------------------------------------------------

/// One mixing step of the structural hash.
pub open spec fn spec_mix(h: u32, x: u32) -> u32 {
    (((h as int) * 31 + (x as int)) % 0x1_0000_0000) as u32
}

/// Executable mixing step.
pub fn mix(h: u32, x: u32) -> (r: u32)
    ensures
        r == spec_mix(h, x),
{
    (((h as u64) * 31 + (x as u64)) % 0x1_0000_0000) as u32
}

/// Hash of a character sequence, folded left to right from `h`, prefixed
/// with the (truncated) length so that composite keys never smear together.
pub open spec fn spec_hash_chars_from(h: u32, s: Seq<char>, i: int) -> u32
    decreases s.len() - i,
{
    if i < 0 || i >= s.len() {
        h
    } else {
        spec_hash_chars_from(spec_mix(h, s[i] as u32), s, i + 1)
    }
}

/// Hash of a string: its truncated length, then its characters.
pub open spec fn spec_hash_str(h: u32, s: Seq<char>) -> u32 {
    spec_hash_chars_from(spec_mix(h, (s.len() % 0x1_0000_0000) as u32), s, 0)
}

/// Hash of an optional string: a presence discriminant, then the string.
pub open spec fn spec_hash_opt_str(h: u32, s: Option<Seq<char>>) -> u32 {
    match s {
        None => spec_mix(h, 0),
        Some(d) => spec_hash_str(spec_mix(h, 1), d),
    }
}

/// Hash of a query term: a discriminant per variant, then the content.
pub open spec fn spec_hash_term(t: TermV) -> u32 {
    match t {
        TermV::Tag(dt) => spec_hash_opt_str(spec_hash_str(spec_mix(17, 1), dt.name), dt.discriminator),
        TermV::Title(s) => spec_hash_str(spec_mix(17, 2), s),
        TermV::Author(s) => spec_hash_str(spec_mix(17, 3), s),
        TermV::Caption(s) => spec_hash_str(spec_mix(17, 4), s),
        TermV::Url(s) => spec_hash_str(spec_mix(17, 5), s),
    }
}

/// Structural hash of a query. The hash of an `And`/`Or` node is a fold of
/// its children's hashes, so it depends on the children only through their
/// hashes.
pub open spec fn spec_hash_query(q: QueryV) -> u32
    decreases q, 1int,
{
    match q {
        QueryV::Term(t) => spec_mix(spec_mix(23, 1), spec_hash_term(t)),
        QueryV::Not(b) => spec_mix(spec_mix(23, 2), spec_hash_query(*b)),
        QueryV::And(ts) => spec_hash_query_list(spec_mix(23, 3), ts, 0),
        QueryV::Or(ts) => spec_hash_query_list(spec_mix(23, 4), ts, 0),
    }
}

/// Fold of the children's hashes, from index `i` on.
pub open spec fn spec_hash_query_list(h: u32, ts: Seq<QueryV>, i: int) -> u32
    decreases ts, ts.len() - i, 0int,
{
    if i < 0 || i >= ts.len() {
        h
    } else {
        spec_hash_query_list(spec_mix(h, spec_hash_query(ts[i])), ts, i + 1)
    }
}

/// Executable hash of a string.
fn hash_str(h: u32, s: &str) -> (r: u32)
    ensures
        r == spec_hash_str(h, s@),
{
    let len = s.unicode_len();
    let mut hh = mix(h, ((len as u64) % 0x1_0000_0000) as u32);
    let mut i: usize = 0;
    while i < len
        invariant
            0 <= i <= len,
            len == s@.len(),
            spec_hash_chars_from(hh, s@, i as int) == spec_hash_str(h, s@),
        decreases len - i,
    {
        hh = mix(hh, s.get_char(i) as u32);
        i = i + 1;
    }
    hh
}

/// Executable hash of an optional string.
fn hash_opt_str(h: u32, s: &Option<String>) -> (r: u32)
    ensures
        r == spec_hash_opt_str(h, crate::models::opt_view(*s)),
{
    match s {
        None => mix(h, 0),
        Some(d) => hash_str(mix(h, 1), d.as_str()),
    }
}

impl QueryTerm {
    /// A copy of the term.
    pub fn clone_term(&self) -> (r: QueryTerm)
        ensures
            r@ == self@,
    {
        match self {
            QueryTerm::Tag(dt) => QueryTerm::Tag(dt.clone_dtag()),
            QueryTerm::Title(s) => QueryTerm::Title(s.clone()),
            QueryTerm::Author(s) => QueryTerm::Author(s.clone()),
            QueryTerm::Caption(s) => QueryTerm::Caption(s.clone()),
            QueryTerm::Url(s) => QueryTerm::Url(s.clone()),
        }
    }

    /// Executable hash of a term.
    pub fn hash_term(&self) -> (r: u32)
        ensures
            r == spec_hash_term(self@),
    {
        match self {
            QueryTerm::Tag(dt) => hash_opt_str(
                hash_str(mix(17, 1), dt.name.as_str()),
                &dt.discriminator,
            ),
            QueryTerm::Title(s) => hash_str(mix(17, 2), s.as_str()),
            QueryTerm::Author(s) => hash_str(mix(17, 3), s.as_str()),
            QueryTerm::Caption(s) => hash_str(mix(17, 4), s.as_str()),
            QueryTerm::Url(s) => hash_str(mix(17, 5), s.as_str()),
        }
    }
}

/// Executable structural hash of a query; the canonical identity used for
/// dedup, ordering-independent comparison, and subplan naming.
pub fn hash_t(q: &Query) -> (r: u32)
    ensures
        r == spec_hash_query(q@),
    decreases *q,
{
    match q {
        Query::Term(t) => mix(mix(23, 1), t.hash_term()),
        Query::Not(b) => mix(mix(23, 2), hash_t(&*b)),
        Query::And(ts) => hash_t_list(mix(23, 3), ts, Ghost(*q)),
        Query::Or(ts) => hash_t_list(mix(23, 4), ts, Ghost(*q)),
    }
}

/// Executable fold of the children's hashes.
fn hash_t_list(h: u32, ts: &Vec<Query>, parent: Ghost<Query>) -> (r: u32)
    requires
        decreases_to!(parent@ => *ts),
    ensures
        r == spec_hash_query_list(h, query_list_view(ts@, 0), 0),
    decreases parent@, 0int,
{
    let ghost vs = query_list_view(ts@, 0);
    proof {
        lemma_query_list_view(ts@, 0);
    }
    let mut hh = h;
    let mut i: usize = 0;
    while i < ts.len()
        invariant
            0 <= i <= ts.len(),
            vs == query_list_view(ts@, 0),
            vs.len() == ts.len(),
            forall|k: int| 0 <= k < ts.len() ==> vs[k] == query_view(ts@[k]),
            spec_hash_query_list(hh, vs, i as int) == spec_hash_query_list(h, vs, 0),
            decreases_to!(parent@ => *ts),
        decreases ts.len() - i,
    {
        proof {
            assert(decreases_to!(*ts => ts@[i as int]));
        }
        hh = mix(hh, hash_t(&ts[i]));
        i = i + 1;
    }
    hh
}

// ---------------------------------------------------------------------------
// Canonicalization.
//
// `into_normalized` rewrites a query, post-order, into the canonical
// representative of its equivalence class: the children of every `And`/`Or`
// are normalized, sorted by structural hash, deduplicated by hash, and a
// group left with a single child is replaced by that child. `Term` and
// `Not` pass through structurally unchanged (a double negation is kept).
// ---------------------------------------------------------------------------

/// Insert `q` into a sequence sorted by hash, before the first element of
/// equal or larger hash.
pub open spec fn spec_insert_sorted(q: QueryV, s: Seq<QueryV>) -> Seq<QueryV>
    decreases s.len(),
{
    if s.len() == 0 {
        seq![q]
    } else if spec_hash_query(q) <= spec_hash_query(s[0]) {
        seq![q] + s
    } else {
        seq![s[0]] + spec_insert_sorted(q, s.drop_first())
    }
}

/// Insertion sort by structural hash. Ties keep the earlier element first.
pub open spec fn spec_sort_by_hash(s: Seq<QueryV>) -> Seq<QueryV>
    decreases s.len(),
{
    if s.len() == 0 {
        s
    } else {
        spec_insert_sorted(s[0], spec_sort_by_hash(s.drop_first()))
    }
}

/// Remove adjacent elements of equal hash, keeping the first of each run.
pub open spec fn spec_dedup_by_hash(s: Seq<QueryV>) -> Seq<QueryV>
    decreases s.len(),
{
    if s.len() <= 1 {
        s
    } else if spec_hash_query(s[0]) == spec_hash_query(s[1]) {
        spec_dedup_by_hash(seq![s[0]] + s.skip(2))
    } else {
        seq![s[0]] + spec_dedup_by_hash(s.drop_first())
    }
}

/// The canonical child list of an `And`/`Or` node: each child normalized,
/// then sorted and deduplicated by hash.
pub open spec fn spec_canonical_children(cs: Seq<QueryV>) -> Seq<QueryV> {
    spec_dedup_by_hash(spec_sort_by_hash(cs))
}

/// The canonical form of a query.
pub open spec fn spec_normalize(q: QueryV) -> QueryV
    decreases q, 1int,
{
    match q {
        QueryV::Term(_) => q,
        QueryV::Not(b) => QueryV::Not(Box::new(spec_normalize(*b))),
        QueryV::And(ts) => {
            let d = spec_canonical_children(spec_normalize_list(ts, 0));
            if d.len() == 1 {
                d[0]
            } else {
                QueryV::And(d)
            }
        },
        QueryV::Or(ts) => {
            let d = spec_canonical_children(spec_normalize_list(ts, 0));
            if d.len() == 1 {
                d[0]
            } else {
                QueryV::Or(d)
            }
        },
    }
}

/// The normalized children of `ts`, from index `i` on.
pub open spec fn spec_normalize_list(ts: Seq<QueryV>, i: int) -> Seq<QueryV>
    decreases ts, ts.len() - i, 0int,
{
    if i < 0 || i >= ts.len() {
        Seq::empty()
    } else {
        seq![spec_normalize(ts[i])] + spec_normalize_list(ts, i + 1)
    }
}

/// `spec_normalize_list` is the element-wise normalization of `ts`.
pub proof fn lemma_spec_normalize_list(ts: Seq<QueryV>, i: int)
    requires
        0 <= i <= ts.len(),
    ensures
        spec_normalize_list(ts, i).len() == ts.len() - i,
        forall|k: int|
            i <= k < ts.len() ==> spec_normalize_list(ts, i)[k - i] == spec_normalize(ts[k]),
    decreases ts.len() - i,
{
    if i < ts.len() {
        lemma_spec_normalize_list(ts, i + 1);
    }
}

/// Element-wise form of `lemma_spec_normalize_list` from the start of `ts`.
pub proof fn lemma_normalized_views(ts: Seq<QueryV>)
    ensures
        spec_normalize_list(ts, 0).len() == ts.len(),
        forall|k: int|
            0 <= k < ts.len() ==> #[trigger] spec_normalize_list(ts, 0)[k] == spec_normalize(
                ts[k],
            ),
{
    lemma_spec_normalize_list(ts, 0);
    assert forall|k: int|
        0 <= k < ts.len() implies #[trigger] spec_normalize_list(ts, 0)[k] == spec_normalize(
        ts[k],
    ) by {
        assert(spec_normalize_list(ts, 0)[k - 0] == spec_normalize(ts[k]));
    }
}

/// `spec_insert_sorted` splits at the first index whose hash is not below
/// the inserted element's.
proof fn lemma_insert_sorted_at(q: QueryV, s: Seq<QueryV>, k: int)
    requires
        0 <= k <= s.len(),
        forall|j: int| 0 <= j < k ==> spec_hash_query(#[trigger] s[j]) < spec_hash_query(q),
        k < s.len() ==> spec_hash_query(q) <= spec_hash_query(s[k]),
    ensures
        spec_insert_sorted(q, s) =~= s.take(k) + seq![q] + s.skip(k),
    decreases s.len(),
{
    if s.len() == 0 {
    } else if spec_hash_query(q) <= spec_hash_query(s[0]) {
        assert(k == 0);
    } else {
        lemma_insert_sorted_at(q, s.drop_first(), k - 1);
        assert(s.drop_first().take(k - 1) =~= s.take(k).drop_first());
        assert(s.drop_first().skip(k - 1) =~= s.skip(k));
    }
}

// ---------------------------------------------------------------------------
// Laws of canonicalization.
//
// Two queries that differ only by reordering or duplication of `And`/`Or`
// siblings normalize to the same canonical hash
// (`lemma_canonical_hash_of_siblings`), and to structurally identical trees
// whenever the normalized children are free of hash collisions
// (`lemma_canonical_form_of_siblings`).
// ---------------------------------------------------------------------------

/// The structural hashes of the queries of `ts`.
pub open spec fn hashes_of(ts: Seq<QueryV>) -> Seq<u32> {
    ts.map_values(|q: QueryV| spec_hash_query(q))
}

/// Weakly increasing.
pub open spec fn sorted_u32(s: Seq<u32>) -> bool {
    forall|i: int, j: int| 0 <= i <= j < s.len() ==> s[i] <= s[j]
}

/// Strictly increasing.
pub open spec fn strict_u32(s: Seq<u32>) -> bool {
    forall|i: int, j: int| 0 <= i < j < s.len() ==> s[i] < s[j]
}

/// Set view of a cons of hashes.
proof fn lemma_to_set_cons_u32(x: u32, s: Seq<u32>)
    ensures
        (seq![x] + s).to_set() == s.to_set().insert(x),
{
    let c = seq![x] + s;
    assert forall|h: u32| c.to_set().contains(h) implies s.to_set().insert(x).contains(h) by {
        assert(c.contains(h));
        let w = choose|w: int| 0 <= w < c.len() && c[w] == h;
        if w > 0 {
            assert(s[w - 1] == h);
            assert(s.contains(h));
        }
    }
    assert forall|h: u32| s.to_set().insert(x).contains(h) implies c.to_set().contains(h) by {
        if h == x {
            assert(c[0] == h);
            assert(c.contains(h));
        } else {
            assert(s.contains(h));
            let w = choose|w: int| 0 <= w < s.len() && s[w] == h;
            assert(c[w + 1] == h);
            assert(c.contains(h));
        }
    }
    assert(c.to_set() =~= s.to_set().insert(x));
}

/// Set view of a cons of queries.
proof fn lemma_to_set_cons_q(x: QueryV, s: Seq<QueryV>)
    ensures
        (seq![x] + s).to_set() == s.to_set().insert(x),
{
    let c = seq![x] + s;
    assert forall|h: QueryV| c.to_set().contains(h) implies s.to_set().insert(x).contains(h) by {
        assert(c.contains(h));
        let w = choose|w: int| 0 <= w < c.len() && c[w] == h;
        if w > 0 {
            assert(s[w - 1] == h);
            assert(s.contains(h));
        }
    }
    assert forall|h: QueryV| s.to_set().insert(x).contains(h) implies c.to_set().contains(h) by {
        if h == x {
            assert(c[0] == h);
            assert(c.contains(h));
        } else {
            assert(s.contains(h));
            let w = choose|w: int| 0 <= w < s.len() && s[w] == h;
            assert(c[w + 1] == h);
            assert(c.contains(h));
        }
    }
    assert(c.to_set() =~= s.to_set().insert(x));
}

/// The fold of a child list's hashes depends on the children only through
/// their hashes.
proof fn lemma_hash_fold_from_hashes(h: u32, ts1: Seq<QueryV>, ts2: Seq<QueryV>, i: int)
    requires
        hashes_of(ts1) == hashes_of(ts2),
        0 <= i <= ts1.len(),
    ensures
        spec_hash_query_list(h, ts1, i) == spec_hash_query_list(h, ts2, i),
    decreases ts1.len() - i,
{
    assert(hashes_of(ts1).len() == ts1.len());
    assert(hashes_of(ts2).len() == ts2.len());
    if i < ts1.len() {
        assert(hashes_of(ts1)[i] == spec_hash_query(ts1[i]));
        assert(hashes_of(ts2)[i] == spec_hash_query(ts2[i]));
        lemma_hash_fold_from_hashes(spec_mix(h, spec_hash_query(ts1[i])), ts1, ts2, i + 1);
    }
}

/// Sorted insertion keeps the hashes sorted, adds the inserted hash to the
/// hash set, and keeps only elements of the original list plus the new one.
proof fn lemma_insert_sorted_props(q: QueryV, s: Seq<QueryV>)
    requires
        sorted_u32(hashes_of(s)),
    ensures
        sorted_u32(hashes_of(spec_insert_sorted(q, s))),
        hashes_of(spec_insert_sorted(q, s)).to_set() == hashes_of(s).to_set().insert(
            spec_hash_query(q),
        ),
        spec_insert_sorted(q, s).to_set() == s.to_set().insert(q),
        spec_insert_sorted(q, s).len() == s.len() + 1,
    decreases s.len(),
{
    let r = spec_insert_sorted(q, s);
    if s.len() == 0 {
        assert(hashes_of(r) =~= seq![spec_hash_query(q)] + hashes_of(s));
        lemma_to_set_cons_u32(spec_hash_query(q), hashes_of(s));
        assert(r =~= seq![q] + s);
        lemma_to_set_cons_q(q, s);
    } else if spec_hash_query(q) <= spec_hash_query(s[0]) {
        assert(hashes_of(r) =~= seq![spec_hash_query(q)] + hashes_of(s));
        assert forall|i: int, j: int| 0 <= i <= j < hashes_of(r).len() implies hashes_of(r)[i]
            <= hashes_of(r)[j] by {
            if i == 0 && j > 0 {
                assert(hashes_of(s)[0] <= hashes_of(s)[j - 1]);
            }
        }
        lemma_to_set_cons_u32(spec_hash_query(q), hashes_of(s));
        assert(r =~= seq![q] + s);
        lemma_to_set_cons_q(q, s);
    } else {
        let tail = s.drop_first();
        assert(sorted_u32(hashes_of(tail))) by {
            assert(forall|k: int|
                0 <= k < tail.len() ==> hashes_of(tail)[k] == hashes_of(s)[k + 1]);
        }
        lemma_insert_sorted_props(q, tail);
        let rt = spec_insert_sorted(q, tail);
        assert(r == seq![s[0]] + rt);
        assert(hashes_of(r) =~= seq![spec_hash_query(s[0])] + hashes_of(rt));
        // Sortedness: the head hash is at most the head of the tail and at
        // most the inserted hash.
        assert forall|i: int, j: int| 0 <= i <= j < hashes_of(r).len() implies hashes_of(r)[i]
            <= hashes_of(r)[j] by {
            if i == 0 && j > 0 {
                let hj = hashes_of(rt)[j - 1];
                assert(hashes_of(rt).to_set().contains(hj)) by {
                    assert(hashes_of(rt).contains(hj));
                }
                if hj == spec_hash_query(q) {
                    assert(hashes_of(s)[0] <= hj);
                } else {
                    assert(hashes_of(tail).to_set().contains(hj));
                    assert(hashes_of(tail).contains(hj));
                    let w = choose|w: int| 0 <= w < hashes_of(tail).len() && hashes_of(tail)[w] == hj;
                    assert(hashes_of(s)[w + 1] == hj);
                    assert(hashes_of(s)[0] <= hj);
                }
            } else if i > 0 {
                assert(hashes_of(rt)[i - 1] <= hashes_of(rt)[j - 1]);
            }
        }
        assert(hashes_of(s) =~= seq![spec_hash_query(s[0])] + hashes_of(tail));
        lemma_to_set_cons_u32(spec_hash_query(s[0]), hashes_of(rt));
        lemma_to_set_cons_u32(spec_hash_query(s[0]), hashes_of(tail));
        assert(hashes_of(r).to_set() =~= hashes_of(s).to_set().insert(spec_hash_query(q)));
        assert(s =~= seq![s[0]] + tail);
        lemma_to_set_cons_q(s[0], rt);
        lemma_to_set_cons_q(s[0], tail);
        assert(r.to_set() =~= s.to_set().insert(q));
    }
}

/// Sorting by hash sorts the hashes and preserves the hash set and the
/// element set.
proof fn lemma_sort_by_hash_props(s: Seq<QueryV>)
    ensures
        sorted_u32(hashes_of(spec_sort_by_hash(s))),
        hashes_of(spec_sort_by_hash(s)).to_set() == hashes_of(s).to_set(),
        spec_sort_by_hash(s).to_set() == s.to_set(),
        spec_sort_by_hash(s).len() == s.len(),
    decreases s.len(),
{
    if s.len() == 0 {
        assert(hashes_of(s) =~= Seq::<u32>::empty());
    } else {
        let tail = s.drop_first();
        lemma_sort_by_hash_props(tail);
        lemma_insert_sorted_props(s[0], spec_sort_by_hash(tail));
        assert(s =~= seq![s[0]] + tail);
        assert(hashes_of(s) =~= seq![spec_hash_query(s[0])] + hashes_of(tail));
        lemma_to_set_cons_u32(spec_hash_query(s[0]), hashes_of(tail));
        lemma_to_set_cons_q(s[0], tail);
    }
}

/// On a hash-sorted list, adjacent dedup makes the hashes strictly
/// increasing, preserves the hash set, and keeps only original elements.
proof fn lemma_dedup_by_hash_props(s: Seq<QueryV>)
    requires
        sorted_u32(hashes_of(s)),
    ensures
        strict_u32(hashes_of(spec_dedup_by_hash(s))),
        hashes_of(spec_dedup_by_hash(s)).to_set() == hashes_of(s).to_set(),
        spec_dedup_by_hash(s).to_set().subset_of(s.to_set()),
    decreases s.len(),
{
    let r = spec_dedup_by_hash(s);
    if s.len() <= 1 {
        assert(r.to_set().subset_of(s.to_set()));
    } else if spec_hash_query(s[0]) == spec_hash_query(s[1]) {
        let t = seq![s[0]] + s.skip(2);
        assert(sorted_u32(hashes_of(t))) by {
            assert(hashes_of(t)[0] == hashes_of(s)[0]);
            assert(forall|k: int| 1 <= k < t.len() ==> hashes_of(t)[k] == hashes_of(s)[k + 1]);
        }
        lemma_dedup_by_hash_props(t);
        assert(hashes_of(t).to_set() =~= hashes_of(s).to_set()) by {
            assert(hashes_of(t)[0] == hashes_of(s)[0]);
            assert(forall|k: int| 1 <= k < t.len() ==> hashes_of(t)[k] == hashes_of(s)[k + 1]);
            assert(hashes_of(s)[1] == hashes_of(s)[0]);
            assert forall|h: u32| hashes_of(s).to_set().contains(h) implies hashes_of(
                t,
            ).to_set().contains(h) by {
                let w = choose|w: int| 0 <= w < hashes_of(s).len() && hashes_of(s)[w] == h;
                if w <= 1 {
                    assert(hashes_of(t)[0] == h);
                    assert(hashes_of(t).contains(h));
                } else {
                    assert(hashes_of(t)[w - 1] == h);
                    assert(hashes_of(t).contains(h));
                }
            }
            assert forall|h: u32| hashes_of(t).to_set().contains(h) implies hashes_of(
                s,
            ).to_set().contains(h) by {
                let w = choose|w: int| 0 <= w < hashes_of(t).len() && hashes_of(t)[w] == h;
                if w == 0 {
                    assert(hashes_of(s)[0] == h);
                    assert(hashes_of(s).contains(h));
                } else {
                    assert(hashes_of(s)[w + 1] == h);
                    assert(hashes_of(s).contains(h));
                }
            }
        }
        assert(t.to_set().subset_of(s.to_set())) by {
            assert forall|q: QueryV| t.to_set().contains(q) implies s.to_set().contains(q) by {
                let w = choose|w: int| 0 <= w < t.len() && t[w] == q;
                if w == 0 {
                    assert(s[0] == q);
                } else {
                    assert(s[w + 1] == q);
                }
            }
        }
    } else {
        let tail = s.drop_first();
        assert(sorted_u32(hashes_of(tail))) by {
            assert(forall|k: int|
                0 <= k < tail.len() ==> hashes_of(tail)[k] == hashes_of(s)[k + 1]);
        }
        lemma_dedup_by_hash_props(tail);
        let rt = spec_dedup_by_hash(tail);
        assert(r == seq![s[0]] + rt);
        assert(hashes_of(r) =~= seq![spec_hash_query(s[0])] + hashes_of(rt));
        // Strictness: the head hash is strictly below every hash of the
        // deduplicated tail.
        assert forall|i: int, j: int| 0 <= i < j < hashes_of(r).len() implies hashes_of(r)[i]
            < hashes_of(r)[j] by {
            if i == 0 {
                let hj = hashes_of(rt)[j - 1];
                assert(hashes_of(rt).to_set().contains(hj)) by {
                    assert(hashes_of(rt).contains(hj));
                }
                assert(hashes_of(tail).to_set().contains(hj));
                assert(hashes_of(tail).contains(hj));
                let w = choose|w: int| 0 <= w < hashes_of(tail).len() && hashes_of(tail)[w] == hj;
                assert(hashes_of(tail)[w] == hashes_of(s)[w + 1]);
                assert(hashes_of(s)[1] <= hj);
                assert(hashes_of(s)[0] < hashes_of(s)[1]) by {
                    assert(hashes_of(s)[0] <= hashes_of(s)[1]);
                }
            } else {
                assert(hashes_of(rt)[i - 1] < hashes_of(rt)[j - 1]);
            }
        }
        assert(hashes_of(s) =~= seq![spec_hash_query(s[0])] + hashes_of(tail));
        assert(hashes_of(r).to_set() =~= hashes_of(s).to_set()) by {
            assert(hashes_of(rt).to_set() == hashes_of(tail).to_set());
            assert forall|h: u32| hashes_of(r).to_set().contains(h) implies hashes_of(
                s,
            ).to_set().contains(h) by {
                let w = choose|w: int| 0 <= w < hashes_of(r).len() && hashes_of(r)[w] == h;
                if w == 0 {
                    assert(hashes_of(s)[0] == h);
                    assert(hashes_of(s).contains(h));
                } else {
                    assert(hashes_of(rt).contains(h));
                    assert(hashes_of(rt).to_set().contains(h));
                    assert(hashes_of(tail).contains(h));
                    let v = choose|v: int| 0 <= v < hashes_of(tail).len() && hashes_of(tail)[v]
                        == h;
                    assert(hashes_of(s)[v + 1] == h);
                    assert(hashes_of(s).contains(h));
                }
            }
            assert forall|h: u32| hashes_of(s).to_set().contains(h) implies hashes_of(
                r,
            ).to_set().contains(h) by {
                let w = choose|w: int| 0 <= w < hashes_of(s).len() && hashes_of(s)[w] == h;
                if w == 0 {
                    assert(hashes_of(r)[0] == h);
                    assert(hashes_of(r).contains(h));
                } else {
                    assert(hashes_of(tail)[w - 1] == h);
                    assert(hashes_of(tail).contains(h));
                    assert(hashes_of(tail).to_set().contains(h));
                    assert(hashes_of(rt).to_set().contains(h));
                    assert(hashes_of(rt).contains(h));
                    let v = choose|v: int| 0 <= v < hashes_of(rt).len() && hashes_of(rt)[v] == h;
                    assert(hashes_of(r)[v + 1] == h);
                    assert(hashes_of(r).contains(h));
                }
            }
        }
        assert(r.to_set().subset_of(s.to_set())) by {
            assert forall|q: QueryV| r.to_set().contains(q) implies s.to_set().contains(q) by {
                let w = choose|w: int| 0 <= w < r.len() && r[w] == q;
                if w == 0 {
                    assert(s[0] == q);
                } else {
                    assert(rt.contains(q));
                    assert(rt.to_set().contains(q));
                    assert(tail.to_set().contains(q));
                    assert(tail.contains(q));
                    let v = choose|v: int| 0 <= v < tail.len() && tail[v] == q;
                    assert(s[v + 1] == q);
                }
            }
        }
    }
}

/// Two strictly increasing hash sequences with the same element set are
/// equal.
proof fn lemma_strict_sorted_set_unique(a: Seq<u32>, b: Seq<u32>)
    requires
        strict_u32(a),
        strict_u32(b),
        a.to_set() == b.to_set(),
    ensures
        a == b,
    decreases a.len(),
{
    if a.len() == 0 {
        if b.len() > 0 {
            assert(b.to_set().contains(b[0]));
            assert(a.contains(b[0]));
            assert(false);
        }
        assert(a =~= b);
    } else {
        assert(a.to_set().contains(a[0])) by {
            assert(a.contains(a[0]));
        }
        assert(b.contains(a[0]));
        let j = choose|j: int| 0 <= j < b.len() && b[j] == a[0];
        assert(b.to_set().contains(b[0])) by {
            assert(b.contains(b[0]));
        }
        assert(a.contains(b[0]));
        let i = choose|i: int| 0 <= i < a.len() && a[i] == b[0];
        assert(a[0] == b[0]) by {
            assert(b[0] <= b[j]);
            assert(a[0] <= a[i]);
        }
        let at = a.drop_first();
        let bt = b.drop_first();
        assert(at.to_set() =~= bt.to_set()) by {
            assert forall|h: u32| at.to_set().contains(h) implies bt.to_set().contains(h) by {
                assert(at.contains(h));
                let w = choose|w: int| 0 <= w < at.len() && at[w] == h;
                assert(a[w + 1] == h);
                assert(a[0] < h);
                assert(a.contains(h));
                assert(a.to_set().contains(h));
                assert(b.contains(h));
                let v = choose|v: int| 0 <= v < b.len() && b[v] == h;
                assert(v != 0);
                assert(bt[v - 1] == h);
                assert(bt.contains(h));
            }
            assert forall|h: u32| bt.to_set().contains(h) implies at.to_set().contains(h) by {
                assert(bt.contains(h));
                let w = choose|w: int| 0 <= w < bt.len() && bt[w] == h;
                assert(b[w + 1] == h);
                assert(b[0] < h);
                assert(b.contains(h));
                assert(b.to_set().contains(h));
                assert(a.contains(h));
                let v = choose|v: int| 0 <= v < a.len() && a[v] == h;
                assert(v != 0);
                assert(at[v - 1] == h);
                assert(at.contains(h));
            }
        }
        assert(strict_u32(at));
        assert(strict_u32(bt));
        lemma_strict_sorted_set_unique(at, bt);
        assert(a =~= seq![a[0]] + at);
        assert(b =~= seq![b[0]] + bt);
    }
}

/// The normalized children of `ts` are exactly the normalizations of the
/// queries of `ts`, as a set.
proof fn lemma_norm_list_set(ts: Seq<QueryV>)
    ensures
        spec_normalize_list(ts, 0).to_set() == ts.to_set().map(|q: QueryV| spec_normalize(q)),
{
    lemma_normalized_views(ts);
    let n = spec_normalize_list(ts, 0);
    let f = |q: QueryV| spec_normalize(q);
    assert forall|x: QueryV| n.to_set().contains(x) implies ts.to_set().map(f).contains(x) by {
        assert(n.contains(x));
        let w = choose|w: int| 0 <= w < n.len() && n[w] == x;
        assert(ts.contains(ts[w]));
        assert(ts.to_set().contains(ts[w]));
        assert(f(ts[w]) == x);
    }
    assert forall|x: QueryV| ts.to_set().map(f).contains(x) implies n.to_set().contains(x) by {
        let q = choose|q: QueryV| ts.to_set().contains(q) && f(q) == x;
        assert(ts.contains(q));
        let w = choose|w: int| 0 <= w < ts.len() && ts[w] == q;
        assert(n[w] == x);
        assert(n.contains(x));
    }
    assert(n.to_set() =~= ts.to_set().map(f));
}

/// The hash set of a child list is determined by its element set.
proof fn lemma_hash_set_from_set(ts1: Seq<QueryV>, ts2: Seq<QueryV>)
    requires
        ts1.to_set() == ts2.to_set(),
    ensures
        hashes_of(ts1).to_set() == hashes_of(ts2).to_set(),
{
    assert forall|h: u32| hashes_of(ts1).to_set().contains(h) implies hashes_of(
        ts2,
    ).to_set().contains(h) by {
        assert(hashes_of(ts1).contains(h));
        let w = choose|w: int| 0 <= w < ts1.len() && hashes_of(ts1)[w] == h;
        assert(ts1.contains(ts1[w]));
        assert(ts1.to_set().contains(ts1[w]));
        assert(ts2.to_set().contains(ts1[w]));
        assert(ts2.contains(ts1[w]));
        let v = choose|v: int| 0 <= v < ts2.len() && ts2[v] == ts1[w];
        assert(hashes_of(ts2)[v] == h);
        assert(hashes_of(ts2).contains(h));
    }
    assert forall|h: u32| hashes_of(ts2).to_set().contains(h) implies hashes_of(
        ts1,
    ).to_set().contains(h) by {
        assert(hashes_of(ts2).contains(h));
        let w = choose|w: int| 0 <= w < ts2.len() && hashes_of(ts2)[w] == h;
        assert(ts2.contains(ts2[w]));
        assert(ts2.to_set().contains(ts2[w]));
        assert(ts1.to_set().contains(ts2[w]));
        assert(ts1.contains(ts2[w]));
        let v = choose|v: int| 0 <= v < ts1.len() && ts1[v] == ts2[w];
        assert(hashes_of(ts1)[v] == h);
        assert(hashes_of(ts1).contains(h));
    }
    assert(hashes_of(ts1).to_set() =~= hashes_of(ts2).to_set());
}

/// Canonical child lists of hash-set-equal child lists carry the same hash
/// sequence.
proof fn lemma_canonical_children_hashes(c1: Seq<QueryV>, c2: Seq<QueryV>)
    requires
        hashes_of(c1).to_set() == hashes_of(c2).to_set(),
    ensures
        hashes_of(spec_canonical_children(c1)) == hashes_of(spec_canonical_children(c2)),
{
    lemma_sort_by_hash_props(c1);
    lemma_sort_by_hash_props(c2);
    lemma_dedup_by_hash_props(spec_sort_by_hash(c1));
    lemma_dedup_by_hash_props(spec_sort_by_hash(c2));
    lemma_strict_sorted_set_unique(
        hashes_of(spec_canonical_children(c1)),
        hashes_of(spec_canonical_children(c2)),
    );
}

/// LAW — canonical hashes are insensitive to sibling order and duplication:
/// if two sibling lists contain the same queries, in whatever order and
/// with whatever repetitions, the `And` (and `Or`) nodes built from them
/// normalize to equal canonical hashes.
pub proof fn lemma_canonical_hash_of_siblings(ts1: Seq<QueryV>, ts2: Seq<QueryV>)
    requires
        ts1.to_set() == ts2.to_set(),
    ensures
        spec_hash_query(spec_normalize(QueryV::And(ts1))) == spec_hash_query(
            spec_normalize(QueryV::And(ts2)),
        ),
        spec_hash_query(spec_normalize(QueryV::Or(ts1))) == spec_hash_query(
            spec_normalize(QueryV::Or(ts2)),
        ),
{
    let n1 = spec_normalize_list(ts1, 0);
    let n2 = spec_normalize_list(ts2, 0);
    lemma_norm_list_set(ts1);
    lemma_norm_list_set(ts2);
    lemma_hash_set_from_set(n1, n2);
    lemma_canonical_children_hashes(n1, n2);
    let d1 = spec_canonical_children(n1);
    let d2 = spec_canonical_children(n2);
    assert(hashes_of(d1).len() == d1.len());
    assert(hashes_of(d2).len() == d2.len());
    if d1.len() == 1 {
        assert(spec_hash_query(d1[0]) == hashes_of(d1)[0]);
        assert(spec_hash_query(d2[0]) == hashes_of(d2)[0]);
    } else {
        lemma_hash_fold_from_hashes(spec_mix(23, 3), d1, d2, 0);
        lemma_hash_fold_from_hashes(spec_mix(23, 4), d1, d2, 0);
    }
}

/// LAW — canonical forms are insensitive to sibling order and duplication:
/// under the hypothesis of `lemma_canonical_hash_of_siblings`, and provided
/// the normalized children are free of hash collisions, the two nodes
/// normalize to structurally identical trees.
pub proof fn lemma_canonical_form_of_siblings(ts1: Seq<QueryV>, ts2: Seq<QueryV>)
    requires
        ts1.to_set() == ts2.to_set(),
        forall|a: QueryV, b: QueryV|
            spec_normalize_list(ts1, 0).to_set().contains(a) && spec_normalize_list(
                ts1,
                0,
            ).to_set().contains(b) && spec_hash_query(a) == spec_hash_query(b) ==> a == b,
    ensures
        spec_normalize(QueryV::And(ts1)) == spec_normalize(QueryV::And(ts2)),
        spec_normalize(QueryV::Or(ts1)) == spec_normalize(QueryV::Or(ts2)),
{
    let n1 = spec_normalize_list(ts1, 0);
    let n2 = spec_normalize_list(ts2, 0);
    lemma_norm_list_set(ts1);
    lemma_norm_list_set(ts2);
    assert(n1.to_set() == n2.to_set());
    lemma_hash_set_from_set(n1, n2);
    lemma_canonical_children_hashes(n1, n2);
    let d1 = spec_canonical_children(n1);
    let d2 = spec_canonical_children(n2);
    lemma_sort_by_hash_props(n1);
    lemma_sort_by_hash_props(n2);
    lemma_dedup_by_hash_props(spec_sort_by_hash(n1));
    lemma_dedup_by_hash_props(spec_sort_by_hash(n2));
    assert(hashes_of(d1).len() == d1.len());
    assert(hashes_of(d2).len() == d2.len());
    assert forall|k: int| 0 <= k < d1.len() implies d1[k] == d2[k] by {
        assert(d1.contains(d1[k]));
        assert(d1.to_set().contains(d1[k]));
        assert(n1.to_set().contains(d1[k]));
        assert(d2.contains(d2[k]));
        assert(d2.to_set().contains(d2[k]));
        assert(n2.to_set().contains(d2[k]));
        assert(spec_hash_query(d1[k]) == hashes_of(d1)[k]);
        assert(spec_hash_query(d2[k]) == hashes_of(d2)[k]);
    }
    assert(d1 =~= d2);
}

impl Query {
    /// Rewrite the query into its canonical form: `And`/`Or` children are
    /// normalized recursively, sorted by structural hash, deduplicated by
    /// hash, and singleton groups are flattened into their only child.
    /// `Term` and `Not` nodes pass through structurally unchanged.
    pub fn into_normalized(self) -> (r: Self)
        ensures
            r@ == spec_normalize(self@),
        decreases self,
    {
        match self {
            Query::Term(t) => Query::Term(t),
            Query::Not(b) => Query::Not(Box::new((*b).into_normalized())),
            Query::And(ts) => {
                let d = normalize_children(ts);
                if d.len() == 1 {
                    let mut d = d;
                    proof {
                        lemma_query_list_view(d@, 0);
                    }
                    d.remove(0)
                } else {
                    proof {
                        lemma_query_list_view(d@, 0);
                    }
                    Query::And(d)
                }
            },
            Query::Or(ts) => {
                let d = normalize_children(ts);
                if d.len() == 1 {
                    let mut d = d;
                    proof {
                        lemma_query_list_view(d@, 0);
                    }
                    d.remove(0)
                } else {
                    proof {
                        lemma_query_list_view(d@, 0);
                    }
                    Query::Or(d)
                }
            },
        }
    }
}

/// Normalize every child, then sort and deduplicate by hash: the canonical
/// child list of an `And`/`Or` node.
#[verifier::loop_isolation(false)]
fn normalize_children(ts: Vec<Query>) -> (r: Vec<Query>)
    ensures
        query_list_view(r@, 0) == spec_canonical_children(
            spec_normalize_list(query_list_view(ts@, 0), 0),
        ),
    decreases ts,
{
    let ghost tso = ts;
    let ghost orig = ts@;
    let ghost tsv = query_list_view(orig, 0);
    proof {
        lemma_query_views(orig);
        lemma_normalized_views(tsv);
    }
    let mut rest = ts;
    let mut normed: Vec<Query> = Vec::new();
    while rest.len() > 0
        invariant
            normed@.len() + rest@.len() == orig.len(),
            rest@ =~= orig.skip(normed@.len() as int),
            tsv == query_list_view(orig, 0),
            tsv.len() == orig.len(),
            forall|k: int| 0 <= k < orig.len() ==> tsv[k] == query_view(#[trigger] orig[k]),
            forall|k: int|
                0 <= k < normed@.len() ==> query_view(#[trigger] normed@[k]) == spec_normalize(
                    tsv[k],
                ),
            tso@ == orig,
        decreases rest@.len(),
    {
        let ghost j = normed@.len() as int;
        let first = rest.remove(0);
        proof {
            assert(first == orig[j]);
            assert(decreases_to!(tso => tso[j]));
            assert(rest@ =~= orig.skip(j + 1));
        }
        let n = first.into_normalized();
        normed.push(n);
    }
    let ghost normedv = spec_normalize_list(tsv, 0);
    proof {
        lemma_query_views(normed@);
        assert(query_list_view(normed@, 0) =~= normedv);
    }
    // Sort by hash, inserting from the back so that the result matches the
    // right fold of `spec_sort_by_hash`.
    let mut normed = normed;
    let mut sorted: Vec<Query> = Vec::new();
    proof {
        assert(normedv.skip(normed@.len() as int) =~= Seq::<QueryV>::empty());
    }
    while normed.len() > 0
        invariant
            normed@.len() <= normedv.len(),
            query_list_view(normed@, 0) =~= normedv.take(normed@.len() as int),
            query_list_view(sorted@, 0) == spec_sort_by_hash(normedv.skip(normed@.len() as int)),
        decreases normed@.len(),
    {
        let ghost m = normed@.len() as int;
        let ghost normed_before = normed@;
        let q = normed.pop().unwrap();
        proof {
            lemma_query_views(normed_before);
            lemma_query_views(normed@);
            assert(normed@ =~= normed_before.drop_last());
            assert(query_list_view(normed@, 0) =~= normedv.take(m - 1));
            assert(query_view(q) == query_list_view(normed_before, 0)[m - 1]);
            let s = normedv.skip(m - 1);
            assert(s[0] == normedv[m - 1]);
            assert(s.drop_first() =~= normedv.skip(m));
            assert(spec_sort_by_hash(s) == spec_insert_sorted(
                query_view(q),
                spec_sort_by_hash(normedv.skip(m)),
            ));
        }
        sorted = insert_by_hash(sorted, q);
    }
    proof {
        assert(normedv.skip(0) =~= normedv);
    }
    let ghost sortedv = spec_sort_by_hash(normedv);
    // Remove adjacent duplicates by hash, keeping the first of each run.
    let mut rest = sorted;
    let mut out: Vec<Query> = Vec::new();
    if rest.len() == 0 {
        proof {
            lemma_query_views(rest@);
            lemma_query_views(out@);
            assert(query_list_view(out@, 0) =~= spec_dedup_by_hash(sortedv));
        }
        return out;
    }
    let ghost rest_before = rest@;
    let mut cur = rest.remove(0);
    proof {
        lemma_query_views(rest_before);
        lemma_query_views(rest@);
        assert(rest@ =~= rest_before.drop_first());
        assert(query_view(cur) == query_list_view(rest_before, 0)[0]);
        assert(seq![query_view(cur)] + query_list_view(rest@, 0) =~= sortedv);
    }
    while rest.len() > 0
        invariant
            spec_dedup_by_hash(sortedv) == query_list_view(out@, 0) + spec_dedup_by_hash(
                seq![query_view(cur)] + query_list_view(rest@, 0),
            ),
        decreases rest@.len(),
    {
        let ghost restv_before = query_list_view(rest@, 0);
        let ghost rest_before = rest@;
        let nxt = rest.remove(0);
        let ghost restv = query_list_view(rest@, 0);
        proof {
            lemma_query_views(rest_before);
            lemma_query_views(rest@);
            assert(rest@ =~= rest_before.drop_first());
            assert(restv_before[0] == query_view(nxt));
            assert(seq![query_view(nxt)] + restv =~= restv_before);
        }
        let ghost s = seq![query_view(cur)] + restv_before;
        proof {
            assert(s[0] == query_view(cur));
            assert(s[1] == query_view(nxt));
        }
        if hash_t(&nxt) == hash_t(&cur) {
            proof {
                assert(seq![s[0]] + s.skip(2) =~= seq![query_view(cur)] + restv);
            }
        } else {
            proof {
                assert(s.drop_first() =~= seq![query_view(nxt)] + restv);
                assert(spec_dedup_by_hash(s) == seq![s[0]] + spec_dedup_by_hash(s.drop_first()));
            }
            let ghost out_before = out@;
            let ghost old_cur = cur;
            out.push(cur);
            cur = nxt;
            proof {
                lemma_query_list_view_push(out_before, old_cur);
                assert((query_list_view(out_before, 0) + seq![s[0]]) + spec_dedup_by_hash(
                    seq![query_view(cur)] + restv,
                ) =~= query_list_view(out_before, 0) + (seq![s[0]] + spec_dedup_by_hash(
                    seq![query_view(cur)] + restv,
                )));
            }
        }
    }
    proof {
        assert(query_list_view(rest@, 0) =~= Seq::<QueryV>::empty());
        assert(seq![query_view(cur)] + query_list_view(rest@, 0) =~= seq![query_view(cur)]);
        assert(spec_dedup_by_hash(seq![query_view(cur)]) == seq![query_view(cur)]);
    }
    let ghost out_before = out@;
    out.push(cur);
    proof {
        lemma_query_list_view_push(out_before, cur);
    }
    out
}

/// Insert `q` into `sorted` (sorted by hash) before the first element of
/// equal or larger hash.
fn insert_by_hash(sorted: Vec<Query>, q: Query) -> (r: Vec<Query>)
    ensures
        query_list_view(r@, 0) == spec_insert_sorted(query_view(q), query_list_view(sorted@, 0)),
{
    let ghost sv = query_list_view(sorted@, 0);
    proof {
        lemma_query_views(sorted@);
    }
    let hq = hash_t(&q);
    let mut k: usize = 0;
    while k < sorted.len() && hq > hash_t(&sorted[k])
        invariant
            0 <= k <= sorted.len(),
            hq == spec_hash_query(query_view(q)),
            forall|j: int|
                0 <= j < k ==> spec_hash_query(#[trigger] sv[j]) < spec_hash_query(query_view(q)),
            sv.len() == sorted@.len(),
            forall|j: int| 0 <= j < sorted@.len() ==> sv[j] == query_view(#[trigger] sorted@[j]),
        decreases sorted.len() - k,
    {
        k = k + 1;
    }
    proof {
        lemma_insert_sorted_at(query_view(q), sv, k as int);
    }
    let mut out = sorted;
    out.insert(k, q);
    proof {
        lemma_query_views(out@);
        assert(query_list_view(out@, 0) =~= sv.take(k as int) + seq![query_view(q)] + sv.skip(
            k as int,
        ));
    }
    out
}

// ---------------------------------------------------------------------------
// Textual rendering.
//
// `to_query_string` reconstructs a re-parseable string: `tag:"x"` for terms,
// `(a b)` for AND, `(a, b)` for OR, `-x` for NOT. `write_query_tree` renders
// an indented tree for diagnostic display.
// ---------------------------------------------------------------------------

/// A sequence of `n` copies of `c`.
pub open spec fn spec_repeat_char(c: char, n: nat) -> Seq<char> {
    Seq::new(n, |i: int| c)
}

/// The display form of a term: `kind:"content"`.
pub open spec fn spec_display_term(t: TermV) -> Seq<char> {
    match t {
        TermV::Tag(dt) => "tag:\""@ + crate::models::spec_tag_text(dt.name, dt.discriminator)
            + "\""@,
        TermV::Title(s) => "title:\""@ + s + "\""@,
        TermV::Author(s) => "author:\""@ + s + "\""@,
        TermV::Caption(s) => "caption:\""@ + s + "\""@,
        TermV::Url(s) => "url:\""@ + s + "\""@,
    }
}

/// The display form of a query.
pub open spec fn spec_display_query(q: QueryV) -> Seq<char>
    decreases q, 1int, 0int,
{
    match q {
        QueryV::Term(t) => spec_display_term(t),
        QueryV::Not(b) => "-"@ + spec_display_query(*b),
        QueryV::And(ts) => "("@ + spec_display_list(ts, " "@, 0) + ")"@,
        QueryV::Or(ts) => "("@ + spec_display_list(ts, ", "@, 0) + ")"@,
    }
}

/// The display forms of the queries of `ts` from index `i` on, joined by
/// `sep`.
pub open spec fn spec_display_list(ts: Seq<QueryV>, sep: Seq<char>, i: int) -> Seq<char>
    decreases ts, ts.len() - i, 1int,
{
    if i < 0 || i >= ts.len() {
        Seq::empty()
    } else if i == ts.len() - 1 {
        spec_display_query(ts[i])
    } else {
        spec_display_query(ts[i]) + sep + spec_display_list(ts, sep, i + 1)
    }
}

impl QueryTerm {
    /// Render the term as query text.
    pub fn to_query_string(&self) -> (r: String)
        ensures
            r@ == spec_display_term(self@),
    {
        let mut out = String::new();
        match self {
            QueryTerm::Tag(dt) => {
                out.append("tag:\"");
                let t = dt.to_text();
                out.append(t.as_str());
            }
            QueryTerm::Title(s) => {
                out.append("title:\"");
                out.append(s.as_str());
            }
            QueryTerm::Author(s) => {
                out.append("author:\"");
                out.append(s.as_str());
            }
            QueryTerm::Caption(s) => {
                out.append("caption:\"");
                out.append(s.as_str());
            }
            QueryTerm::Url(s) => {
                out.append("url:\"");
                out.append(s.as_str());
            }
        }
        out.append("\"");
        out
    }
}

impl Query {
    /// Render the query as re-parseable query text.
    pub fn to_query_string(&self) -> (r: String)
        ensures
            r@ == spec_display_query(self@),
        decreases *self,
    {
        match self {
            Query::Term(t) => t.to_query_string(),
            Query::Not(b) => {
                let mut out = String::new();
                out.append("-");
                let inner = b.to_query_string();
                out.append(inner.as_str());
                out
            }
            Query::And(ts) => display_list(ts, " ", Ghost(*self)),
            Query::Or(ts) => display_list(ts, ", ", Ghost(*self)),
        }
    }
}

/// Render a parenthesized, separator-joined child list.
fn display_list(ts: &Vec<Query>, sep: &str, parent: Ghost<Query>) -> (r: String)
    requires
        decreases_to!(parent@ => *ts),
    ensures
        r@ == "("@ + spec_display_list(query_list_view(ts@, 0), sep@, 0) + ")"@,
    decreases parent@, 0int,
{
    let ghost vs = query_list_view(ts@, 0);
    proof {
        lemma_query_views(ts@);
    }
    let mut out = String::new();
    out.append("(");
    let ghost full = spec_display_list(vs, sep@, 0);
    let mut i: usize = 0;
    proof {
        assert(out@ =~= "("@);
        if ts.len() == 0 {
            assert(full =~= Seq::<char>::empty());
        }
    }
    while i < ts.len()
        invariant
            0 <= i <= ts.len(),
            vs == query_list_view(ts@, 0),
            vs.len() == ts.len(),
            forall|k: int| 0 <= k < ts.len() ==> vs[k] == query_view(#[trigger] ts@[k]),
            full == spec_display_list(vs, sep@, 0),
            "("@ + full == out@ + (if i < ts.len() {
                spec_display_list(vs, sep@, i as int)
            } else {
                Seq::<char>::empty()
            }),
            decreases_to!(parent@ => *ts),
        decreases ts.len() - i,
    {
        proof {
            assert(decreases_to!(*ts => ts@[i as int]));
        }
        let ghost out0 = out@;
        let ghost rest = spec_display_list(vs, sep@, i as int);
        let piece = ts[i].to_query_string();
        out.append(piece.as_str());
        if i + 1 < ts.len() {
            out.append(sep);
            proof {
                let rest1 = spec_display_list(vs, sep@, i as int + 1);
                assert(rest == spec_display_query(vs[i as int]) + sep@ + rest1);
                assert(out@ + rest1 =~= out0 + rest);
            }
        } else {
            proof {
                assert(rest == spec_display_query(vs[i as int]));
                assert(out@ =~= out0 + rest);
            }
        }
        i = i + 1;
    }
    proof {
        assert(out@ =~= "("@ + full);
    }
    out.append(")");
    out
}

/// Unfolding of `spec_display_list` one element at a time, with the length
/// bookkeeping needed by `display_list`.
proof fn lemma_display_list_suffix(ts: Seq<QueryV>, sep: Seq<char>, i: int)
    requires
        0 <= i < ts.len(),
    ensures
        i == ts.len() - 1 ==> spec_display_list(ts, sep, i) == spec_display_query(ts[i]),
        i < ts.len() - 1 ==> spec_display_list(ts, sep, i) == spec_display_query(ts[i]) + sep
            + spec_display_list(ts, sep, i + 1),
        i < ts.len() - 1 ==> spec_display_list(ts, sep, i + 1).len() <= spec_display_list(
            ts,
            sep,
            i,
        ).len(),
{
}

// ---------------------------------------------------------------------------
// Construction helpers, counting, and subplan naming.
// ---------------------------------------------------------------------------

/// The number of nodes of a query tree.
pub open spec fn spec_operation_count(q: QueryV) -> nat
    decreases q, 1int,
{
    match q {
        QueryV::Term(_) => 1,
        QueryV::Not(b) => 1 + spec_operation_count(*b),
        QueryV::And(ts) => 1 + spec_operation_count_list(ts, 0),
        QueryV::Or(ts) => 1 + spec_operation_count_list(ts, 0),
    }
}

/// The number of nodes of the queries of `ts`, from index `i` on.
pub open spec fn spec_operation_count_list(ts: Seq<QueryV>, i: int) -> nat
    decreases ts, ts.len() - i, 0int,
{
    if i < 0 || i >= ts.len() {
        0
    } else {
        spec_operation_count(ts[i]) + spec_operation_count_list(ts, i + 1)
    }
}

impl Query {
    /// The deterministic name of the subplan holding this query's matches:
    /// `t` followed by the canonical hash in hexadecimal, without leading
    /// zeros. Equal canonical hashes give equal names, so repeated subtrees
    /// share one subset.
    pub fn table_name(&self) -> (r: String)
        ensures
            r@ == "t"@ + crate::utils::spec_hex_digits(spec_hash_query(self@)),
    {
        let mut out = String::new();
        out.append("t");
        let hex = crate::utils::hash_t_hex(self);
        out.append(hex.as_str());
        out
    }

    /// Negate the query.
    pub fn not(self) -> (r: Self)
        ensures
            r@ == QueryV::Not(Box::new(self@)),
    {
        Query::Not(Box::new(self))
    }

    /// Conjoin the query with `other`.
    pub fn and(self, other: Vec<Query>) -> (r: Self)
        ensures
            r@ == QueryV::And(seq![self@] + query_list_view(other@, 0)),
    {
        let ghost sv = self@;
        let ghost ov = other@;
        let mut v: Vec<Query> = Vec::new();
        v.push(self);
        let mut other = other;
        v.append(&mut other);
        proof {
            lemma_query_views(v@);
            lemma_query_views(ov);
            assert(query_list_view(v@, 0) =~= seq![sv] + query_list_view(ov, 0));
        }
        Query::And(v)
    }

    /// Disjoin the query with `other`.
    pub fn or(self, other: Vec<Query>) -> (r: Self)
        ensures
            r@ == QueryV::Or(seq![self@] + query_list_view(other@, 0)),
    {
        let ghost sv = self@;
        let ghost ov = other@;
        let mut v: Vec<Query> = Vec::new();
        v.push(self);
        let mut other = other;
        v.append(&mut other);
        proof {
            lemma_query_views(v@);
            lemma_query_views(ov);
            assert(query_list_view(v@, 0) =~= seq![sv] + query_list_view(ov, 0));
        }
        Query::Or(v)
    }

    /// An `Or` of the given queries, flattened when there is only one.
    pub fn new_or(queries: Vec<Self>) -> (r: Self)
        requires
            queries.len() > 0,
        ensures
            r@ == if queries@.len() == 1 {
                query_view(queries@[0])
            } else {
                QueryV::Or(query_list_view(queries@, 0))
            },
    {
        proof {
            lemma_query_views(queries@);
        }
        if queries.len() == 1 {
            let mut queries = queries;
            queries.remove(0)
        } else {
            Query::Or(queries)
        }
    }

    /// An `And` of the given queries, flattened when there is only one.
    pub fn new_and(queries: Vec<Self>) -> (r: Self)
        requires
            queries.len() > 0,
        ensures
            r@ == if queries@.len() == 1 {
                query_view(queries@[0])
            } else {
                QueryV::And(query_list_view(queries@, 0))
            },
    {
        proof {
            lemma_query_views(queries@);
        }
        if queries.len() == 1 {
            let mut queries = queries;
            queries.remove(0)
        } else {
            Query::And(queries)
        }
    }

    /// The number of nodes of the query tree.
    pub fn operation_count(&self) -> (r: usize)
        requires
            spec_operation_count(self@) <= usize::MAX,
        ensures
            r == spec_operation_count(self@),
        decreases *self,
    {
        match self {
            Query::Term(_) => 1,
            Query::Not(b) => 1 + b.operation_count(),
            Query::And(ts) => 1 + operation_count_list(ts, Ghost(*self)),
            Query::Or(ts) => 1 + operation_count_list(ts, Ghost(*self)),
        }
    }
}

/// Sum of the node counts of the children.
fn operation_count_list(ts: &Vec<Query>, parent: Ghost<Query>) -> (r: usize)
    requires
        decreases_to!(parent@ => *ts),
        spec_operation_count_list(query_list_view(ts@, 0), 0) < usize::MAX,
    ensures
        r == spec_operation_count_list(query_list_view(ts@, 0), 0),
    decreases parent@, 0int,
{
    let ghost vs = query_list_view(ts@, 0);
    proof {
        lemma_query_views(ts@);
    }
    let mut acc: usize = 0;
    let mut i: usize = 0;
    while i < ts.len()
        invariant
            0 <= i <= ts.len(),
            vs == query_list_view(ts@, 0),
            vs.len() == ts.len(),
            forall|k: int| 0 <= k < ts.len() ==> vs[k] == query_view(#[trigger] ts@[k]),
            acc + spec_operation_count_list(vs, i as int) == spec_operation_count_list(vs, 0),
            spec_operation_count_list(vs, 0) < usize::MAX,
            decreases_to!(parent@ => *ts),
        decreases ts.len() - i,
    {
        proof {
            assert(decreases_to!(*ts => ts@[i as int]));
            assert(spec_operation_count(vs[i as int]) + spec_operation_count_list(
                vs,
                i as int + 1,
            ) == spec_operation_count_list(vs, i as int));
        }
        let c = ts[i].operation_count();
        acc = acc + c;
        i = i + 1;
    }
    acc
}

// ---------------------------------------------------------------------------
// Query-tree rendering.
// ---------------------------------------------------------------------------

/// Indentation grows by two per nesting level, saturating at the machine
/// limit so that rendering is total.
pub open spec fn spec_bump(ind: nat) -> nat {
    if ind + 2 <= usize::MAX {
        ind + 2
    } else {
        ind as nat
    }
}

/// The indented-tree rendering of a query: one line per term (prefixed by
/// its accumulated negations), and an `AND (`/`OR (`…`)` bracket pair per
/// group. Negations eat into the indentation, as far as it goes.
pub open spec fn spec_query_tree(q: QueryV, ind: nat, neg: nat) -> Seq<char>
    decreases q, 1int, 0int,
{
    let indent = spec_repeat_char(' ', if neg <= ind { (ind - neg) as nat } else { 0 });
    let negate = spec_repeat_char('-', neg);
    match q {
        QueryV::Term(t) => indent + negate + spec_display_term(t) + "\n"@,
        QueryV::Not(b) => spec_query_tree(*b, ind, neg + 1),
        QueryV::And(ts) => indent + negate + "AND (\n"@ + spec_query_tree_list(
            ts,
            spec_bump(ind),
            0,
        ) + indent + negate + ")\n"@,
        QueryV::Or(ts) => indent + negate + "OR (\n"@ + spec_query_tree_list(
            ts,
            spec_bump(ind),
            0,
        ) + indent + negate + ")\n"@,
    }
}

/// The concatenated tree renderings of the queries of `ts` from index `i`
/// on, each at indentation `ind` with no pending negations.
pub open spec fn spec_query_tree_list(ts: Seq<QueryV>, ind: nat, i: int) -> Seq<char>
    decreases ts, ts.len() - i, 1int,
{
    if i < 0 || i >= ts.len() {
        Seq::empty()
    } else {
        spec_query_tree(ts[i], ind, 0) + spec_query_tree_list(ts, ind, i + 1)
    }
}

/// A string of `n` copies of the one-character slice `c`.
fn repeat_str(c: &str, n: usize) -> (r: String)
    requires
        c@.len() == 1,
    ensures
        r@ == spec_repeat_char(c@[0], n as nat),
{
    let mut out = String::new();
    let mut i: usize = 0;
    while i < n
        invariant
            0 <= i <= n,
            c@.len() == 1,
            out@ =~= spec_repeat_char(c@[0], i as nat),
        decreases n - i,
    {
        out.append(c);
        proof {
            assert(out@ =~= spec_repeat_char(c@[0], i as nat + 1));
        }
        i = i + 1;
    }
    out
}

impl Query {
    /// Render the indented query tree used for diagnostic display.
    pub fn write_query_tree(&self) -> (r: String)
        requires
            spec_operation_count(self@) <= usize::MAX,
        ensures
            r@ == spec_query_tree(self@, 0, 0),
    {
        self.render_query_tree(0, 0)
    }

    /// Render the query tree at the given indentation, with `neg` pending
    /// negations. The pending negations are bounded by the node count, so
    /// the counter cannot overflow.
    fn render_query_tree(&self, indentation: usize, negations: usize) -> (r: String)
        requires
            negations + spec_operation_count(self@) <= usize::MAX,
        ensures
            r@ == spec_query_tree(self@, indentation as nat, negations as nat),
        decreases *self, 1int,
    {
        proof {
            reveal_strlit(" ");
            reveal_strlit("-");
        }
        let indent = repeat_str(" ", if negations <= indentation {
            indentation - negations
        } else {
            0
        });
        let negate = repeat_str("-", negations);
        match self {
            Query::Term(t) => {
                let mut out = indent;
                out.append(negate.as_str());
                let term = t.to_query_string();
                out.append(term.as_str());
                out.append("\n");
                out
            }
            Query::Not(b) => b.render_query_tree(indentation, negations + 1),
            Query::And(ts) => {
                let mut out = indent;
                out.append(negate.as_str());
                out.append("AND (\n");
                let inner = render_tree_list(ts, saturating_bump(indentation), Ghost(*self));
                out.append(inner.as_str());
                out.append(&self.render_close(indentation, negations));
                proof {
                    assert(out@ =~= spec_query_tree(self@, indentation as nat, negations as nat));
                }
                out
            }
            Query::Or(ts) => {
                let mut out = indent;
                out.append(negate.as_str());
                out.append("OR (\n");
                let inner = render_tree_list(ts, saturating_bump(indentation), Ghost(*self));
                out.append(inner.as_str());
                out.append(&self.render_close(indentation, negations));
                proof {
                    assert(out@ =~= spec_query_tree(self@, indentation as nat, negations as nat));
                }
                out
            }
        }
    }

    /// The closing bracket line of a group.
    fn render_close(&self, indentation: usize, negations: usize) -> (r: String)
        ensures
            r@ == spec_repeat_char(' ', if negations <= indentation {
                (indentation - negations) as nat
            } else {
                0
            }) + spec_repeat_char('-', negations as nat) + ")\n"@,
    {
        proof {
            reveal_strlit(" ");
            reveal_strlit("-");
        }
        let mut out = repeat_str(" ", if negations <= indentation {
            indentation - negations
        } else {
            0
        });
        let negate = repeat_str("-", negations);
        out.append(negate.as_str());
        out.append(")\n");
        out
    }
}

/// Every child's node count is bounded by the sum over the whole list.
proof fn lemma_op_count_bound(ts: Seq<QueryV>, j: int, i: int)
    requires
        0 <= j <= i < ts.len(),
    ensures
        spec_operation_count(ts[i]) <= spec_operation_count_list(ts, j),
    decreases i - j,
{
    if j < i {
        lemma_op_count_bound(ts, j + 1, i);
    }
}

/// Saturating indentation bump.
fn saturating_bump(ind: usize) -> (r: usize)
    ensures
        r == spec_bump(ind as nat),
{
    if ind <= usize::MAX - 2 {
        ind + 2
    } else {
        ind
    }
}

/// Render every child at indentation `ind`.
fn render_tree_list(ts: &Vec<Query>, ind: usize, parent: Ghost<Query>) -> (r: String)
    requires
        decreases_to!(parent@ => *ts),
        spec_operation_count_list(query_list_view(ts@, 0), 0) <= usize::MAX,
    ensures
        r@ == spec_query_tree_list(query_list_view(ts@, 0), ind as nat, 0),
    decreases parent@, 0int, 0int,
{
    let ghost vs = query_list_view(ts@, 0);
    proof {
        lemma_query_views(ts@);
    }
    let mut out = String::new();
    let mut i: usize = 0;
    proof {
        assert(out@ =~= Seq::<char>::empty());
    }
    while i < ts.len()
        invariant
            0 <= i <= ts.len(),
            vs == query_list_view(ts@, 0),
            vs.len() == ts.len(),
            forall|k: int| 0 <= k < ts.len() ==> vs[k] == query_view(#[trigger] ts@[k]),
            out@ + spec_query_tree_list(vs, ind as nat, i as int) == spec_query_tree_list(
                vs,
                ind as nat,
                0,
            ),
            decreases_to!(parent@ => *ts),
            spec_operation_count_list(vs, 0) <= usize::MAX,
        decreases ts.len() - i,
    {
        proof {
            assert(decreases_to!(*ts => ts@[i as int]));
            lemma_op_count_bound(vs, 0, i as int);
        }
        let ghost out0 = out@;
        let piece = ts[i].render_query_tree(ind, 0);
        out.append(piece.as_str());
        proof {
            assert(out0 + (spec_query_tree(vs[i as int], ind as nat, 0) + spec_query_tree_list(
                vs,
                ind as nat,
                i as int + 1,
            )) =~= out@ + spec_query_tree_list(vs, ind as nat, i as int + 1));
        }
        i = i + 1;
    }
    out
}

} // verus!
