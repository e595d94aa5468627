//! Tag references and the tag-expression language for bulk, hierarchical
//! tagging.

use vstd::prelude::*;

use crate::catalog::{
    opt_str_view, query_matches, same_opt, spec_find_tag, tag_key_is, wf_v, Catalog, CatalogV,
};
use crate::models::{MetaTag, TagId, TagV, WorkTag};
use crate::search::QueryV;

pub mod parse;

verus! {

/// A tag reference: a name plus an optional discriminator distinguishing
/// same-named tags.
#[derive(Debug, Clone)]
pub struct DiscriminatedTag {
    pub name: String,
    pub discriminator: Option<String>,
}

/// Mathematical model of a [`DiscriminatedTag`].
pub struct DTagV {
    pub name: Seq<char>,
    pub discriminator: Option<Seq<char>>,
}

impl View for DiscriminatedTag {
    type V = DTagV;

    open spec fn view(&self) -> DTagV {
        DTagV {
            name: self.name@,
            discriminator: match self.discriminator {
                Some(ref d) => Some(d@),
                None => None,
            },
        }
    }
}

impl DiscriminatedTag {
    /// A copy of the tag reference.
    pub fn clone_dtag(&self) -> (r: DiscriminatedTag)
        ensures
            r@ == self@,
    {
        DiscriminatedTag {
            name: self.name.clone(),
            discriminator: match &self.discriminator {
                Some(d) => Some(d.clone()),
                None => None,
            },
        }
    }

    /// The display form: `name` or `name#discriminator`.
    pub fn to_text(&self) -> (r: String)
        ensures
            r@ == crate::models::spec_tag_text(self@.name, self@.discriminator),
    {
        let mut out = self.name.clone();
        match &self.discriminator {
            Some(d) => {
                out.append("#");
                out.append(d.as_str());
            }
            None => {}
        }
        out
    }
}

/// The view of a list of tag references.
pub open spec fn dtag_list_view(ts: Seq<DiscriminatedTag>) -> Seq<DTagV> {
    Seq::new(ts.len(), |i: int| ts[i]@)
}

/// The view of a hierarchy of tag references.
pub open spec fn hierarchy_view(h: Seq<Vec<DiscriminatedTag>>) -> Seq<Seq<DTagV>> {
    Seq::new(h.len(), |i: int| dtag_list_view(h[i]@))
}

/// A tag expression: an optional filter query plus an ordered chain of
/// levels, each level a set of tag references. The first level is applied
/// to the works the filter matches; each adjacent pair of levels produces
/// implication edges from every tag of the later level to every tag of the
/// earlier one.
#[derive(Debug)]
pub struct TagExpression {
    pub query: Option<crate::search::Query>,
    pub hierarchy: Vec<Vec<DiscriminatedTag>>,
}

/// Mathematical model of a [`TagExpression`].
pub struct TagExprV {
    pub query: Option<crate::search::QueryV>,
    pub hierarchy: Seq<Seq<DTagV>>,
}

impl View for TagExpression {
    type V = TagExprV;

    open spec fn view(&self) -> TagExprV {
        TagExprV {
            query: match self.query {
                Some(ref q) => Some(q@),
                None => None,
            },
            hierarchy: hierarchy_view(self.hierarchy@),
        }
    }
}

impl TagExpression {
    /// Build a tag expression from its parts.
    pub fn new(query: Option<crate::search::Query>, hierarchy: Vec<Vec<DiscriminatedTag>>) -> (r:
        Self)
        ensures
            r.query == query,
            r.hierarchy == hierarchy,
    {
        TagExpression { query, hierarchy }
    }
}

/// The estimated number of connections of a hierarchy: the sum over
/// adjacent level pairs of the product of their sizes. The filtered level's
/// own work-tag connections are not counted.
pub open spec fn spec_approximate_connections(h: Seq<Seq<DTagV>>, i: int) -> nat
    decreases h.len() - i,
{
    if i < 0 || i + 1 >= h.len() {
        0
    } else {
        h[i].len() * h[i + 1].len() + spec_approximate_connections(h, i + 1)
    }
}

impl TagExpression {
    /// Estimate, before execution, how many connections the expression
    /// describes: the sum of |level| x |next level| over adjacent levels.
    pub fn approximate_connections(&self) -> (r: usize)
        requires
            spec_approximate_connections(self@.hierarchy, 0) <= usize::MAX,
        ensures
            r == spec_approximate_connections(self@.hierarchy, 0),
    {
        let ghost hv = self@.hierarchy;
        let mut acc: usize = 0;
        let mut i: usize = 0;
        let n = self.hierarchy.len();
        proof {
            assert(hv.len() == n);
        }
        let bound = if n == 0 {
            0
        } else {
            n - 1
        };
        while i < bound
            invariant
                0 <= i <= n,
                bound == if n == 0 { 0int } else { n - 1 },
                n == self.hierarchy@.len(),
                hv == self@.hierarchy,
                hv.len() == n,
                acc + spec_approximate_connections(hv, i as int) == spec_approximate_connections(
                    hv,
                    0,
                ),
                spec_approximate_connections(hv, 0) <= usize::MAX,
            decreases n - i,
        {
            proof {
                assert(hv[i as int] == dtag_list_view(self.hierarchy@[i as int]@));
                assert(hv[i as int + 1] == dtag_list_view(self.hierarchy@[i as int + 1]@));
                assert(hv[i as int].len() * hv[i as int + 1].len() + spec_approximate_connections(
                    hv,
                    i as int + 1,
                ) == spec_approximate_connections(hv, i as int));
            }
            let c = self.hierarchy[i].len() * self.hierarchy[i + 1].len();
            acc = acc + c;
            i = i + 1;
        }
        proof {
            assert(spec_approximate_connections(hv, i as int) == 0);
        }
        acc
    }
}

// ---------------------------------------------------------------------------
// Execution of a tag expression against a catalog.
// ---------------------------------------------------------------------------

/// Whether the work-tag edge table holds `ed`.
pub open spec fn wt_in(s: Seq<WorkTag>, ed: WorkTag) -> bool {
    exists|k: int| 0 <= k < s.len() && #[trigger] s[k] == ed
}

/// Whether the implication edge table holds `ed`.
pub open spec fn mt_in(s: Seq<MetaTag>, ed: MetaTag) -> bool {
    exists|k: int| 0 <= k < s.len() && #[trigger] s[k] == ed
}

/// Whether tag id `id` carries the key of some reference of `level`.
pub open spec fn key_in_level(tags: Seq<TagV>, id: u64, level: Seq<DTagV>) -> bool {
    id < tags.len() && exists|k: int|
        0 <= k < level.len() && tag_key_is(
            tags,
            id as int,
            (#[trigger] level[k]).name,
            level[k].discriminator,
        )
}

/// Whether the expression's filter matches any work of the catalog.
pub open spec fn spec_had_matches(e: TagExprV, c: CatalogV) -> bool {
    match e.query {
        None => false,
        Some(q) => exists|i: int|
            0 <= i < c.works.len() && query_matches(c, q, #[trigger] c.works[i]),
    }
}

/// Whether execution creates the hierarchy's tags at all: the first level's
/// tags are created per matched work, every level's tags are created by the
/// level-pair walk when there are adjacent levels.
pub open spec fn creates_tags(e: TagExprV, o: CatalogV) -> bool {
    e.hierarchy.len() > 1 || spec_had_matches(e, o)
}

/// The condition under which execution adds a work-tag edge: the work
/// matched the filter against the entry catalog, and the tag carries a key
/// of the first level.
pub open spec fn work_edge_cond(e: TagExprV, o: CatalogV, c: CatalogV, ed: WorkTag) -> bool {
    match e.query {
        None => false,
        Some(q) => e.hierarchy.len() > 0 && ed.work_id.0 < o.works.len() && query_matches(
            o,
            q,
            o.works[ed.work_id.0 as int],
        ) && key_in_level(c.tags, ed.tag.0, e.hierarchy[0]),
    }
}

/// The condition under which execution adds an implication edge: for some
/// adjacent pair of levels, the edge runs from a tag keyed in the later
/// level to a tag keyed in the earlier one.
pub open spec fn meta_edge_cond(e: TagExprV, c: CatalogV, ed: MetaTag) -> bool {
    exists|w: int, pi: int, ni: int|
        0 <= w < e.hierarchy.len() - 1 && 0 <= pi < e.hierarchy[w].len() && 0 <= ni
            < e.hierarchy[w + 1].len() && ed.tag.0 < c.tags.len() && ed.target.0 < c.tags.len()
            && #[trigger] tag_key_is(
            c.tags,
            ed.tag.0 as int,
            e.hierarchy[w + 1][ni].name,
            e.hierarchy[w + 1][ni].discriminator,
        ) && #[trigger] tag_key_is(
            c.tags,
            ed.target.0 as int,
            e.hierarchy[w][pi].name,
            e.hierarchy[w][pi].discriminator,
        )
}

/// Whether the tag row at index `k` carries the key of some hierarchy
/// reference.
pub open spec fn tag_keyed_in_hierarchy(h: Seq<Seq<DTagV>>, tags: Seq<TagV>, k: int) -> bool {
    exists|w: int, j: int|
        0 <= w < h.len() && 0 <= j < h[w].len() && tag_key_is(
            tags,
            k,
            (#[trigger] h[w][j]).name,
            h[w][j].discriminator,
        )
}

/// What executing a tag expression does to a catalog, and what the returned
/// connection count means: the works and authors are untouched; the tag,
/// work-tag and implication tables only grow; every created tag carries a
/// hierarchy key; the hierarchy's tags exist afterwards (when execution
/// reaches them at all); an edge is present afterwards exactly when it was
/// present before or the expression describes it; and the count is the
/// number of edges that did not already exist.
pub open spec fn execute_post(e: TagExprV, o: CatalogV, c: CatalogV, count: nat) -> bool {
    &&& c.works == o.works
    &&& c.authors == o.authors
    &&& c.author_names == o.author_names
    &&& o.tags.is_prefix_of(c.tags)
    &&& o.work_tags.is_prefix_of(c.work_tags)
    &&& o.meta_tags.is_prefix_of(c.meta_tags)
    &&& count == (c.work_tags.len() - o.work_tags.len()) + (c.meta_tags.len()
        - o.meta_tags.len())
    &&& forall|k: int|
        o.tags.len() <= k < c.tags.len() ==> creates_tags(e, o) && #[trigger] tag_keyed_in_hierarchy(
            e.hierarchy,
            c.tags,
            k,
        )
    &&& (creates_tags(e, o) ==> forall|w: int, j: int|
        0 <= w < e.hierarchy.len() && 0 <= j < e.hierarchy[w].len() ==> spec_find_tag(
            c.tags,
            (#[trigger] e.hierarchy[w][j]).name,
            e.hierarchy[w][j].discriminator,
        ) is Some)
    &&& forall|ed: WorkTag| #[trigger]
        wt_in(c.work_tags, ed) <==> wt_in(o.work_tags, ed) || work_edge_cond(e, o, c, ed)
    &&& forall|ed: MetaTag| #[trigger]
        mt_in(c.meta_tags, ed) <==> mt_in(o.meta_tags, ed) || meta_edge_cond(e, c, ed)
}

/// A tag found in a prefix is found in the whole table.
pub proof fn lemma_find_tag_grows(t1: Seq<TagV>, t2: Seq<TagV>, name: Seq<char>, disc: Option<
    Seq<char>,
>)
    requires
        t1.is_prefix_of(t2),
        spec_find_tag(t1, name, disc) is Some,
    ensures
        spec_find_tag(t2, name, disc) is Some,
{
    let k = choose|k: int| 0 <= k < t1.len() && tag_key_is(t1, k, name, disc);
    assert(t2[k] == t1[k]);
    assert(tag_key_is(t2, k, name, disc));
}

/// Membership after a work-tag edge push.
proof fn lemma_wt_push(before: Seq<WorkTag>, after: Seq<WorkTag>, e: WorkTag)
    requires
        after == before.push(e),
    ensures
        forall|ed: WorkTag| #[trigger] wt_in(after, ed) <==> wt_in(before, ed) || ed == e,
{
    assert(after[before.len() as int] == e);
    assert forall|ed: WorkTag| #[trigger] wt_in(after, ed) <==> wt_in(before, ed) || ed == e by {
        if wt_in(after, ed) {
            let k = choose|k: int| 0 <= k < after.len() && #[trigger] after[k] == ed;
            if k < before.len() {
                assert(before[k] == ed);
            }
        }
        if wt_in(before, ed) {
            let k = choose|k: int| 0 <= k < before.len() && #[trigger] before[k] == ed;
            assert(after[k] == ed);
        }
        if ed == e {
            assert(after[before.len() as int] == ed);
        }
    }
}

/// Membership after an implication edge push.
proof fn lemma_mt_push(before: Seq<MetaTag>, after: Seq<MetaTag>, e: MetaTag)
    requires
        after == before.push(e),
    ensures
        forall|ed: MetaTag| #[trigger] mt_in(after, ed) <==> mt_in(before, ed) || ed == e,
{
    assert(after[before.len() as int] == e);
    assert forall|ed: MetaTag| #[trigger] mt_in(after, ed) <==> mt_in(before, ed) || ed == e by {
        if mt_in(after, ed) {
            let k = choose|k: int| 0 <= k < after.len() && #[trigger] after[k] == ed;
            if k < before.len() {
                assert(before[k] == ed);
            }
        }
        if mt_in(before, ed) {
            let k = choose|k: int| 0 <= k < before.len() && #[trigger] before[k] == ed;
            assert(after[k] == ed);
        }
        if ed == e {
            assert(after[before.len() as int] == ed);
        }
    }
}

/// Whether tag row `k` carries the key of some reference of the level.
pub open spec fn tag_keyed_in_level(level: Seq<DTagV>, tags: Seq<TagV>, k: int) -> bool {
    exists|j: int|
        0 <= j < level.len() && tag_key_is(
            tags,
            k,
            (#[trigger] level[j]).name,
            level[j].discriminator,
        )
}

/// Create every missing tag of one level; the returned count is the number
/// created.
fn create_level(cat: &mut Catalog, level: &Vec<DiscriminatedTag>) -> (r: usize)
    requires
        old(cat).wf(),
        old(cat)@.tags.len() + level@.len() <= u64::MAX,
    ensures
        final(cat).wf(),
        final(cat)@.works == old(cat)@.works,
        final(cat)@.work_tags == old(cat)@.work_tags,
        final(cat)@.meta_tags == old(cat)@.meta_tags,
        final(cat)@.authors == old(cat)@.authors,
        final(cat)@.author_names == old(cat)@.author_names,
        old(cat)@.tags.is_prefix_of(final(cat)@.tags),
        final(cat)@.tags.len() <= old(cat)@.tags.len() + level@.len(),
        r == final(cat)@.tags.len() - old(cat)@.tags.len(),
        forall|k: int|
            old(cat)@.tags.len() <= k < final(cat)@.tags.len() ==> #[trigger] tag_keyed_in_level(
                dtag_list_view(level@),
                final(cat)@.tags,
                k,
            ),
        forall|j: int|
            0 <= j < level@.len() ==> spec_find_tag(
                final(cat)@.tags,
                (#[trigger] dtag_list_view(level@)[j]).name,
                dtag_list_view(level@)[j].discriminator,
            ) is Some,
{
    let ghost o = old(cat)@;
    let ghost levelv = dtag_list_view(level@);
    let mut created: usize = 0;
    let mut j: usize = 0;
    while j < level.len()
        invariant
            cat.wf(),
            0 <= j <= level@.len(),
            levelv == dtag_list_view(level@),
            levelv.len() == level@.len(),
            cat@.works == o.works,
            cat@.work_tags == o.work_tags,
            cat@.meta_tags == o.meta_tags,
            cat@.authors == o.authors,
            cat@.author_names == o.author_names,
            o.tags.is_prefix_of(cat@.tags),
            o.tags.len() + levelv.len() <= u64::MAX,
            cat@.tags.len() <= o.tags.len() + j,
            created == cat@.tags.len() - o.tags.len(),
            forall|k: int|
                o.tags.len() <= k < cat@.tags.len() ==> #[trigger] tag_keyed_in_level(
                    levelv,
                    cat@.tags,
                    k,
                ),
            forall|jj: int|
                0 <= jj < j ==> spec_find_tag(
                    cat@.tags,
                    (#[trigger] levelv[jj]).name,
                    levelv[jj].discriminator,
                ) is Some,
        decreases level@.len() - j,
    {
        let ghost tags_before = cat@.tags;
        let len_before = cat.tags.len();
        let dt = &level[j];
        let disc: Option<&str> = match &dt.discriminator {
            Some(d) => Some(d.as_str()),
            None => None,
        };
        proof {
            assert(levelv[j as int] == level@[j as int]@);
            assert(opt_str_view(disc) == level@[j as int]@.discriminator);
        }
        let t = cat.get_discriminated_or_create(dt.name.as_str(), disc);
        proof {
            let created_now = spec_find_tag(tags_before, levelv[j as int].name, levelv[j as int].discriminator) is None;
            if created_now {
                assert(cat@.tags == tags_before.push(t@));
                assert(tags_before.is_prefix_of(cat@.tags)) by {
                    assert(tags_before =~= cat@.tags.subrange(0, tags_before.len() as int));
                }
                assert(o.tags.is_prefix_of(cat@.tags)) by {
                    assert(o.tags =~= cat@.tags.subrange(0, o.tags.len() as int));
                }
                assert(tag_key_is(cat@.tags, tags_before.len() as int, levelv[j as int].name, levelv[j as int].discriminator)) by {
                    assert(cat@.tags[tags_before.len() as int] == t@);
                }
                assert forall|k: int|
                    o.tags.len() <= k < cat@.tags.len() implies #[trigger] tag_keyed_in_level(
                    levelv,
                    cat@.tags,
                    k,
                ) by {
                    if k < tags_before.len() {
                        assert(tag_keyed_in_level(levelv, tags_before, k));
                        let jj = choose|jj: int|
                            0 <= jj < levelv.len() && tag_key_is(
                                tags_before,
                                k,
                                (#[trigger] levelv[jj]).name,
                                levelv[jj].discriminator,
                            );
                        assert(cat@.tags[k] == tags_before[k]);
                        assert(tag_key_is(cat@.tags, k, levelv[jj].name, levelv[jj].discriminator));
                    }
                }
            }
            assert(spec_find_tag(
                cat@.tags,
                levelv[j as int].name,
                levelv[j as int].discriminator,
            ) is Some) by {
                assert(tag_key_is(cat@.tags, t@.id as int, levelv[j as int].name, levelv[j as int].discriminator));
            }
            assert forall|jj: int|
                0 <= jj < j + 1 implies spec_find_tag(
                cat@.tags,
                (#[trigger] levelv[jj]).name,
                levelv[jj].discriminator,
            ) is Some by {
                if jj < j {
                    lemma_find_tag_grows(
                        tags_before,
                        cat@.tags,
                        levelv[jj].name,
                        levelv[jj].discriminator,
                    );
                }
            }
        }
        if cat.tags.len() > len_before {
            created = created + 1;
        }
        j = j + 1;
    }
    created
}


/// Total number of tag references of the hierarchy, from level `w` on.
pub open spec fn spec_total_refs(h: Seq<Seq<DTagV>>, w: int) -> nat
    decreases h.len() - w,
{
    if w < 0 || w >= h.len() {
        0
    } else {
        h[w].len() + spec_total_refs(h, w + 1)
    }
}

impl TagExpression {
    /// Create every tag of the hierarchy that does not exist yet; the
    /// returned count is the number created.
    pub fn create_missing_tags(&self, cat: &mut Catalog) -> (r: usize)
        requires
            old(cat).wf(),
            old(cat)@.tags.len() + spec_total_refs(self@.hierarchy, 0) <= u64::MAX,
        ensures
            final(cat).wf(),
            final(cat)@.works == old(cat)@.works,
            final(cat)@.work_tags == old(cat)@.work_tags,
            final(cat)@.meta_tags == old(cat)@.meta_tags,
            final(cat)@.authors == old(cat)@.authors,
            final(cat)@.author_names == old(cat)@.author_names,
            old(cat)@.tags.is_prefix_of(final(cat)@.tags),
            r == final(cat)@.tags.len() - old(cat)@.tags.len(),
            forall|k: int|
                old(cat)@.tags.len() <= k < final(cat)@.tags.len()
                    ==> #[trigger] tag_keyed_in_hierarchy(self@.hierarchy, final(cat)@.tags, k),
            forall|w: int, j: int|
                0 <= w < self@.hierarchy.len() && 0 <= j < self@.hierarchy[w].len()
                    ==> spec_find_tag(
                    final(cat)@.tags,
                    (#[trigger] self@.hierarchy[w][j]).name,
                    self@.hierarchy[w][j].discriminator,
                ) is Some,
    {
        let ghost o = old(cat)@;
        let ghost h = self@.hierarchy;
        let mut created: usize = 0;
        let mut w: usize = 0;
        proof {
            lemma_total_refs(h, 0);
        }
        while w < self.hierarchy.len()
            invariant
                cat.wf(),
                0 <= w <= self.hierarchy@.len(),
                h == self@.hierarchy,
                h.len() == self.hierarchy@.len(),
                cat@.works == o.works,
                cat@.work_tags == o.work_tags,
                cat@.meta_tags == o.meta_tags,
                cat@.authors == o.authors,
                cat@.author_names == o.author_names,
                o.tags.is_prefix_of(cat@.tags),
                o.tags.len() + spec_total_refs(h, 0) <= u64::MAX,
                cat@.tags.len() + spec_total_refs(h, w as int) <= o.tags.len() + spec_total_refs(
                    h,
                    0,
                ),
                created == cat@.tags.len() - o.tags.len(),
                forall|k: int|
                    o.tags.len() <= k < cat@.tags.len() ==> #[trigger] tag_keyed_in_hierarchy(
                        h,
                        cat@.tags,
                        k,
                    ),
                forall|ww: int, j: int|
                    0 <= ww < w && 0 <= j < h[ww].len() ==> spec_find_tag(
                        cat@.tags,
                        (#[trigger] h[ww][j]).name,
                        h[ww][j].discriminator,
                    ) is Some,
            decreases self.hierarchy@.len() - w,
        {
            let ghost tags_before = cat@.tags;
            proof {
                assert(h[w as int] == dtag_list_view(self.hierarchy@[w as int]@));
                assert(spec_total_refs(h, w as int) == h[w as int].len() + spec_total_refs(
                    h,
                    w as int + 1,
                ));
            }
            let c = create_level(cat, &self.hierarchy[w]);
            let n = cat.tags.len();
            proof {
                assert(cat@.tags.len() == n);
            }
            created = created + c;
            proof {
                assert(o.tags.is_prefix_of(cat@.tags)) by {
                    assert(o.tags =~= cat@.tags.subrange(0, o.tags.len() as int));
                }
                assert forall|k: int|
                    o.tags.len() <= k < cat@.tags.len() implies #[trigger] tag_keyed_in_hierarchy(
                    h,
                    cat@.tags,
                    k,
                ) by {
                    if k < tags_before.len() {
                        assert(tag_keyed_in_hierarchy(h, tags_before, k));
                        let (ww, j) = choose|ww: int, j: int|
                            0 <= ww < h.len() && 0 <= j < h[ww].len() && tag_key_is(
                                tags_before,
                                k,
                                (#[trigger] h[ww][j]).name,
                                h[ww][j].discriminator,
                            );
                        assert(cat@.tags[k] == tags_before[k]);
                        assert(tag_key_is(cat@.tags, k, h[ww][j].name, h[ww][j].discriminator));
                    } else {
                        assert(tag_keyed_in_level(h[w as int], cat@.tags, k));
                        let j = choose|j: int|
                            0 <= j < h[w as int].len() && tag_key_is(
                                cat@.tags,
                                k,
                                (#[trigger] h[w as int][j]).name,
                                h[w as int][j].discriminator,
                            );
                        assert(tag_key_is(cat@.tags, k, h[w as int][j].name, h[w as int][j].discriminator));
                    }
                }
                assert forall|ww: int, j: int|
                    0 <= ww < w + 1 && 0 <= j < h[ww].len() implies spec_find_tag(
                    cat@.tags,
                    (#[trigger] h[ww][j]).name,
                    h[ww][j].discriminator,
                ) is Some by {
                    if ww < w {
                        lemma_find_tag_grows(
                            tags_before,
                            cat@.tags,
                            h[ww][j].name,
                            h[ww][j].discriminator,
                        );
                    }
                }
            }
            w = w + 1;
        }
        created
    }
}

/// `spec_total_refs` is monotone in its suffix.
proof fn lemma_total_refs(h: Seq<Seq<DTagV>>, w: int)
    requires
        0 <= w,
    ensures
        forall|v: int| w <= v ==> #[trigger] spec_total_refs(h, v) <= spec_total_refs(h, w),
    decreases h.len() - w,
{
    if w < h.len() {
        lemma_total_refs(h, w + 1);
        assert forall|v: int| w <= v implies #[trigger] spec_total_refs(h, v) <= spec_total_refs(
            h,
            w,
        ) by {
            if v > w {
                assert(spec_total_refs(h, v) <= spec_total_refs(h, w + 1));
            }
        }
    } else {
        assert forall|v: int| w <= v implies #[trigger] spec_total_refs(h, v) <= spec_total_refs(
            h,
            w,
        ) by {
            assert(spec_total_refs(h, v) == 0);
            assert(spec_total_refs(h, w) == 0);
        }
    }
}

/// Whether a work-id list holds the id `x` (shared with the catalog).
pub open spec fn works_has(ws: Seq<crate::models::WorkId>, x: u64) -> bool {
    crate::catalog::contains_wid(ws, x)
}

/// Tag every listed work with every tag of the level, counting the edges
/// that did not already exist.
fn tag_matched_works(
    cat: &mut Catalog,
    works: &Vec<crate::models::WorkId>,
    level: &Vec<DiscriminatedTag>,
) -> (r: usize)
    requires
        old(cat).wf(),
        forall|j: int|
            0 <= j < level@.len() ==> spec_find_tag(
                old(cat)@.tags,
                (#[trigger] dtag_list_view(level@)[j]).name,
                dtag_list_view(level@)[j].discriminator,
            ) is Some,
        forall|k: int| 0 <= k < works@.len() ==> (#[trigger] works@[k]).0 < old(cat)@.works.len(),
    ensures
        final(cat).wf(),
        final(cat)@.tags == old(cat)@.tags,
        final(cat)@.works == old(cat)@.works,
        final(cat)@.meta_tags == old(cat)@.meta_tags,
        final(cat)@.authors == old(cat)@.authors,
        final(cat)@.author_names == old(cat)@.author_names,
        old(cat)@.work_tags.is_prefix_of(final(cat)@.work_tags),
        r == final(cat)@.work_tags.len() - old(cat)@.work_tags.len(),
        r <= works@.len() * level@.len(),
        forall|ed: WorkTag| #[trigger]
            wt_in(final(cat)@.work_tags, ed) <==> wt_in(old(cat)@.work_tags, ed) || (works_has(
                works@,
                ed.work_id.0,
            ) && key_in_level(final(cat)@.tags, ed.tag.0, dtag_list_view(level@))),
{
    let ghost o = old(cat)@;
    let ghost levelv = dtag_list_view(level@);
    let mut count: usize = 0;
    let mut a: usize = 0;
    while a < works.len()
        invariant
            cat.wf(),
            0 <= a <= works@.len(),
            levelv == dtag_list_view(level@),
            levelv.len() == level@.len(),
            cat@.tags == o.tags,
            cat@.works == o.works,
            cat@.meta_tags == o.meta_tags,
            cat@.authors == o.authors,
            cat@.author_names == o.author_names,
            o.work_tags.is_prefix_of(cat@.work_tags),
            count == cat@.work_tags.len() - o.work_tags.len(),
            count <= a * levelv.len(),
            forall|j: int|
                0 <= j < levelv.len() ==> spec_find_tag(
                    o.tags,
                    (#[trigger] levelv[j]).name,
                    levelv[j].discriminator,
                ) is Some,
            forall|k: int| 0 <= k < works@.len() ==> (#[trigger] works@[k]).0 < o.works.len(),
            forall|ed: WorkTag| #[trigger]
                wt_in(cat@.work_tags, ed) <==> wt_in(o.work_tags, ed) || ((exists|k: int|
                    0 <= k < a && (#[trigger] works@[k]).0 == ed.work_id.0) && key_in_level(
                    o.tags,
                    ed.tag.0,
                    levelv,
                )),
        decreases works@.len() - a,
    {
        let w = works[a];
        let mut b: usize = 0;
        while b < level.len()
            invariant
                cat.wf(),
                0 <= b <= level@.len(),
                0 <= a < works@.len(),
                w == works@[a as int],
                levelv == dtag_list_view(level@),
                levelv.len() == level@.len(),
                cat@.tags == o.tags,
                cat@.works == o.works,
                cat@.meta_tags == o.meta_tags,
                cat@.authors == o.authors,
                cat@.author_names == o.author_names,
                o.work_tags.is_prefix_of(cat@.work_tags),
                count == cat@.work_tags.len() - o.work_tags.len(),
                count <= a * levelv.len() + b,
                forall|j: int|
                    0 <= j < levelv.len() ==> spec_find_tag(
                        o.tags,
                        (#[trigger] levelv[j]).name,
                        levelv[j].discriminator,
                    ) is Some,
                forall|k: int| 0 <= k < works@.len() ==> (#[trigger] works@[k]).0
                    < o.works.len(),
                forall|ed: WorkTag| #[trigger]
                    wt_in(cat@.work_tags, ed) <==> wt_in(o.work_tags, ed) || ((exists|k: int|
                        0 <= k < a && (#[trigger] works@[k]).0 == ed.work_id.0) && key_in_level(
                        o.tags,
                        ed.tag.0,
                        levelv,
                    )) || (ed.work_id.0 == w.0 && ed.tag.0 < o.tags.len() && (exists|j: int|
                        0 <= j < b && tag_key_is(
                            o.tags,
                            ed.tag.0 as int,
                            (#[trigger] levelv[j]).name,
                            levelv[j].discriminator,
                        ))),
            decreases level@.len() - b,
        {
            let ghost wt_before = cat@.work_tags;
            let dt = &level[b];
            let disc: Option<&str> = match &dt.discriminator {
                Some(d) => Some(d.as_str()),
                None => None,
            };
            proof {
                assert(levelv[b as int] == level@[b as int]@);
                assert(opt_str_view(disc) == levelv[b as int].discriminator);
            }
            let t = match cat.try_get_discriminated(dt.name.as_str(), disc) {
                Some(t) => t,
                None => {
                    proof {
                        assert(spec_find_tag(o.tags, levelv[b as int].name, levelv[b as int].discriminator) is Some);
                        assert(false);
                    }
                    return 0;
                },
            };
            let added = cat.tag_work(w, crate::models::TagId(t.id.0));
            if added {
                let n = cat.work_tags.len();
                proof {
                    assert(cat@.work_tags.len() == n);
                }
                count = count + 1;
            }
            proof {
                let e = WorkTag { tag: crate::models::TagId(t.id.0), work_id: w };
                if added {
                    lemma_wt_push(wt_before, cat@.work_tags, e);
                    assert(o.work_tags.is_prefix_of(cat@.work_tags)) by {
                        assert(o.work_tags =~= cat@.work_tags.subrange(
                            0,
                            o.work_tags.len() as int,
                        ));
                    }
                }
                assert(tag_key_is(o.tags, t@.id as int, levelv[b as int].name, levelv[b as int].discriminator));
                assert forall|ed: WorkTag| #[trigger]
                    wt_in(cat@.work_tags, ed) <==> wt_in(o.work_tags, ed) || ((exists|k: int|
                        0 <= k < a && (#[trigger] works@[k]).0 == ed.work_id.0) && key_in_level(
                        o.tags,
                        ed.tag.0,
                        levelv,
                    )) || (ed.work_id.0 == w.0 && ed.tag.0 < o.tags.len() && (exists|j: int|
                        0 <= j < b + 1 && tag_key_is(
                            o.tags,
                            ed.tag.0 as int,
                            (#[trigger] levelv[j]).name,
                            levelv[j].discriminator,
                        ))) by {
                    if ed == e {
                        assert(wt_in(cat@.work_tags, ed) || added);
                        if !added {
                            assert(wt_in(wt_before, e));
                        }
                        assert(0 <= b < b + 1 && tag_key_is(
                            o.tags,
                            ed.tag.0 as int,
                            levelv[b as int].name,
                            levelv[b as int].discriminator,
                        ));
                    } else {
                        if wt_in(cat@.work_tags, ed) && !wt_in(wt_before, ed) {
                            assert(false);
                        }
                        if ed.work_id.0 == w.0 && ed.tag.0 < o.tags.len() && (exists|j: int|
                            0 <= j < b + 1 && tag_key_is(
                                o.tags,
                                ed.tag.0 as int,
                                (#[trigger] levelv[j]).name,
                                levelv[j].discriminator,
                            )) {
                            let j = choose|j: int|
                                0 <= j < b + 1 && tag_key_is(
                                    o.tags,
                                    ed.tag.0 as int,
                                    (#[trigger] levelv[j]).name,
                                    levelv[j].discriminator,
                                );
                            if j == b {
                                // Same key resolves to the same unique id,
                                // so the edge is `e` after all.
                                assert(spec_find_tag(o.tags, levelv[b as int].name, levelv[b as int].discriminator) == Some(t@.id as int));
                                let kk = choose|kk: int|
                                    0 <= kk < o.tags.len() && tag_key_is(
                                        o.tags,
                                        kk,
                                        levelv[b as int].name,
                                        levelv[b as int].discriminator,
                                    );
                                if ed.tag.0 as int != t@.id as int {
                                    assert(tag_key_is(o.tags, ed.tag.0 as int, levelv[b as int].name, levelv[b as int].discriminator));
                                    assert(tag_key_is(o.tags, t@.id as int, levelv[b as int].name, levelv[b as int].discriminator));
                                    assert(o.tags[ed.tag.0 as int].name == o.tags[t@.id as int].name);
                                    assert(false);
                                }
                                assert(ed == e);
                                assert(false);
                            }
                        }
                    }
                }
            }
            b = b + 1;
        }
        proof {
            assert forall|ed: WorkTag| #[trigger]
                wt_in(cat@.work_tags, ed) <==> wt_in(o.work_tags, ed) || ((exists|k: int|
                    0 <= k < a + 1 && (#[trigger] works@[k]).0 == ed.work_id.0) && key_in_level(
                    o.tags,
                    ed.tag.0,
                    levelv,
                )) by {
                if wt_in(cat@.work_tags, ed) {
                    if !wt_in(o.work_tags, ed) {
                        if ed.work_id.0 == w.0 {
                            assert(works@[a as int].0 == ed.work_id.0);
                        }
                    }
                }
                if ((exists|k: int|
                    0 <= k < a + 1 && (#[trigger] works@[k]).0 == ed.work_id.0) && key_in_level(
                    o.tags,
                    ed.tag.0,
                    levelv,
                )) {
                    let k = choose|k: int|
                        0 <= k < a + 1 && (#[trigger] works@[k]).0 == ed.work_id.0;
                    let j = choose|j: int|
                        0 <= j < levelv.len() && tag_key_is(
                            o.tags,
                            ed.tag.0 as int,
                            (#[trigger] levelv[j]).name,
                            levelv[j].discriminator,
                        );
                    if k < a {
                    } else {
                        assert(ed.work_id.0 == w.0);
                        assert(0 <= j < levelv.len() && tag_key_is(
                            o.tags,
                            ed.tag.0 as int,
                            levelv[j].name,
                            levelv[j].discriminator,
                        ));
                    }
                }
            }
            assert(count <= (a + 1) * levelv.len()) by {
                assert(count <= a * levelv.len() + levelv.len());
                assert((a + 1) * levelv.len() == a * levelv.len() + levelv.len()) by (nonlinear_arith);
            }
        }
        a = a + 1;
    }
    proof {
        assert(count <= works@.len() * levelv.len()) by {
            assert(count <= a * levelv.len());
        }
        assert forall|ed: WorkTag| #[trigger]
            wt_in(cat@.work_tags, ed) <==> wt_in(o.work_tags, ed) || (works_has(
                works@,
                ed.work_id.0,
            ) && key_in_level(cat@.tags, ed.tag.0, levelv)) by {
            if works_has(works@, ed.work_id.0) {
                let k = choose|k: int|
                    0 <= k < works@.len() && #[trigger] works@[k].0 == ed.work_id.0;
            }
        }
    }
    count
}

/// Add the implication edges of one adjacent level pair: one edge from
/// every tag of the later level to every tag of the earlier one, counting
/// the edges that did not already exist.
fn link_level_pair(
    cat: &mut Catalog,
    prev: &Vec<DiscriminatedTag>,
    next: &Vec<DiscriminatedTag>,
) -> (r: usize)
    requires
        old(cat).wf(),
        forall|j: int|
            0 <= j < prev@.len() ==> spec_find_tag(
                old(cat)@.tags,
                (#[trigger] dtag_list_view(prev@)[j]).name,
                dtag_list_view(prev@)[j].discriminator,
            ) is Some,
        forall|j: int|
            0 <= j < next@.len() ==> spec_find_tag(
                old(cat)@.tags,
                (#[trigger] dtag_list_view(next@)[j]).name,
                dtag_list_view(next@)[j].discriminator,
            ) is Some,
    ensures
        final(cat).wf(),
        final(cat)@.tags == old(cat)@.tags,
        final(cat)@.works == old(cat)@.works,
        final(cat)@.work_tags == old(cat)@.work_tags,
        final(cat)@.authors == old(cat)@.authors,
        final(cat)@.author_names == old(cat)@.author_names,
        old(cat)@.meta_tags.is_prefix_of(final(cat)@.meta_tags),
        r == final(cat)@.meta_tags.len() - old(cat)@.meta_tags.len(),
        r <= prev@.len() * next@.len(),
        forall|ed: MetaTag| #[trigger]
            mt_in(final(cat)@.meta_tags, ed) <==> mt_in(old(cat)@.meta_tags, ed) || (key_in_level(
                final(cat)@.tags,
                ed.tag.0,
                dtag_list_view(next@),
            ) && key_in_level(final(cat)@.tags, ed.target.0, dtag_list_view(prev@))),
{
    let ghost o = old(cat)@;
    let ghost prevv = dtag_list_view(prev@);
    let ghost nextv = dtag_list_view(next@);
    let mut count: usize = 0;
    let mut pi: usize = 0;
    while pi < prev.len()
        invariant
            cat.wf(),
            0 <= pi <= prev@.len(),
            prevv == dtag_list_view(prev@),
            nextv == dtag_list_view(next@),
            prevv.len() == prev@.len(),
            nextv.len() == next@.len(),
            cat@.tags == o.tags,
            cat@.works == o.works,
            cat@.work_tags == o.work_tags,
            cat@.authors == o.authors,
            cat@.author_names == o.author_names,
            o.meta_tags.is_prefix_of(cat@.meta_tags),
            count == cat@.meta_tags.len() - o.meta_tags.len(),
            count <= pi * nextv.len(),
            forall|j: int|
                0 <= j < prevv.len() ==> spec_find_tag(
                    o.tags,
                    (#[trigger] prevv[j]).name,
                    prevv[j].discriminator,
                ) is Some,
            forall|j: int|
                0 <= j < nextv.len() ==> spec_find_tag(
                    o.tags,
                    (#[trigger] nextv[j]).name,
                    nextv[j].discriminator,
                ) is Some,
            forall|ed: MetaTag| #[trigger]
                mt_in(cat@.meta_tags, ed) <==> mt_in(o.meta_tags, ed) || (key_in_level(
                    o.tags,
                    ed.tag.0,
                    nextv,
                ) && ed.target.0 < o.tags.len() && (exists|j: int|
                    0 <= j < pi && tag_key_is(
                        o.tags,
                        ed.target.0 as int,
                        (#[trigger] prevv[j]).name,
                        prevv[j].discriminator,
                    ))),
        decreases prev@.len() - pi,
    {
        let pdt = &prev[pi];
        let pdisc: Option<&str> = match &pdt.discriminator {
            Some(d) => Some(d.as_str()),
            None => None,
        };
        proof {
            assert(prevv[pi as int] == prev@[pi as int]@);
            assert(opt_str_view(pdisc) == prevv[pi as int].discriminator);
        }
        let ptag = match cat.try_get_discriminated(pdt.name.as_str(), pdisc) {
            Some(t) => t,
            None => {
                proof {
                    assert(false);
                }
                return 0;
            },
        };
        let mut ni: usize = 0;
        while ni < next.len()
            invariant
                cat.wf(),
                0 <= ni <= next@.len(),
                0 <= pi < prev@.len(),
                prevv == dtag_list_view(prev@),
                nextv == dtag_list_view(next@),
                prevv.len() == prev@.len(),
                nextv.len() == next@.len(),
                cat@.tags == o.tags,
                cat@.works == o.works,
                cat@.work_tags == o.work_tags,
                cat@.authors == o.authors,
                cat@.author_names == o.author_names,
                o.meta_tags.is_prefix_of(cat@.meta_tags),
                count == cat@.meta_tags.len() - o.meta_tags.len(),
                count <= pi * nextv.len() + ni,
                ptag@.id < o.tags.len(),
                tag_key_is(o.tags, ptag@.id as int, prevv[pi as int].name, prevv[pi as int].discriminator),
                spec_find_tag(o.tags, prevv[pi as int].name, prevv[pi as int].discriminator)
                    == Some(ptag@.id as int),
                forall|j: int|
                    0 <= j < prevv.len() ==> spec_find_tag(
                        o.tags,
                        (#[trigger] prevv[j]).name,
                        prevv[j].discriminator,
                    ) is Some,
                forall|j: int|
                    0 <= j < nextv.len() ==> spec_find_tag(
                        o.tags,
                        (#[trigger] nextv[j]).name,
                        nextv[j].discriminator,
                    ) is Some,
                forall|ed: MetaTag| #[trigger]
                    mt_in(cat@.meta_tags, ed) <==> mt_in(o.meta_tags, ed) || (key_in_level(
                        o.tags,
                        ed.tag.0,
                        nextv,
                    ) && ed.target.0 < o.tags.len() && (exists|j: int|
                        0 <= j < pi && tag_key_is(
                            o.tags,
                            ed.target.0 as int,
                            (#[trigger] prevv[j]).name,
                            prevv[j].discriminator,
                        ))) || (ed.target.0 == ptag@.id && ed.tag.0 < o.tags.len() && (exists|
                        j: int,
                    |
                        0 <= j < ni && tag_key_is(
                            o.tags,
                            ed.tag.0 as int,
                            (#[trigger] nextv[j]).name,
                            nextv[j].discriminator,
                        ))),
            decreases next@.len() - ni,
        {
            let ghost mt_before = cat@.meta_tags;
            let ndt = &next[ni];
            let ndisc: Option<&str> = match &ndt.discriminator {
                Some(d) => Some(d.as_str()),
                None => None,
            };
            proof {
                assert(nextv[ni as int] == next@[ni as int]@);
                assert(opt_str_view(ndisc) == nextv[ni as int].discriminator);
            }
            let ntag = match cat.try_get_discriminated(ndt.name.as_str(), ndisc) {
                Some(t) => t,
                None => {
                    proof {
                        assert(false);
                    }
                    return 0;
                },
            };
            let added = cat.add_implication(
                crate::models::TagId(ntag.id.0),
                crate::models::TagId(ptag.id.0),
            );
            if added {
                let n = cat.meta_tags.len();
                proof {
                    assert(cat@.meta_tags.len() == n);
                }
                count = count + 1;
            }
            proof {
                let e = MetaTag {
                    tag: crate::models::TagId(ntag@.id),
                    target: crate::models::TagId(ptag@.id),
                };
                if added {
                    lemma_mt_push(mt_before, cat@.meta_tags, e);
                    assert(o.meta_tags.is_prefix_of(cat@.meta_tags)) by {
                        assert(o.meta_tags =~= cat@.meta_tags.subrange(
                            0,
                            o.meta_tags.len() as int,
                        ));
                    }
                }
                assert(tag_key_is(o.tags, ntag@.id as int, nextv[ni as int].name, nextv[ni as int].discriminator));
                assert forall|ed: MetaTag| #[trigger]
                    mt_in(cat@.meta_tags, ed) <==> mt_in(o.meta_tags, ed) || (key_in_level(
                        o.tags,
                        ed.tag.0,
                        nextv,
                    ) && ed.target.0 < o.tags.len() && (exists|j: int|
                        0 <= j < pi && tag_key_is(
                            o.tags,
                            ed.target.0 as int,
                            (#[trigger] prevv[j]).name,
                            prevv[j].discriminator,
                        ))) || (ed.target.0 == ptag@.id && ed.tag.0 < o.tags.len() && (exists|
                        j: int,
                    |
                        0 <= j < ni + 1 && tag_key_is(
                            o.tags,
                            ed.tag.0 as int,
                            (#[trigger] nextv[j]).name,
                            nextv[j].discriminator,
                        ))) by {
                    if ed == e {
                        if !added {
                            assert(mt_in(mt_before, e));
                        }
                        assert(0 <= ni < ni + 1 && tag_key_is(
                            o.tags,
                            ed.tag.0 as int,
                            nextv[ni as int].name,
                            nextv[ni as int].discriminator,
                        ));
                    } else {
                        if mt_in(cat@.meta_tags, ed) && !mt_in(mt_before, ed) {
                            assert(false);
                        }
                        if ed.target.0 == ptag@.id && ed.tag.0 < o.tags.len() && (exists|j: int|
                            0 <= j < ni + 1 && tag_key_is(
                                o.tags,
                                ed.tag.0 as int,
                                (#[trigger] nextv[j]).name,
                                nextv[j].discriminator,
                            )) {
                            let j = choose|j: int|
                                0 <= j < ni + 1 && tag_key_is(
                                    o.tags,
                                    ed.tag.0 as int,
                                    (#[trigger] nextv[j]).name,
                                    nextv[j].discriminator,
                                );
                            if j == ni {
                                if ed.tag.0 as int != ntag@.id as int {
                                    assert(tag_key_is(o.tags, ed.tag.0 as int, nextv[ni as int].name, nextv[ni as int].discriminator));
                                    assert(tag_key_is(o.tags, ntag@.id as int, nextv[ni as int].name, nextv[ni as int].discriminator));
                                    assert(false);
                                }
                                assert(ed == e);
                                assert(false);
                            }
                        }
                    }
                }
            }
            ni = ni + 1;
        }
        proof {
            assert forall|ed: MetaTag| #[trigger]
                mt_in(cat@.meta_tags, ed) <==> mt_in(o.meta_tags, ed) || (key_in_level(
                    o.tags,
                    ed.tag.0,
                    nextv,
                ) && ed.target.0 < o.tags.len() && (exists|j: int|
                    0 <= j < pi + 1 && tag_key_is(
                        o.tags,
                        ed.target.0 as int,
                        (#[trigger] prevv[j]).name,
                        prevv[j].discriminator,
                    ))) by {
                if mt_in(cat@.meta_tags, ed) && !mt_in(o.meta_tags, ed) {
                    if ed.target.0 == ptag@.id {
                        assert(tag_key_is(o.tags, ed.target.0 as int, prevv[pi as int].name, prevv[pi as int].discriminator));
                        assert(0 <= pi < pi + 1 && tag_key_is(
                            o.tags,
                            ed.target.0 as int,
                            prevv[pi as int].name,
                            prevv[pi as int].discriminator,
                        ));
                    }
                }
                if key_in_level(o.tags, ed.tag.0, nextv) && ed.target.0 < o.tags.len() && (exists|
                    j: int,
                |
                    0 <= j < pi + 1 && tag_key_is(
                        o.tags,
                        ed.target.0 as int,
                        (#[trigger] prevv[j]).name,
                        prevv[j].discriminator,
                    )) {
                    let j = choose|j: int|
                        0 <= j < pi + 1 && tag_key_is(
                            o.tags,
                            ed.target.0 as int,
                            (#[trigger] prevv[j]).name,
                            prevv[j].discriminator,
                        );
                    if j == pi {
                        if ed.target.0 as int != ptag@.id as int {
                            assert(tag_key_is(o.tags, ed.target.0 as int, prevv[pi as int].name, prevv[pi as int].discriminator));
                            assert(tag_key_is(o.tags, ptag@.id as int, prevv[pi as int].name, prevv[pi as int].discriminator));
                            assert(false);
                        }
                        let jn = choose|jn: int|
                            0 <= jn < nextv.len() && tag_key_is(
                                o.tags,
                                ed.tag.0 as int,
                                (#[trigger] nextv[jn]).name,
                                nextv[jn].discriminator,
                            );
                        assert(ed.target.0 == ptag@.id && ed.tag.0 < o.tags.len() && (exists|
                            j2: int,
                        |
                            0 <= j2 < nextv.len() && tag_key_is(
                                o.tags,
                                ed.tag.0 as int,
                                (#[trigger] nextv[j2]).name,
                                nextv[j2].discriminator,
                            )));
                    }
                }
            }
            assert(count <= (pi + 1) * nextv.len()) by {
                assert(count <= pi * nextv.len() + nextv.len());
                assert((pi + 1) * nextv.len() == pi * nextv.len() + nextv.len())
                    by (nonlinear_arith);
            }
        }
        pi = pi + 1;
    }
    proof {
        assert forall|ed: MetaTag| #[trigger]
            mt_in(cat@.meta_tags, ed) <==> mt_in(o.meta_tags, ed) || (key_in_level(
                cat@.tags,
                ed.tag.0,
                nextv,
            ) && key_in_level(cat@.tags, ed.target.0, prevv)) by {
            if key_in_level(cat@.tags, ed.target.0, prevv) {
                let j = choose|j: int|
                    0 <= j < prevv.len() && tag_key_is(
                        cat@.tags,
                        ed.target.0 as int,
                        (#[trigger] prevv[j]).name,
                        prevv[j].discriminator,
                    );
            }
        }
    }
    count
}

/// `meta_edge_cond` restricted to the level pairs before `wlim`.
pub open spec fn meta_cond_upto(e: TagExprV, c: CatalogV, ed: MetaTag, wlim: int) -> bool {
    exists|w: int, pi: int, ni: int|
        0 <= w < wlim && w < e.hierarchy.len() - 1 && 0 <= pi < e.hierarchy[w].len() && 0 <= ni
            < e.hierarchy[w + 1].len() && ed.tag.0 < c.tags.len() && ed.target.0 < c.tags.len()
            && #[trigger] tag_key_is(
            c.tags,
            ed.tag.0 as int,
            e.hierarchy[w + 1][ni].name,
            e.hierarchy[w + 1][ni].discriminator,
        ) && #[trigger] tag_key_is(
            c.tags,
            ed.target.0 as int,
            e.hierarchy[w][pi].name,
            e.hierarchy[w][pi].discriminator,
        )
}

/// A list of distinct work ids below `n` has at most `n` entries.
proof fn lemma_distinct_bounded_wids(ts: Seq<crate::models::WorkId>, n: int)
    requires
        0 <= n,
        forall|i: int, j: int| 0 <= i < j < ts.len() ==> ts[i].0 != ts[j].0,
        forall|k: int| 0 <= k < ts.len() ==> (#[trigger] ts[k].0) < n,
    ensures
        ts.len() <= n,
{
    let ints = ts.map_values(|t: crate::models::WorkId| t.0 as int);
    assert(ints.no_duplicates()) by {
        assert forall|i: int, j: int|
            0 <= i < ints.len() && 0 <= j < ints.len() && i != j implies ints[i] != ints[j] by {
            if i < j {
                assert(ts[i].0 != ts[j].0);
            } else {
                assert(ts[j].0 != ts[i].0);
            }
        }
    }
    ints.unique_seq_to_set();
    assert(ints.to_set().subset_of(vstd::set_lib::set_int_range(0, n))) by {
        assert forall|x: int| ints.to_set().contains(x) implies vstd::set_lib::set_int_range(
            0,
            n,
        ).contains(x) by {
            assert(ints.contains(x));
            let k = choose|k: int| 0 <= k < ints.len() && ints[k] == x;
            assert(ts[k].0 < n);
        }
    }
    vstd::set_lib::lemma_int_range(0, n);
    vstd::set_lib::lemma_len_subset(ints.to_set(), vstd::set_lib::set_int_range(0, n));
}

impl TagExpression {
    /// Execute the expression against the catalog: run the filter, tag the
    /// matched works with the first level, and add the implication edges of
    /// every adjacent level pair, all idempotently. The result is the
    /// number of connections (work-tag and implication edges) that did not
    /// already exist.
    pub fn execute(&self, cat: &mut Catalog) -> (r: usize)
        requires
            old(cat).wf(),
            self@.hierarchy.len() > 0,
            old(cat)@.tags.len() + spec_total_refs(self@.hierarchy, 0) <= u64::MAX,
            old(cat)@.work_tags.len() + old(cat)@.meta_tags.len() + old(cat)@.works.len()
                * self@.hierarchy[0].len() + spec_approximate_connections(self@.hierarchy, 0)
                <= usize::MAX,
        ensures
            final(cat).wf(),
            execute_post(self@, old(cat)@, final(cat)@, r as nat),
    {
        let ghost o = old(cat)@;
        let ghost e = self@;
        let ghost h = e.hierarchy;
        let works: Vec<crate::models::WorkId> = match &self.query {
            Some(q) => {
                let ws = cat.search_ids(q);
                proof {
                    assert(e.query == Some(q@));
                    if ws@.len() > 0 {
                        assert(crate::catalog::contains_wid(ws@, ws@[0].0));
                        assert(query_matches(o, q@, o.works[ws@[0].0 as int]));
                        assert(spec_had_matches(e, o));
                    } else {
                        if spec_had_matches(e, o) {
                            let i = choose|i: int|
                                0 <= i < o.works.len() && query_matches(
                                    o,
                                    q@,
                                    #[trigger] o.works[i],
                                );
                            assert(crate::catalog::contains_wid(ws@, i as u64));
                            assert(false);
                        }
                    }
                    assert forall|k: int| 0 <= k < ws@.len() implies (#[trigger] ws@[k].0)
                        < o.works.len() by {
                        assert(crate::catalog::contains_wid(ws@, ws@[k].0));
                    }
                    lemma_distinct_bounded_wids(ws@, o.works.len() as int);
                    assert(ws@.len() <= o.works.len());
                }
                ws
            },
            None => Vec::new(),
        };
        proof {
            if self.query is None {
                assert(!spec_had_matches(e, o));
            }
            assert(works@.len() <= o.works.len());
        }
        let had = works.len() > 0;
        proof {
            assert(had == spec_had_matches(e, o));
        }
        // Create the tags execution will reach: every level's when adjacent
        // pairs exist, the first level's when works matched.
        let ghost tags_created = cat@.tags;
        if self.hierarchy.len() > 1 {
            let c = self.create_missing_tags(cat);
        } else if had {
            proof {
                assert(h[0] == dtag_list_view(self.hierarchy@[0]@));
                assert(spec_total_refs(h, 0) == h[0].len() + spec_total_refs(h, 1));
            }
            let c = create_level(cat, &self.hierarchy[0]);
        }
        let ghost tfixed = cat@.tags;
        proof {
            assert(o.tags.is_prefix_of(tfixed)) by {
                if h.len() > 1 || had {
                } else {
                    assert(o.tags =~= tfixed.subrange(0, o.tags.len() as int));
                }
            }
            assert forall|k: int|
                o.tags.len() <= k < tfixed.len() implies creates_tags(e, o)
                    && #[trigger] tag_keyed_in_hierarchy(h, tfixed, k) by {
                if h.len() > 1 {
                } else if had {
                    assert(tag_keyed_in_level(h[0], tfixed, k));
                    let j = choose|j: int|
                        0 <= j < h[0].len() && tag_key_is(
                            tfixed,
                            k,
                            (#[trigger] h[0][j]).name,
                            h[0][j].discriminator,
                        );
                    assert(tag_key_is(tfixed, k, h[0][j].name, h[0][j].discriminator));
                }
            }
            if creates_tags(e, o) {
                assert forall|w: int, j: int|
                    0 <= w < h.len() && 0 <= j < h[w].len() implies spec_find_tag(
                    tfixed,
                    (#[trigger] h[w][j]).name,
                    h[w][j].discriminator,
                ) is Some by {
                    if h.len() > 1 {
                    } else {
                        assert(w == 0);
                    }
                }
            }
        }
        // Tag the matched works with the first level.
        let ghost wt0 = cat@.work_tags;
        let mut total: usize = 0;
        if had {
            proof {
                assert(h[0] == dtag_list_view(self.hierarchy@[0]@));
            }
            total = tag_matched_works(cat, &works, &self.hierarchy[0]);
        }
        let ghost wt1 = cat@.work_tags;
        proof {
            assert(wt0 == o.work_tags);
            assert(o.work_tags.is_prefix_of(wt1)) by {
                if !had {
                    assert(o.work_tags =~= wt1.subrange(0, o.work_tags.len() as int));
                }
            }
            assert(total == wt1.len() - o.work_tags.len());
            assert(total <= o.works.len() * h[0].len()) by {
                if had {
                    assert(total <= works@.len() * h[0].len());
                    vstd::arithmetic::mul::lemma_mul_inequality(
                        works@.len() as int,
                        o.works.len() as int,
                        h[0].len() as int,
                    );
                }
            }
            assert forall|ed: WorkTag| #[trigger]
                wt_in(wt1, ed) <==> wt_in(o.work_tags, ed) || work_edge_cond(e, o, cat@, ed) by {
                if had {
                    if works_has(works@, ed.work_id.0) {
                        let k = choose|k: int|
                            0 <= k < works@.len() && #[trigger] works@[k].0 == ed.work_id.0;
                        assert((ed.work_id.0 as int) < o.works.len());
                    }
                    if work_edge_cond(e, o, cat@, ed) {
                        assert(crate::catalog::contains_wid(works@, ed.work_id.0));
                    }
                } else {
                    if work_edge_cond(e, o, cat@, ed) {
                        let q = e.query->Some_0;
                        assert(crate::catalog::contains_wid(works@, ed.work_id.0));
                        assert(false);
                    }
                }
            }
        }
        // Link every adjacent level pair.
        let ghost mt0 = cat@.meta_tags;
        proof {
            assert(mt0 == o.meta_tags);
        }
        if self.hierarchy.len() > 1 {
            let mut w: usize = 0;
            let wmax = self.hierarchy.len() - 1;
            while w < wmax
                invariant
                    cat.wf(),
                    0 <= w <= wmax,
                    wmax == self.hierarchy@.len() - 1,
                    h == e.hierarchy,
                    h == hierarchy_view(self.hierarchy@),
                    h.len() == self.hierarchy@.len(),
                    h.len() > 1,
                    cat@.tags == tfixed,
                    cat@.works == o.works,
                    cat@.work_tags == wt1,
                    cat@.authors == o.authors,
                    cat@.author_names == o.author_names,
                    o.meta_tags.is_prefix_of(cat@.meta_tags),
                    total == (wt1.len() - o.work_tags.len()) + (cat@.meta_tags.len()
                        - o.meta_tags.len()),
                    wt1.len() - o.work_tags.len() <= o.works.len() * h[0].len(),
                    (cat@.meta_tags.len() - o.meta_tags.len())
                        + spec_approximate_connections(h, w as int)
                        <= spec_approximate_connections(h, 0),
                    o.work_tags.len() + o.meta_tags.len() + o.works.len() * h[0].len()
                        + spec_approximate_connections(h, 0) <= usize::MAX,
                    forall|ww: int, j: int|
                        0 <= ww < h.len() && 0 <= j < h[ww].len() ==> spec_find_tag(
                            tfixed,
                            (#[trigger] h[ww][j]).name,
                            h[ww][j].discriminator,
                        ) is Some,
                    forall|ed: MetaTag| #[trigger]
                        mt_in(cat@.meta_tags, ed) <==> mt_in(o.meta_tags, ed) || meta_cond_upto(
                            e,
                            cat@,
                            ed,
                            w as int,
                        ),
                decreases wmax - w,
            {
                let ghost mt_before = cat@.meta_tags;
                proof {
                    assert(h[w as int] == dtag_list_view(self.hierarchy@[w as int]@));
                    assert(h[w as int + 1] == dtag_list_view(self.hierarchy@[w as int + 1]@));
                    assert(spec_approximate_connections(h, w as int) == h[w as int].len() * h[
                        w as int + 1].len() + spec_approximate_connections(h, w as int + 1));
                }
                let c = link_level_pair(cat, &self.hierarchy[w], &self.hierarchy[w + 1]);
                total = total + c;
                proof {
                    assert(o.meta_tags.is_prefix_of(cat@.meta_tags)) by {
                        assert(o.meta_tags =~= cat@.meta_tags.subrange(
                            0,
                            o.meta_tags.len() as int,
                        ));
                    }
                    assert forall|ed: MetaTag| #[trigger]
                        mt_in(cat@.meta_tags, ed) <==> mt_in(o.meta_tags, ed) || meta_cond_upto(
                            e,
                            cat@,
                            ed,
                            w as int + 1,
                        ) by {
                        if mt_in(cat@.meta_tags, ed) && !mt_in(mt_before, ed) {
                            assert(key_in_level(tfixed, ed.tag.0, h[w as int + 1])
                                && key_in_level(tfixed, ed.target.0, h[w as int]));
                            let ni = choose|ni: int|
                                0 <= ni < h[w as int + 1].len() && tag_key_is(
                                    tfixed,
                                    ed.tag.0 as int,
                                    (#[trigger] h[w as int + 1][ni]).name,
                                    h[w as int + 1][ni].discriminator,
                                );
                            let pi = choose|pi: int|
                                0 <= pi < h[w as int].len() && tag_key_is(
                                    tfixed,
                                    ed.target.0 as int,
                                    (#[trigger] h[w as int][pi]).name,
                                    h[w as int][pi].discriminator,
                                );
                            assert(meta_cond_upto(e, cat@, ed, w as int + 1));
                        }
                        if !mt_in(cat@.meta_tags, ed) && meta_cond_upto(e, cat@, ed, w as int
                            + 1) {
                            let (ww, pi, ni) = choose|ww: int, pi: int, ni: int|
                                0 <= ww < w as int + 1 && ww < e.hierarchy.len() - 1 && 0 <= pi
                                    < e.hierarchy[ww].len() && 0 <= ni < e.hierarchy[ww
                                    + 1].len() && ed.tag.0 < cat@.tags.len() && ed.target.0
                                    < cat@.tags.len() && #[trigger] tag_key_is(
                                    cat@.tags,
                                    ed.tag.0 as int,
                                    e.hierarchy[ww + 1][ni].name,
                                    e.hierarchy[ww + 1][ni].discriminator,
                                ) && #[trigger] tag_key_is(
                                    cat@.tags,
                                    ed.target.0 as int,
                                    e.hierarchy[ww][pi].name,
                                    e.hierarchy[ww][pi].discriminator,
                                );
                            if ww < w as int {
                                assert(meta_cond_upto(e, cat@, ed, w as int));
                                assert(mt_in(mt_before, ed));
                                assert(mt_in(cat@.meta_tags, ed));
                            } else {
                                assert(key_in_level(tfixed, ed.tag.0, h[w as int + 1]));
                                assert(key_in_level(tfixed, ed.target.0, h[w as int]));
                                assert(mt_in(cat@.meta_tags, ed));
                            }
                        }
                        if mt_in(mt_before, ed) {
                            assert(mt_in(cat@.meta_tags, ed)) by {
                                let k = choose|k: int|
                                    0 <= k < mt_before.len() && #[trigger] mt_before[k] == ed;
                                assert(cat@.meta_tags[k] == ed);
                            }
                        }
                    }
                }
                w = w + 1;
            }
        }
        proof {
            assert forall|ed: MetaTag| #[trigger]
                mt_in(cat@.meta_tags, ed) <==> mt_in(o.meta_tags, ed) || meta_edge_cond(
                    e,
                    cat@,
                    ed,
                ) by {
                if h.len() > 1 {
                    if meta_cond_upto(e, cat@, ed, h.len() - 1) {
                        assert(meta_edge_cond(e, cat@, ed));
                    }
                    if meta_edge_cond(e, cat@, ed) {
                        let (ww, pi, ni) = choose|ww: int, pi: int, ni: int|
                            0 <= ww < e.hierarchy.len() - 1 && 0 <= pi < e.hierarchy[ww].len()
                                && 0 <= ni < e.hierarchy[ww + 1].len() && ed.tag.0
                                < cat@.tags.len() && ed.target.0 < cat@.tags.len()
                                && #[trigger] tag_key_is(
                                cat@.tags,
                                ed.tag.0 as int,
                                e.hierarchy[ww + 1][ni].name,
                                e.hierarchy[ww + 1][ni].discriminator,
                            ) && #[trigger] tag_key_is(
                                cat@.tags,
                                ed.target.0 as int,
                                e.hierarchy[ww][pi].name,
                                e.hierarchy[ww][pi].discriminator,
                            );
                        assert(meta_cond_upto(e, cat@, ed, h.len() - 1));
                    }
                } else {
                    assert(cat@.meta_tags == o.meta_tags);
                    if meta_edge_cond(e, cat@, ed) {
                        assert(false);
                    }
                }
            }
        }
        total
    }
}

/// LAW - executing the same tag expression twice reports no new
/// connections: if a second execution starts from the catalog the first
/// one produced, and the first execution did not change which works the
/// expression's filter matches, then the second execution returns a count
/// of zero and leaves the catalog unchanged.
///
/// The stability hypothesis is necessary: an expression whose implication
/// edges feed back into its own filter can widen its match set and so tag
/// new works on a second run.
pub proof fn lemma_execute_idempotent(
    e: TagExprV,
    c0: CatalogV,
    c1: CatalogV,
    n1: nat,
    c2: CatalogV,
    n2: nat,
)
    requires
        wf_v(c1),
        wf_v(c2),
        execute_post(e, c0, c1, n1),
        execute_post(e, c1, c2, n2),
        match e.query {
            None => true,
            Some(q) => forall|i: int|
                0 <= i < c0.works.len() ==> (query_matches(c0, q, #[trigger] c0.works[i])
                    <==> query_matches(c1, q, c1.works[i])),
        },
    ensures
        n2 == 0,
        c2.tags == c1.tags,
        c2.work_tags == c1.work_tags,
        c2.meta_tags == c1.meta_tags,
{
    let h = e.hierarchy;
    assert(c1.works == c0.works);
    // The filter matches the same works, so the creation condition agrees.
    assert(spec_had_matches(e, c1) == spec_had_matches(e, c0)) by {
        match e.query {
            None => {},
            Some(q) => {
                if spec_had_matches(e, c0) {
                    let i = choose|i: int|
                        0 <= i < c0.works.len() && query_matches(c0, q, #[trigger] c0.works[i]);
                    assert(query_matches(c1, q, c1.works[i]));
                }
                if spec_had_matches(e, c1) {
                    let i = choose|i: int|
                        0 <= i < c1.works.len() && query_matches(c1, q, #[trigger] c1.works[i]);
                    assert(query_matches(c0, q, c0.works[i]));
                }
            },
        }
    }
    // No tag was created: every key the second run could create already
    // resolves in the first run's catalog.
    assert(c2.tags == c1.tags) by {
        if c2.tags.len() > c1.tags.len() {
            let k = c1.tags.len() as int;
            assert(tag_keyed_in_hierarchy(h, c2.tags, k));
            let (w, j) = choose|w: int, j: int|
                0 <= w < h.len() && 0 <= j < h[w].len() && tag_key_is(
                    c2.tags,
                    k,
                    (#[trigger] h[w][j]).name,
                    h[w][j].discriminator,
                );
            assert(creates_tags(e, c0));
            assert(spec_find_tag(c1.tags, h[w][j].name, h[w][j].discriminator) is Some);
            let kk = choose|kk: int|
                0 <= kk < c1.tags.len() && tag_key_is(
                    c1.tags,
                    kk,
                    h[w][j].name,
                    h[w][j].discriminator,
                );
            assert(c2.tags[kk] == c1.tags[kk]);
            assert(tag_key_is(c2.tags, kk, h[w][j].name, h[w][j].discriminator));
            assert(!(c2.tags[kk].name == c2.tags[k].name && same_opt(
                c2.tags[kk].discriminator,
                c2.tags[k].discriminator,
            )));
            assert(false);
        }
        assert(c2.tags =~= c1.tags);
    }
    // No work-tag edge was added: every edge the expression describes is
    // already present.
    assert(c2.work_tags == c1.work_tags) by {
        if c2.work_tags.len() > c1.work_tags.len() {
            let k = c1.work_tags.len() as int;
            let ed = c2.work_tags[k];
            assert(wt_in(c2.work_tags, ed));
            if wt_in(c1.work_tags, ed) {
                let kk = choose|kk: int|
                    0 <= kk < c1.work_tags.len() && #[trigger] c1.work_tags[kk] == ed;
                assert(c2.work_tags[kk] == ed);
                assert(false);
            }
            assert(work_edge_cond(e, c1, c2, ed));
            let q = e.query->Some_0;
            assert(query_matches(c0, q, c0.works[ed.work_id.0 as int]));
            assert(work_edge_cond(e, c0, c1, ed));
            assert(wt_in(c1.work_tags, ed));
            assert(false);
        }
        assert(c2.work_tags =~= c1.work_tags);
    }
    // No implication edge was added either.
    assert(c2.meta_tags == c1.meta_tags) by {
        if c2.meta_tags.len() > c1.meta_tags.len() {
            let k = c1.meta_tags.len() as int;
            let ed = c2.meta_tags[k];
            assert(mt_in(c2.meta_tags, ed));
            if mt_in(c1.meta_tags, ed) {
                let kk = choose|kk: int|
                    0 <= kk < c1.meta_tags.len() && #[trigger] c1.meta_tags[kk] == ed;
                assert(c2.meta_tags[kk] == ed);
                assert(false);
            }
            assert(meta_edge_cond(e, c2, ed));
            let (w, pi, ni) = choose|w: int, pi: int, ni: int|
                0 <= w < e.hierarchy.len() - 1 && 0 <= pi < e.hierarchy[w].len() && 0 <= ni
                    < e.hierarchy[w + 1].len() && ed.tag.0 < c2.tags.len() && ed.target.0
                    < c2.tags.len() && #[trigger] tag_key_is(
                    c2.tags,
                    ed.tag.0 as int,
                    e.hierarchy[w + 1][ni].name,
                    e.hierarchy[w + 1][ni].discriminator,
                ) && #[trigger] tag_key_is(
                    c2.tags,
                    ed.target.0 as int,
                    e.hierarchy[w][pi].name,
                    e.hierarchy[w][pi].discriminator,
                );
            assert(meta_edge_cond(e, c1, ed));
            assert(mt_in(c1.meta_tags, ed));
            assert(false);
        }
        assert(c2.meta_tags =~= c1.meta_tags);
    }
}

/// The reference `h[w][j]` was listed correctly: the row at its flat
/// position in `ts` is the unique tag row its key resolves to.
pub open spec fn listed_ok(h: Seq<Seq<DTagV>>, c: CatalogV, ts: Seq<crate::models::Tag>, w: int, j: int) -> bool {
    let k = spec_total_refs(h, 0) - spec_total_refs(h, w) + j;
    &&& 0 <= k < ts.len()
    &&& spec_find_tag(c.tags, h[w][j].name, h[w][j].discriminator) == Some(ts[k]@.id as int)
    &&& 0 <= ts[k]@.id < c.tags.len()
    &&& c.tags[ts[k]@.id as int] == ts[k]@
}

impl TagExpression {
    /// The tag rows of the hierarchy's references, level by level and in
    /// order: the row at a reference's flat position is the one its key
    /// resolves to. A reference whose tag does not exist is a not-found
    /// error.
    pub fn list_tags(&self, cat: &Catalog) -> (r: Result<Vec<crate::models::Tag>, crate::Error>)
        requires
            cat.wf(),
        ensures
            match r {
                Ok(ts) => {
                    &&& ts@.len() == spec_total_refs(self@.hierarchy, 0)
                    &&& forall|w: int, j: int|
                        0 <= w < self@.hierarchy.len() && 0 <= j < self@.hierarchy[w].len()
                            ==> #[trigger] listed_ok(self@.hierarchy, cat@, ts@, w, j)
                },
                Err(e) => e is NotFound && exists|w: int, j: int|
                    0 <= w < self@.hierarchy.len() && 0 <= j < self@.hierarchy[w].len()
                        && #[trigger] spec_find_tag(
                        cat@.tags,
                        self@.hierarchy[w][j].name,
                        self@.hierarchy[w][j].discriminator,
                    ) is None,
            },
    {
        let ghost h = self@.hierarchy;
        proof {
            lemma_total_refs(h, 0);
        }
        let mut out: Vec<crate::models::Tag> = Vec::new();
        let mut w: usize = 0;
        while w < self.hierarchy.len()
            invariant
                cat.wf(),
                0 <= w <= self.hierarchy@.len(),
                h == self@.hierarchy,
                h == hierarchy_view(self.hierarchy@),
                h.len() == self.hierarchy@.len(),
                forall|v: int| 0 <= v ==> #[trigger] spec_total_refs(h, v) <= spec_total_refs(
                    h,
                    0,
                ),
                out@.len() == spec_total_refs(h, 0) - spec_total_refs(h, w as int),
                forall|w2: int, j2: int|
                    0 <= w2 < w && 0 <= j2 < h[w2].len() ==> #[trigger] listed_ok(
                        h,
                        cat@,
                        out@,
                        w2,
                        j2,
                    ),
            decreases self.hierarchy@.len() - w,
        {
            let level = &self.hierarchy[w];
            proof {
                assert(h[w as int] == dtag_list_view(level@));
                assert(spec_total_refs(h, w as int) == h[w as int].len() + spec_total_refs(
                    h,
                    w as int + 1,
                ));
            }
            let mut j: usize = 0;
            while j < level.len()
                invariant
                    cat.wf(),
                    0 <= j <= level@.len(),
                    0 <= w < self.hierarchy@.len(),
                    level == &self.hierarchy[w as int],
                    h == self@.hierarchy,
                    h == hierarchy_view(self.hierarchy@),
                    h.len() == self.hierarchy@.len(),
                    h[w as int] == dtag_list_view(level@),
                    h[w as int].len() == level@.len(),
                    forall|v: int| 0 <= v ==> #[trigger] spec_total_refs(h, v)
                        <= spec_total_refs(h, 0),
                    spec_total_refs(h, w as int) == h[w as int].len() + spec_total_refs(
                        h,
                        w as int + 1,
                    ),
                    out@.len() == spec_total_refs(h, 0) - spec_total_refs(h, w as int) + j,
                    forall|w2: int, j2: int|
                        0 <= w2 < w && 0 <= j2 < h[w2].len() ==> #[trigger] listed_ok(
                            h,
                            cat@,
                            out@,
                            w2,
                            j2,
                        ),
                    forall|j2: int|
                        0 <= j2 < j ==> #[trigger] listed_ok(h, cat@, out@, w as int, j2),
                decreases level@.len() - j,
            {
                let dt = &level[j];
                let disc: Option<&str> = match &dt.discriminator {
                    Some(d) => Some(d.as_str()),
                    None => None,
                };
                proof {
                    assert(h[w as int][j as int] == level@[j as int]@);
                    assert(opt_str_view(disc) == h[w as int][j as int].discriminator);
                }
                match cat.try_get_discriminated(dt.name.as_str(), disc) {
                    None => {
                        proof {
                            assert(spec_find_tag(
                                cat@.tags,
                                h[w as int][j as int].name,
                                h[w as int][j as int].discriminator,
                            ) is None);
                        }
                        return Err(crate::Error::NotFound { kind: crate::ModelKind::Tag });
                    },
                    Some(t) => {
                        let ghost before = out@;
                        out.push(t);
                        proof {
                            assert(out@[before.len() as int]@.id < cat@.tags.len());
                            assert forall|w2: int, j2: int|
                                0 <= w2 < w && 0 <= j2 < h[w2].len() implies #[trigger] listed_ok(
                                h,
                                cat@,
                                out@,
                                w2,
                                j2,
                            ) by {
                                assert(listed_ok(h, cat@, before, w2, j2));
                                let k = spec_total_refs(h, 0) - spec_total_refs(h, w2) + j2;
                                assert(out@[k] == before[k]);
                            }
                            assert forall|j2: int|
                                0 <= j2 < j + 1 implies #[trigger] listed_ok(
                                h,
                                cat@,
                                out@,
                                w as int,
                                j2,
                            ) by {
                                let k = spec_total_refs(h, 0) - spec_total_refs(h, w as int)
                                    + j2;
                                if j2 < j {
                                    assert(listed_ok(h, cat@, before, w as int, j2));
                                    assert(out@[k] == before[k]);
                                } else {
                                    assert(out@[k] == out@[before.len() as int]);
                                }
                            }
                        }
                    },
                }
                j = j + 1;
            }
            proof {
                assert forall|w2: int, j2: int|
                    0 <= w2 < w + 1 && 0 <= j2 < h[w2].len() implies #[trigger] listed_ok(
                    h,
                    cat@,
                    out@,
                    w2,
                    j2,
                ) by {
                    if w2 == w as int {
                        assert(listed_ok(h, cat@, out@, w as int, j2));
                    }
                }
            }
            w = w + 1;
        }
        proof {
            assert(spec_total_refs(h, h.len() as int) == 0);
        }
        Ok(out)
    }
}

} // verus!
