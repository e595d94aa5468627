//! The catalog: an in-memory content store holding works, authors, tags and
//! the edges between them, against which queries are compiled and executed
//! and tag expressions are applied.
//!
//! Every mutating operation preserves the catalog's well-formedness:
//! surrogate ids are the row indices, natural keys are unique, and every
//! edge references existing rows.

use vstd::prelude::*;

use crate::models::{
    Author, AuthorId, AuthorName, AuthorNameV, MetaTag, Tag, TagId, TagV, Work, WorkId, WorkTag,
    WorkV,
};
use crate::search::{query_list_view, lemma_query_views, Query, QueryTerm, QueryV, TermV};

verus! {

/// The in-memory content store.
#[derive(Debug)]
pub struct Catalog {
    pub tags: Vec<Tag>,
    pub works: Vec<Work>,
    pub work_tags: Vec<WorkTag>,
    pub meta_tags: Vec<MetaTag>,
    pub authors: Vec<Author>,
    pub author_names: Vec<AuthorName>,
}

/// Mathematical model of a [`Catalog`].
pub struct CatalogV {
    pub tags: Seq<TagV>,
    pub works: Seq<WorkV>,
    pub work_tags: Seq<WorkTag>,
    pub meta_tags: Seq<MetaTag>,
    pub authors: Seq<Author>,
    pub author_names: Seq<AuthorNameV>,
}

impl View for Catalog {
    type V = CatalogV;

    open spec fn view(&self) -> CatalogV {
        CatalogV {
            tags: Seq::new(self.tags@.len(), |i: int| self.tags@[i]@),
            works: Seq::new(self.works@.len(), |i: int| self.works@[i]@),
            work_tags: self.work_tags@,
            meta_tags: self.meta_tags@,
            authors: self.authors@,
            author_names: Seq::new(self.author_names@.len(), |i: int| self.author_names@[i]@),
        }
    }
}

/// Whether two optional strings hold the same characters.
pub open spec fn same_opt(a: Option<Seq<char>>, b: Option<Seq<char>>) -> bool {
    match (a, b) {
        (None, None) => true,
        (Some(x), Some(y)) => x == y,
        _ => false,
    }
}

/// Whether the tag at index `k` has the given natural key.
pub open spec fn tag_key_is(tags: Seq<TagV>, k: int, name: Seq<char>, disc: Option<Seq<char>>) -> bool {
    tags[k].name == name && same_opt(tags[k].discriminator, disc)
}

/// The index of the tag with the given natural key, if it exists. Under
/// well-formedness the index is unique.
pub open spec fn spec_find_tag(tags: Seq<TagV>, name: Seq<char>, disc: Option<Seq<char>>) -> Option<
    int,
> {
    if exists|k: int| 0 <= k < tags.len() && tag_key_is(tags, k, name, disc) {
        Some(choose|k: int| 0 <= k < tags.len() && tag_key_is(tags, k, name, disc))
    } else {
        None
    }
}

/// Well-formedness of a catalog model: ids are row indices, natural keys
/// are unique, and edges reference existing rows, at most once per pair.
pub open spec fn wf_v(c: CatalogV) -> bool {
    &&& forall|i: int| 0 <= i < c.tags.len() ==> #[trigger] c.tags[i].id == i as u64
        &&& forall|i: int, j: int|
            0 <= i < j < c.tags.len() ==> !(c.tags[i].name == c.tags[j].name && same_opt(
                c.tags[i].discriminator,
                c.tags[j].discriminator,
            ))
        &&& forall|i: int| 0 <= i < c.works.len() ==> (#[trigger] c.works[i]).work_id == i as u64
        &&& forall|i: int|
            0 <= i < c.work_tags.len() ==> (#[trigger] c.work_tags[i]).tag.0 < c.tags.len()
                && c.work_tags[i].work_id.0 < c.works.len()
        &&& forall|i: int, j: int|
            0 <= i < j < c.work_tags.len() ==> !(c.work_tags[i] == c.work_tags[j])
        &&& forall|i: int|
            0 <= i < c.meta_tags.len() ==> (#[trigger] c.meta_tags[i]).tag.0 < c.tags.len()
                && c.meta_tags[i].target.0 < c.tags.len()
        &&& forall|i: int, j: int|
            0 <= i < j < c.meta_tags.len() ==> !(c.meta_tags[i] == c.meta_tags[j])
        &&& forall|i: int| 0 <= i < c.authors.len() ==> (#[trigger] c.authors[i]).author_id.0
            == i as u64
    &&& forall|i: int| 0 <= i < c.author_names.len() ==> (#[trigger] c.author_names[i]).author_id
        < c.authors.len()
}

/// A catalog component other than the tag table was left alone: the tag
/// table grew by rows with fresh ids and fresh keys, and well-formedness
/// carries over.
proof fn lemma_wf_push_tag(o: CatalogV, c: CatalogV, t: TagV)
    requires
        wf_v(o),
        c.tags == o.tags.push(t),
        t.id == o.tags.len(),
        forall|k: int| 0 <= k < o.tags.len() ==> !tag_key_is(o.tags, k, t.name, t.discriminator),
        c.works == o.works,
        c.work_tags == o.work_tags,
        c.meta_tags == o.meta_tags,
        c.authors == o.authors,
        c.author_names == o.author_names,
    ensures
        wf_v(c),
{
    assert forall|i: int| 0 <= i < c.tags.len() implies #[trigger] c.tags[i].id == i as u64 by {
        if i < o.tags.len() {
            assert(c.tags[i] == o.tags[i]);
        }
    }
    assert forall|i: int, j: int| 0 <= i < j < c.tags.len() implies !(c.tags[i].name
        == c.tags[j].name && same_opt(c.tags[i].discriminator, c.tags[j].discriminator)) by {
        assert(c.tags[i] == o.tags[i]);
        if j == o.tags.len() {
            assert(!tag_key_is(o.tags, i, t.name, t.discriminator));
        } else {
            assert(c.tags[j] == o.tags[j]);
        }
    }
    assert forall|i: int|
        0 <= i < c.work_tags.len() implies (#[trigger] c.work_tags[i]).tag.0 < c.tags.len()
            && c.work_tags[i].work_id.0 < c.works.len() by {
        assert(o.work_tags[i].tag.0 < o.tags.len());
    }
    assert forall|i: int|
        0 <= i < c.meta_tags.len() implies (#[trigger] c.meta_tags[i]).tag.0 < c.tags.len()
            && c.meta_tags[i].target.0 < c.tags.len() by {
        assert(o.meta_tags[i].tag.0 < o.tags.len());
    }
}

/// Only the work table grew, by one row carrying the next id.
proof fn lemma_wf_push_work(o: CatalogV, c: CatalogV, w: WorkV)
    requires
        wf_v(o),
        c.works == o.works.push(w),
        w.work_id == o.works.len(),
        c.tags == o.tags,
        c.work_tags == o.work_tags,
        c.meta_tags == o.meta_tags,
        c.authors == o.authors,
        c.author_names == o.author_names,
    ensures
        wf_v(c),
{
    assert forall|i: int| 0 <= i < c.works.len() implies (#[trigger] c.works[i]).work_id
        == i as u64 by {
        if i < o.works.len() {
            assert(c.works[i] == o.works[i]);
        }
    }
    assert forall|i: int|
        0 <= i < c.work_tags.len() implies (#[trigger] c.work_tags[i]).tag.0 < c.tags.len()
            && c.work_tags[i].work_id.0 < c.works.len() by {
        assert(o.work_tags[i].work_id.0 < o.works.len());
    }
}

/// Only the work-tag edge table grew, by one fresh edge between existing
/// rows.
proof fn lemma_wf_push_work_tag(o: CatalogV, c: CatalogV, e: WorkTag)
    requires
        wf_v(o),
        c.work_tags == o.work_tags.push(e),
        e.tag.0 < o.tags.len(),
        e.work_id.0 < o.works.len(),
        forall|k: int| 0 <= k < o.work_tags.len() ==> !(#[trigger] o.work_tags[k] == e),
        c.tags == o.tags,
        c.works == o.works,
        c.meta_tags == o.meta_tags,
        c.authors == o.authors,
        c.author_names == o.author_names,
    ensures
        wf_v(c),
{
    assert forall|i: int|
        0 <= i < c.work_tags.len() implies (#[trigger] c.work_tags[i]).tag.0 < c.tags.len()
            && c.work_tags[i].work_id.0 < c.works.len() by {
        if i < o.work_tags.len() {
            assert(c.work_tags[i] == o.work_tags[i]);
            assert(o.work_tags[i].tag.0 < o.tags.len());
        }
    }
    assert forall|i: int, j: int| 0 <= i < j < c.work_tags.len() implies !(c.work_tags[i]
        == c.work_tags[j]) by {
        assert(c.work_tags[i] == o.work_tags[i]);
        if j < o.work_tags.len() {
            assert(c.work_tags[j] == o.work_tags[j]);
        } else {
            assert(!(o.work_tags[i] == e));
        }
    }
}

/// Only the implication edge table grew, by one fresh edge between
/// existing tags.
proof fn lemma_wf_push_meta_tag(o: CatalogV, c: CatalogV, e: MetaTag)
    requires
        wf_v(o),
        c.meta_tags == o.meta_tags.push(e),
        e.tag.0 < o.tags.len(),
        e.target.0 < o.tags.len(),
        forall|k: int| 0 <= k < o.meta_tags.len() ==> !(#[trigger] o.meta_tags[k] == e),
        c.tags == o.tags,
        c.works == o.works,
        c.work_tags == o.work_tags,
        c.authors == o.authors,
        c.author_names == o.author_names,
    ensures
        wf_v(c),
{
    assert forall|i: int|
        0 <= i < c.meta_tags.len() implies (#[trigger] c.meta_tags[i]).tag.0 < c.tags.len()
            && c.meta_tags[i].target.0 < c.tags.len() by {
        if i < o.meta_tags.len() {
            assert(c.meta_tags[i] == o.meta_tags[i]);
            assert(o.meta_tags[i].tag.0 < o.tags.len());
        }
    }
    assert forall|i: int, j: int| 0 <= i < j < c.meta_tags.len() implies !(c.meta_tags[i]
        == c.meta_tags[j]) by {
        assert(c.meta_tags[i] == o.meta_tags[i]);
        if j < o.meta_tags.len() {
            assert(c.meta_tags[j] == o.meta_tags[j]);
        } else {
            assert(!(o.meta_tags[i] == e));
        }
    }
}

/// An author row and its name row grew together.
proof fn lemma_wf_push_author(o: CatalogV, c: CatalogV, a: Author, n: AuthorNameV)
    requires
        wf_v(o),
        c.authors == o.authors.push(a),
        a.author_id.0 == o.authors.len(),
        c.author_names == o.author_names.push(n),
        n.author_id < c.authors.len(),
        c.tags == o.tags,
        c.works == o.works,
        c.work_tags == o.work_tags,
        c.meta_tags == o.meta_tags,
    ensures
        wf_v(c),
{
    assert forall|i: int| 0 <= i < c.authors.len() implies (#[trigger] c.authors[i]).author_id.0
        == i as u64 by {
        if i < o.authors.len() {
            assert(c.authors[i] == o.authors[i]);
        }
    }
    assert forall|i: int|
        0 <= i < c.author_names.len() implies (#[trigger] c.author_names[i]).author_id
            < c.authors.len() by {
        if i < o.author_names.len() {
            assert(c.author_names[i] == o.author_names[i]);
            assert(o.author_names[i].author_id < o.authors.len());
        }
    }
}

impl Catalog {
    /// Well-formedness of the catalog.
    pub open spec fn wf(&self) -> bool {
        wf_v(self@)
    }

    /// An empty catalog.
    pub fn new() -> (r: Self)
        ensures
            r.wf(),
            r@.tags.len() == 0,
            r@.works.len() == 0,
            r@.work_tags.len() == 0,
            r@.meta_tags.len() == 0,
            r@.authors.len() == 0,
            r@.author_names.len() == 0,
    {
        Catalog {
            tags: Vec::new(),
            works: Vec::new(),
            work_tags: Vec::new(),
            meta_tags: Vec::new(),
            authors: Vec::new(),
            author_names: Vec::new(),
        }
    }

    /// The tag with the given natural key, if any.
    pub fn try_get_discriminated(&self, name: &str, discriminator: Option<&str>) -> (r: Option<
        Tag,
    >)
        requires
            self.wf(),
        ensures
            match r {
                None => spec_find_tag(self@.tags, name@, opt_str_view(discriminator)) is None,
                Some(t) => {
                    &&& spec_find_tag(self@.tags, name@, opt_str_view(discriminator)) == Some(
                        t@.id as int,
                    )
                    &&& 0 <= t@.id < self@.tags.len()
                    &&& self@.tags[t@.id as int] == t@
                },
            },
    {
        let ghost key_disc = opt_str_view(discriminator);
        let mut i: usize = 0;
        while i < self.tags.len()
            invariant
                self.wf(),
                0 <= i <= self@.tags.len(),
                key_disc == opt_str_view(discriminator),
                forall|k: int|
                    0 <= k < i ==> !tag_key_is(self@.tags, k, name@, key_disc),
            decreases self@.tags.len() - i,
        {
            let t = &self.tags[i];
            let name_eq = str_eq(t.name.as_str(), name);
            let disc_eq: bool = match (&t.discriminator, &discriminator) {
                (Option::None, Option::None) => true,
                (Option::Some(a), Option::Some(b)) => str_eq(a.as_str(), b),
                _ => false,
            };
            if name_eq && disc_eq {
                proof {
                    assert(tag_key_is(self@.tags, i as int, name@, key_disc));
                    let w = choose|k: int|
                        0 <= k < self@.tags.len() && tag_key_is(self@.tags, k, name@, key_disc);
                    if w != i as int {
                        assert(false);
                    }
                    assert(self@.tags[i as int].id == i as u64);
                }
                return Some(self.tags[i].clone_tag());
            }
            i = i + 1;
        }
        proof {
            if exists|k: int|
                0 <= k < self@.tags.len() && tag_key_is(self@.tags, k, name@, key_disc) {
                let w = choose|k: int|
                    0 <= k < self@.tags.len() && tag_key_is(self@.tags, k, name@, key_disc);
                assert(!tag_key_is(self@.tags, w, name@, key_disc));
            }
        }
        None
    }

    /// The tag with the given natural key, or a not-found error.
    pub fn get_discriminated(&self, name: &str, discriminator: Option<&str>) -> (r: Result<
        Tag,
        crate::Error,
    >)
        requires
            self.wf(),
        ensures
            match r {
                Ok(t) => {
                    &&& spec_find_tag(self@.tags, name@, opt_str_view(discriminator)) == Some(
                        t@.id as int,
                    )
                    &&& 0 <= t@.id < self@.tags.len()
                    &&& self@.tags[t@.id as int] == t@
                },
                Err(e) => spec_find_tag(self@.tags, name@, opt_str_view(discriminator)) is None
                    && e is NotFound,
            },
    {
        match self.try_get_discriminated(name, discriminator) {
            Some(t) => Ok(t),
            None => Err(crate::Error::NotFound { kind: crate::ModelKind::Tag }),
        }
    }

    /// Every tag with the given name, whatever its discriminator.
    pub fn get(&self, name: &str) -> (r: Vec<Tag>)
        requires
            self.wf(),
        ensures
            forall|k: int| 0 <= k < r@.len() ==> (#[trigger] r@[k])@.name == name@,
            forall|i: int|
                0 <= i < self@.tags.len() && self@.tags[i].name == name@ ==> exists|k: int|
                    0 <= k < r@.len() && (#[trigger] r@[k])@ == self@.tags[i],
    {
        let mut out: Vec<Tag> = Vec::new();
        let mut i: usize = 0;
        while i < self.tags.len()
            invariant
                self.wf(),
                0 <= i <= self@.tags.len(),
                forall|k: int| 0 <= k < out@.len() ==> (#[trigger] out@[k])@.name == name@,
                forall|j: int|
                    0 <= j < i && self@.tags[j].name == name@ ==> exists|k: int|
                        0 <= k < out@.len() && (#[trigger] out@[k])@ == self@.tags[j],
            decreases self@.tags.len() - i,
        {
            let ghost before = out@;
            let matched = str_eq(self.tags[i].name.as_str(), name);
            if matched {
                out.push(self.tags[i].clone_tag());
            }
            proof {
                assert forall|j: int|
                    0 <= j < i + 1 && self@.tags[j].name == name@ implies exists|k: int|
                        0 <= k < out@.len() && (#[trigger] out@[k])@ == self@.tags[j] by {
                    if j < i {
                        let k = choose|k: int|
                            0 <= k < before.len() && (#[trigger] before[k])@ == self@.tags[j];
                        assert(out@[k]@ == self@.tags[j]);
                    } else {
                        assert(out@[before.len() as int]@ == self@.tags[i as int]);
                    }
                }
            }
            i = i + 1;
        }
        out
    }

    /// Get the tag with the given natural key, creating it if it does not
    /// exist: the get-or-create operation is idempotent, and a created tag
    /// receives the next surrogate id.
    pub fn get_discriminated_or_create(&mut self, name: &str, discriminator: Option<&str>) -> (r:
        Tag)
        requires
            old(self).wf(),
            old(self)@.tags.len() < u64::MAX,
        ensures
            final(self).wf(),
            final(self)@.works == old(self)@.works,
            final(self)@.work_tags == old(self)@.work_tags,
            final(self)@.meta_tags == old(self)@.meta_tags,
            final(self)@.authors == old(self)@.authors,
            final(self)@.author_names == old(self)@.author_names,
            r@.name == name@,
            same_opt(r@.discriminator, opt_str_view(discriminator)),
            0 <= r@.id < final(self)@.tags.len(),
            final(self)@.tags[r@.id as int] == r@,
            match spec_find_tag(old(self)@.tags, name@, opt_str_view(discriminator)) {
                Some(k) => final(self)@.tags == old(self)@.tags && r@.id == k,
                None => final(self)@.tags == old(self)@.tags.push(r@) && r@.id
                    == old(self)@.tags.len(),
            },
    {
        match self.try_get_discriminated(name, discriminator) {
            Some(t) => t,
            None => self.create(name, discriminator),
        }
    }

    /// Create a tag with the given natural key, which must not exist yet.
    pub fn create(&mut self, name: &str, discriminator: Option<&str>) -> (r: Tag)
        requires
            old(self).wf(),
            old(self)@.tags.len() < u64::MAX,
            spec_find_tag(old(self)@.tags, name@, opt_str_view(discriminator)) is None,
        ensures
            final(self).wf(),
            final(self)@.works == old(self)@.works,
            final(self)@.work_tags == old(self)@.work_tags,
            final(self)@.meta_tags == old(self)@.meta_tags,
            final(self)@.authors == old(self)@.authors,
            final(self)@.author_names == old(self)@.author_names,
            r@.name == name@,
            same_opt(r@.discriminator, opt_str_view(discriminator)),
            r@.id == old(self)@.tags.len(),
            final(self)@.tags == old(self)@.tags.push(r@),
    {
        let id = self.tags.len() as u64;
        let disc: Option<String> = match discriminator {
            Some(d) => Some(String::from_str(d)),
            None => None,
        };
        let tag = Tag { name: String::from_str(name), discriminator: disc, id: TagId(id) };
        let out = tag.clone_tag();
        self.tags.push(tag);
        proof {
            let c = self@;
            let o = old(self)@;
            assert(c.tags =~= o.tags.push(out@));
            assert(c.works =~= o.works);
            assert(c.author_names =~= o.author_names);
            assert forall|k: int| 0 <= k < o.tags.len() implies !tag_key_is(
                o.tags,
                k,
                out@.name,
                out@.discriminator,
            ) by {
                if tag_key_is(o.tags, k, name@, opt_str_view(discriminator)) {
                    assert(spec_find_tag(o.tags, name@, opt_str_view(discriminator)) is Some);
                }
            }
            lemma_wf_push_tag(o, c, out@);
        }
        out
    }
}

/// The view of an optional string slice.
pub open spec fn opt_str_view(o: Option<&str>) -> Option<Seq<char>> {
    match o {
        Some(s) => Some(s@),
        None => None,
    }
}

/// Whether two string slices hold the same characters.
pub(crate) fn str_eq(a: &str, b: &str) -> (r: bool)
    ensures
        r == (a@ == b@),
{
    let an = a.unicode_len();
    let bn = b.unicode_len();
    if an != bn {
        proof {
            assert(a@ != b@);
        }
        return false;
    }
    let mut i: usize = 0;
    while i < an
        invariant
            0 <= i <= an,
            an == a@.len(),
            an == b@.len(),
            forall|k: int| 0 <= k < i ==> a@[k] == b@[k],
        decreases an - i,
    {
        if a.get_char(i) != b.get_char(i) {
            return false;
        }
        i = i + 1;
    }
    proof {
        assert(a@ =~= b@);
    }
    true
}

impl Tag {
    /// A copy of the tag row.
    pub fn clone_tag(&self) -> (r: Tag)
        ensures
            r@ == self@,
    {
        Tag {
            name: self.name.clone(),
            discriminator: match &self.discriminator {
                Some(d) => Some(d.clone()),
                None => None,
            },
            id: TagId(self.id.0),
        }
    }
}

impl Catalog {
    /// Add an author row, returning its id.
    pub fn add_author(&mut self, name: &str) -> (r: AuthorId)
        requires
            old(self).wf(),
            old(self)@.authors.len() < u64::MAX,
        ensures
            final(self).wf(),
            final(self)@.tags == old(self)@.tags,
            final(self)@.works == old(self)@.works,
            final(self)@.work_tags == old(self)@.work_tags,
            final(self)@.meta_tags == old(self)@.meta_tags,
            r.0 == old(self)@.authors.len(),
            final(self)@.authors == old(self)@.authors.push(Author { author_id: r }),
            final(self)@.author_names == old(self)@.author_names.push(
                AuthorNameV { author_id: r.0, name: name@ },
            ),
    {
        let id = AuthorId(self.authors.len() as u64);
        self.authors.push(Author { author_id: id });
        self.author_names.push(AuthorName { author_id: id, name: String::from_str(name) });
        proof {
            let c = self@;
            let o = old(self)@;
            assert(c.tags =~= o.tags);
            assert(c.works =~= o.works);
            assert(c.author_names =~= o.author_names.push(
                AuthorNameV { author_id: id.0, name: name@ },
            ));
            lemma_wf_push_author(o, c, Author { author_id: id }, AuthorNameV { author_id: id.0, name: name@ });
        }
        id
    }

    /// Add a work row, assigning it the next id.
    pub fn add_work(&mut self, work: Work) -> (r: WorkId)
        requires
            old(self).wf(),
            old(self)@.works.len() < u64::MAX,
        ensures
            final(self).wf(),
            final(self)@.tags == old(self)@.tags,
            final(self)@.work_tags == old(self)@.work_tags,
            final(self)@.meta_tags == old(self)@.meta_tags,
            final(self)@.authors == old(self)@.authors,
            final(self)@.author_names == old(self)@.author_names,
            r.0 == old(self)@.works.len(),
            final(self)@.works.len() == old(self)@.works.len() + 1,
            forall|i: int|
                0 <= i < old(self)@.works.len() ==> final(self)@.works[i] == old(self)@.works[i],
            final(self)@.works.last() == (WorkV { work_id: r.0, ..work@ }),
    {
        let id = WorkId(self.works.len() as u64);
        let mut work = work;
        work.work_id = id;
        let ghost wv = work@;
        self.works.push(work);
        proof {
            let c = self@;
            let o = old(self)@;
            assert(c.tags =~= o.tags);
            assert(c.works =~= o.works.push(wv));
            assert(c.author_names =~= o.author_names);
            lemma_wf_push_work(o, c, wv);
            assert(forall|i: int|
                0 <= i < o.works.len() ==> #[trigger] c.works[i] == o.works[i]);
        }
        id
    }

    /// Whether the work-tag edge is present.
    pub open spec fn spec_has_work_tag(&self, tag: TagId, work: WorkId) -> bool {
        exists|k: int|
            0 <= k < self@.work_tags.len() && #[trigger] self@.work_tags[k] == (WorkTag {
                tag,
                work_id: work,
            })
    }

    /// Attach a tag to a work. The edge insert is idempotent: the result
    /// says whether the edge is new.
    #[verifier::loop_isolation(false)]
    pub fn tag_work(&mut self, work: WorkId, tag: TagId) -> (r: bool)
        requires
            old(self).wf(),
            tag.0 < old(self)@.tags.len(),
            work.0 < old(self)@.works.len(),
        ensures
            final(self).wf(),
            final(self)@.tags == old(self)@.tags,
            final(self)@.works == old(self)@.works,
            final(self)@.meta_tags == old(self)@.meta_tags,
            final(self)@.authors == old(self)@.authors,
            final(self)@.author_names == old(self)@.author_names,
            r == !old(self).spec_has_work_tag(tag, work),
            final(self)@.work_tags == if old(self).spec_has_work_tag(tag, work) {
                old(self)@.work_tags
            } else {
                old(self)@.work_tags.push(WorkTag { tag, work_id: work })
            },
    {
        let edge = WorkTag { tag, work_id: work };
        let mut i: usize = 0;
        while i < self.work_tags.len()
            invariant
                forall|k: int| 0 <= k < i ==> !(#[trigger] self@.work_tags[k] == edge),
                0 <= i <= self@.work_tags.len(),
                edge == (WorkTag { tag, work_id: work }),
            decreases self@.work_tags.len() - i,
        {
            if self.work_tags[i].tag.0 == tag.0 && self.work_tags[i].work_id.0 == work.0 {
                proof {
                    assert(self@.work_tags[i as int] == edge);
                }
                return false;
            }
            i = i + 1;
        }
        self.work_tags.push(edge);
        proof {
            let c = self@;
            let o = old(self)@;
            assert(c.tags =~= o.tags);
            assert(c.works =~= o.works);
            assert(c.author_names =~= o.author_names);
            assert(!old(self).spec_has_work_tag(tag, work));
            lemma_wf_push_work_tag(o, c, edge);
        }
        true
    }

    /// Whether the implication edge is present.
    pub open spec fn spec_has_meta_tag(&self, tag: TagId, target: TagId) -> bool {
        exists|k: int|
            0 <= k < self@.meta_tags.len() && #[trigger] self@.meta_tags[k] == (MetaTag {
                tag,
                target,
            })
    }

    /// Add the implication edge `(tag, target)`: for search purposes,
    /// satisfying `tag` implies satisfying `target`. Idempotent: the result
    /// says whether the edge is new.
    #[verifier::loop_isolation(false)]
    pub fn add_implication(&mut self, tag: TagId, target: TagId) -> (r: bool)
        requires
            old(self).wf(),
            tag.0 < old(self)@.tags.len(),
            target.0 < old(self)@.tags.len(),
        ensures
            final(self).wf(),
            final(self)@.tags == old(self)@.tags,
            final(self)@.works == old(self)@.works,
            final(self)@.work_tags == old(self)@.work_tags,
            final(self)@.authors == old(self)@.authors,
            final(self)@.author_names == old(self)@.author_names,
            r == !old(self).spec_has_meta_tag(tag, target),
            final(self)@.meta_tags == if old(self).spec_has_meta_tag(tag, target) {
                old(self)@.meta_tags
            } else {
                old(self)@.meta_tags.push(MetaTag { tag, target })
            },
    {
        let edge = MetaTag { tag, target };
        let mut i: usize = 0;
        while i < self.meta_tags.len()
            invariant
                forall|k: int| 0 <= k < i ==> !(#[trigger] self@.meta_tags[k] == edge),
                0 <= i <= self@.meta_tags.len(),
                edge == (MetaTag { tag, target }),
            decreases self@.meta_tags.len() - i,
        {
            if self.meta_tags[i].tag.0 == tag.0 && self.meta_tags[i].target.0 == target.0 {
                proof {
                    assert(self@.meta_tags[i as int] == edge);
                }
                return false;
            }
            i = i + 1;
        }
        self.meta_tags.push(edge);
        proof {
            let c = self@;
            let o = old(self)@;
            assert(c.tags =~= o.tags);
            assert(c.works =~= o.works);
            assert(c.author_names =~= o.author_names);
            assert(!old(self).spec_has_meta_tag(tag, target));
            lemma_wf_push_meta_tag(o, c, edge);
        }
        true
    }
}

// ---------------------------------------------------------------------------
// Transitive closure of the implication graph.
// ---------------------------------------------------------------------------

/// Whether the implication table holds the edge `a -> b`.
pub open spec fn has_edge(mts: Seq<MetaTag>, a: u64, b: u64) -> bool {
    exists|k: int|
        0 <= k < mts.len() && #[trigger] mts[k] == (MetaTag { tag: TagId(a), target: TagId(b) })
}

/// Reachability from `a` to `b` along at most `n` implication edges.
pub open spec fn reaches_in(mts: Seq<MetaTag>, a: u64, b: u64, n: nat) -> bool
    decreases n,
{
    a == b || (n > 0 && exists|m: u64|
        #[trigger] has_edge(mts, a, m) && reaches_in(mts, m, b, (n - 1) as nat))
}

/// Reachability from `a` to `b` along implication edges, in any number of
/// steps. Cycles are tolerated: the relation is over finite paths.
pub open spec fn reaches(mts: Seq<MetaTag>, a: u64, b: u64) -> bool {
    exists|n: nat| reaches_in(mts, a, b, n)
}

/// A longer step bound keeps reachability.
proof fn lemma_reaches_in_mono(mts: Seq<MetaTag>, a: u64, b: u64, n1: nat, n2: nat)
    requires
        reaches_in(mts, a, b, n1),
        n1 <= n2,
    ensures
        reaches_in(mts, a, b, n2),
    decreases n1,
{
    if a != b && n1 > 0 {
        let m = choose|m: u64| #[trigger] has_edge(mts, a, m) && reaches_in(
            mts,
            m,
            b,
            (n1 - 1) as nat,
        );
        lemma_reaches_in_mono(mts, m, b, (n1 - 1) as nat, (n2 - 1) as nat);
    }
}

/// Reachability followed by one edge is reachability.
proof fn lemma_reaches_in_extend(mts: Seq<MetaTag>, a: u64, b: u64, c: u64, n: nat)
    requires
        reaches_in(mts, a, b, n),
        has_edge(mts, b, c),
    ensures
        reaches_in(mts, a, c, n + 1),
    decreases n,
{
    if a == b {
        assert(reaches_in(mts, c, c, 0));
        assert(has_edge(mts, a, c) && reaches_in(mts, c, c, n as nat));
    } else {
        let m = choose|m: u64| #[trigger] has_edge(mts, a, m) && reaches_in(
            mts,
            m,
            b,
            (n - 1) as nat,
        );
        lemma_reaches_in_extend(mts, m, b, c, (n - 1) as nat);
    }
}

/// Everything reachable from a member of an edge-closed set is a member.
proof fn lemma_closed_reaches(mts: Seq<MetaTag>, s: Set<u64>, a: u64, b: u64, n: nat)
    requires
        forall|x: u64, y: u64| s.contains(x) && #[trigger] has_edge(mts, x, y) ==> s.contains(y),
        s.contains(a),
        reaches_in(mts, a, b, n),
    ensures
        s.contains(b),
    decreases n,
{
    if a != b {
        let m = choose|m: u64| #[trigger] has_edge(mts, a, m) && reaches_in(
            mts,
            m,
            b,
            (n - 1) as nat,
        );
        lemma_closed_reaches(mts, s, m, b, (n - 1) as nat);
    }
}

/// Whether a tag-id list holds the id `x`.
pub open spec fn contains_tid(ts: Seq<TagId>, x: u64) -> bool {
    exists|k: int| 0 <= k < ts.len() && #[trigger] ts[k].0 == x
}

/// Executable membership test on a tag-id list.
fn contains_tid_exec(ts: &Vec<TagId>, x: TagId) -> (r: bool)
    ensures
        r == contains_tid(ts@, x.0),
{
    let mut i: usize = 0;
    while i < ts.len()
        invariant
            0 <= i <= ts@.len(),
            forall|k: int| 0 <= k < i ==> (#[trigger] ts@[k].0) != x.0,
        decreases ts@.len() - i,
    {
        if ts[i].0 == x.0 {
            return true;
        }
        i = i + 1;
    }
    false
}

/// A list of distinct ids below `n` has at most `n` entries.
proof fn lemma_distinct_bounded_ids(ts: Seq<TagId>, n: int)
    requires
        0 <= n,
        forall|i: int, j: int| 0 <= i < j < ts.len() ==> ts[i].0 != ts[j].0,
        forall|k: int| 0 <= k < ts.len() ==> (#[trigger] ts[k].0) < n,
    ensures
        ts.len() <= n,
{
    let ints = ts.map_values(|t: TagId| t.0 as int);
    assert(ints.no_duplicates()) by {
        assert forall|i: int, j: int| 0 <= i < ints.len() && 0 <= j < ints.len() && i != j
            implies ints[i] != ints[j] by {
            if i < j {
                assert(ts[i].0 != ts[j].0);
            } else {
                assert(ts[j].0 != ts[i].0);
            }
        }
    }
    ints.unique_seq_to_set();
    assert(ints.to_set().subset_of(vstd::set_lib::set_int_range(0, n))) by {
        assert forall|x: int| ints.to_set().contains(x) implies vstd::set_lib::set_int_range(
            0,
            n,
        ).contains(x) by {
            assert(ints.contains(x));
            let k = choose|k: int| 0 <= k < ints.len() && ints[k] == x;
            assert(ts[k].0 < n);
        }
    }
    vstd::set_lib::lemma_int_range(0, n);
    vstd::set_lib::lemma_len_subset(ints.to_set(), vstd::set_lib::set_int_range(0, n));
}

impl Catalog {
    /// The set of tag ids reachable from `start` by following outgoing
    /// implication edges zero or more times, `start` included. The
    /// traversal tracks visited ids, so it terminates on cyclic graphs.
    #[verifier::loop_isolation(false)]
    pub fn closure(&self, start: TagId) -> (r: Vec<TagId>)
        requires
            self.wf(),
            start.0 < self@.tags.len(),
        ensures
            forall|i: int, j: int| 0 <= i < j < r@.len() ==> r@[i].0 != r@[j].0,
            forall|x: u64| contains_tid(r@, x) <==> reaches(self@.meta_tags, start.0, x),
    {
        let ghost mts = self@.meta_tags;
        let ghost ntags = self@.tags.len() as int;
        let mut visited: Vec<TagId> = Vec::new();
        let mut queue: Vec<TagId> = Vec::new();
        visited.push(start);
        queue.push(start);
        proof {
            assert(reaches_in(mts, start.0, start.0, 0));
            assert(visited@[0].0 == start.0);
            assert(queue@[0].0 == start.0);
            assert(contains_tid(visited@, start.0));
        }
        while queue.len() > 0
            invariant
                forall|i: int, j: int|
                    0 <= i < j < visited@.len() ==> visited@[i].0 != visited@[j].0,
                forall|i: int, j: int| 0 <= i < j < queue@.len() ==> queue@[i].0 != queue@[j].0,
                forall|k: int| 0 <= k < visited@.len() ==> (#[trigger] visited@[k].0) < ntags,
                contains_tid(visited@, start.0),
                forall|k: int|
                    0 <= k < visited@.len() ==> reaches(mts, start.0, #[trigger] visited@[k].0),
                forall|k: int| 0 <= k < queue@.len() ==> contains_tid(
                    visited@,
                    #[trigger] queue@[k].0,
                ),
                forall|a: u64, b: u64|
                    contains_tid(visited@, a) && !contains_tid(queue@, a) && #[trigger] has_edge(
                        mts,
                        a,
                        b,
                    ) ==> contains_tid(visited@, b),
            decreases ntags - visited@.len(), queue@.len(),
        {
            proof {
                lemma_distinct_bounded_ids(visited@, ntags);
            }
            let ghost visited_at_pop = visited@;
            let ghost q_old = queue@;
            let cur = queue.pop().unwrap();
            let ghost queue_after_pop = queue@;
            proof {
                assert(cur == q_old.last());
                assert(queue@ =~= q_old.drop_last());
                assert(!contains_tid(queue@, cur.0)) by {
                    if contains_tid(queue@, cur.0) {
                        let k = choose|k: int|
                            0 <= k < queue@.len() && #[trigger] queue@[k].0 == cur.0;
                        assert(q_old[k].0 == q_old[q_old.len() - 1].0);
                        assert(false);
                    }
                }
                assert(contains_tid(visited@, cur.0)) by {
                    assert(contains_tid(visited@, q_old[q_old.len() - 1].0));
                }
                assert forall|a: u64, b: u64|
                    contains_tid(visited@, a) && !contains_tid(queue@, a) && a != cur.0
                        && #[trigger] has_edge(mts, a, b) implies contains_tid(visited@, b) by {
                    assert(!contains_tid(q_old, a)) by {
                        if contains_tid(q_old, a) {
                            let k = choose|k: int|
                                0 <= k < q_old.len() && #[trigger] q_old[k].0 == a;
                            if k < q_old.len() - 1 {
                                assert(queue@[k].0 == a);
                            }
                            assert(false);
                        }
                    }
                }
            }
            let mut e: usize = 0;
            while e < self.meta_tags.len()
                invariant
                    0 <= e <= self@.meta_tags.len(),
                    forall|i: int, j: int|
                        0 <= i < j < visited@.len() ==> visited@[i].0 != visited@[j].0,
                    forall|i: int, j: int|
                        0 <= i < j < queue@.len() ==> queue@[i].0 != queue@[j].0,
                    forall|k: int| 0 <= k < visited@.len() ==> (#[trigger] visited@[k].0) < ntags,
                    contains_tid(visited@, start.0),
                    contains_tid(visited@, cur.0),
                    !contains_tid(queue@, cur.0),
                    forall|k: int|
                        0 <= k < visited@.len() ==> reaches(
                            mts,
                            start.0,
                            #[trigger] visited@[k].0,
                        ),
                    forall|k: int| 0 <= k < queue@.len() ==> contains_tid(
                        visited@,
                        #[trigger] queue@[k].0,
                    ),
                    forall|a: u64, b: u64|
                        contains_tid(visited@, a) && !contains_tid(queue@, a) && a != cur.0
                            && #[trigger] has_edge(mts, a, b) ==> contains_tid(visited@, b),
                    forall|j: int|
                        0 <= j < e && (#[trigger] mts[j]).tag.0 == cur.0 ==> contains_tid(
                            visited@,
                            mts[j].target.0,
                        ),
                    visited@.len() >= visited_at_pop.len(),
                    visited@.len() - queue@.len() == visited_at_pop.len()
                        - queue_after_pop.len(),
                decreases self@.meta_tags.len() - e,
            {
                if self.meta_tags[e].tag.0 == cur.0 {
                    let t = self.meta_tags[e].target;
                    if !contains_tid_exec(&visited, t) {
                        let ghost vis_before = visited@;
                        let ghost q_before = queue@;
                        visited.push(t);
                        queue.push(t);
                        proof {
                            assert(reaches(mts, start.0, cur.0));
                            let n = choose|n: nat| reaches_in(mts, start.0, cur.0, n);
                            assert(mts[e as int] == (MetaTag { tag: TagId(cur.0), target: TagId(t.0) }));
                            assert(has_edge(mts, cur.0, t.0));
                            lemma_reaches_in_extend(mts, start.0, cur.0, t.0, n);
                            assert(reaches_in(mts, start.0, t.0, n + 1));
                            assert(t.0 < ntags);
                            assert(visited@[visited@.len() - 1].0 == t.0);
                            assert(queue@[queue@.len() - 1].0 == t.0);
                            assert(contains_tid(visited@, t.0));
                            assert(contains_tid(queue@, t.0));
                            assert(forall|k: int|
                                0 <= k < vis_before.len() ==> #[trigger] visited@[k]
                                    == vis_before[k]);
                            assert(forall|k: int|
                                0 <= k < q_before.len() ==> #[trigger] queue@[k] == q_before[k]);
                            assert forall|a: u64, b: u64|
                                contains_tid(visited@, a) && !contains_tid(queue@, a) && a
                                    != cur.0 && #[trigger] has_edge(mts, a, b) implies contains_tid(
                                visited@,
                                b,
                            ) by {
                                if a != t.0 {
                                    assert(contains_tid(vis_before, a)) by {
                                        let k = choose|k: int|
                                            0 <= k < visited@.len() && #[trigger] visited@[k].0
                                                == a;
                                        assert(k < vis_before.len());
                                        assert(vis_before[k].0 == a);
                                    }
                                    assert(!contains_tid(q_before, a)) by {
                                        if contains_tid(q_before, a) {
                                            let k = choose|k: int|
                                                0 <= k < q_before.len()
                                                    && #[trigger] q_before[k].0 == a;
                                            assert(queue@[k].0 == a);
                                            assert(false);
                                        }
                                    }
                                    assert(contains_tid(vis_before, b));
                                    let k = choose|k: int|
                                        0 <= k < vis_before.len() && #[trigger] vis_before[k].0
                                            == b;
                                    assert(visited@[k].0 == b);
                                }
                            }
                            assert forall|j: int|
                                0 <= j < e + 1 && (#[trigger] mts[j]).tag.0 == cur.0
                                    implies contains_tid(visited@, mts[j].target.0) by {
                                if j < e {
                                    assert(contains_tid(vis_before, mts[j].target.0));
                                    let k = choose|k: int|
                                        0 <= k < vis_before.len() && #[trigger] vis_before[k].0
                                            == mts[j].target.0;
                                    assert(visited@[k].0 == mts[j].target.0);
                                }
                            }
                            assert forall|k: int|
                                0 <= k < queue@.len() implies contains_tid(
                                    visited@,
                                    #[trigger] queue@[k].0,
                                ) by {
                                if k < q_before.len() {
                                    assert(contains_tid(vis_before, q_before[k].0));
                                    let w = choose|w: int|
                                        0 <= w < vis_before.len() && #[trigger] vis_before[w].0
                                            == q_before[k].0;
                                    assert(visited@[w].0 == queue@[k].0);
                                }
                            }
                            assert(contains_tid(visited@, start.0)) by {
                                let k = choose|k: int|
                                    0 <= k < vis_before.len() && #[trigger] vis_before[k].0
                                        == start.0;
                                assert(visited@[k].0 == start.0);
                            }
                            assert(contains_tid(visited@, cur.0)) by {
                                let k = choose|k: int|
                                    0 <= k < vis_before.len() && #[trigger] vis_before[k].0
                                        == cur.0;
                                assert(visited@[k].0 == cur.0);
                            }
                            assert(!contains_tid(queue@, cur.0)) by {
                                if contains_tid(queue@, cur.0) {
                                    let k = choose|k: int|
                                        0 <= k < queue@.len() && #[trigger] queue@[k].0 == cur.0;
                                    if k < q_before.len() {
                                        assert(q_before[k].0 == cur.0);
                                    }
                                    assert(false);
                                }
                            }
                        }
                    } else {
                        proof {
                            assert(mts[e as int].target.0 == t.0);
                        }
                    }
                }
                e = e + 1;
            }
            proof {
                // The popped id is now closed: every outgoing edge's target
                // is visited, so the frontier invariant holds again.
                assert forall|a: u64, b: u64|
                    contains_tid(visited@, a) && !contains_tid(queue@, a) && #[trigger] has_edge(
                        mts,
                        a,
                        b,
                    ) implies contains_tid(visited@, b) by {
                    if a == cur.0 {
                        let k = choose|k: int|
                            0 <= k < mts.len() && #[trigger] mts[k] == (MetaTag {
                                tag: TagId(a),
                                target: TagId(b),
                            });
                        assert(mts[k].tag.0 == cur.0);
                        assert(contains_tid(visited@, mts[k].target.0));
                    }
                }
                if visited@.len() == visited_at_pop.len() {
                    assert(queue@.len() < queue_after_pop.len() + 1);
                }
                lemma_distinct_bounded_ids(visited@, ntags);
            }
        }
        proof {
            // Soundness is the visited invariant; completeness follows from
            // the visited set being edge-closed and containing the start.
            let s = Set::new(|x: u64| contains_tid(visited@, x));
            assert forall|x: u64| reaches(mts, start.0, x) implies contains_tid(visited@, x) by {
                let n = choose|n: nat| reaches_in(mts, start.0, x, n);
                assert forall|a: u64, b: u64|
                    s.contains(a) && #[trigger] has_edge(mts, a, b) implies s.contains(b) by {
                    assert(contains_tid(visited@, a));
                    assert(!contains_tid(queue@, a));
                }
                lemma_closed_reaches(mts, s, start.0, x, n);
            }
            assert forall|x: u64| contains_tid(visited@, x) implies reaches(
                mts,
                start.0,
                x,
            ) by {
                let k = choose|k: int| 0 <= k < visited@.len() && #[trigger] visited@[k].0 == x;
            }
        }
        visited
    }
}

// ---------------------------------------------------------------------------
// Query semantics and execution.
// ---------------------------------------------------------------------------

/// Whether `needle` occurs contiguously inside `hay`.
pub open spec fn is_substring(needle: Seq<char>, hay: Seq<char>) -> bool {
    exists|i: int|
        0 <= i <= hay.len() - needle.len() && #[trigger] hay.subrange(i, i + needle.len())
            == needle
}

/// Whether the work `w` satisfies the term `t` against the catalog `c`.
///
/// A tag term matches the works tagged with the named tag or with any tag
/// the named tag transitively implies; a missing tag matches nothing.
/// Title and caption terms are case-folded substring matches, author and
/// url terms are exact; a missing field matches nothing.
pub open spec fn term_matches(c: CatalogV, t: TermV, w: WorkV) -> bool {
    match t {
        TermV::Tag(dt) => match spec_find_tag(c.tags, dt.name, dt.discriminator) {
            None => false,
            Some(k) => exists|j: int|
                0 <= j < c.work_tags.len() && (#[trigger] c.work_tags[j]).work_id.0 == w.work_id
                    && reaches(c.meta_tags, c.tags[k].id, c.work_tags[j].tag.0),
        },
        TermV::Title(s) => match w.title {
            Some(t) => is_substring(s, crate::search::parse::lower_of(t)),
            None => false,
        },
        TermV::Author(s) => match w.author_id {
            Some(a) => exists|j: int|
                0 <= j < c.author_names.len() && (#[trigger] c.author_names[j]).author_id == a
                    && c.author_names[j].name == s,
            None => false,
        },
        TermV::Caption(s) => match w.caption {
            Some(t) => is_substring(s, crate::search::parse::lower_of(t)),
            None => false,
        },
        TermV::Url(s) => match w.url {
            Some(u) => u == s,
            None => false,
        },
    }
}

/// Whether the work `w` satisfies the query `q` against the catalog `c`.
pub open spec fn query_matches(c: CatalogV, q: QueryV, w: WorkV) -> bool
    decreases q, 1int,
{
    match q {
        QueryV::Term(t) => term_matches(c, t, w),
        QueryV::Not(b) => !query_matches(c, *b, w),
        QueryV::And(ts) => all_match(c, ts, w, 0),
        QueryV::Or(ts) => any_match(c, ts, w, 0),
    }
}

/// Whether `w` satisfies every query of `ts` from index `i` on.
pub open spec fn all_match(c: CatalogV, ts: Seq<QueryV>, w: WorkV, i: int) -> bool
    decreases ts, ts.len() - i, 0int,
{
    if i < 0 || i >= ts.len() {
        true
    } else {
        query_matches(c, ts[i], w) && all_match(c, ts, w, i + 1)
    }
}

/// Whether `w` satisfies some query of `ts` from index `i` on.
pub open spec fn any_match(c: CatalogV, ts: Seq<QueryV>, w: WorkV, i: int) -> bool
    decreases ts, ts.len() - i, 0int,
{
    if i < 0 || i >= ts.len() {
        false
    } else {
        query_matches(c, ts[i], w) || any_match(c, ts, w, i + 1)
    }
}

/// `all_match` is the conjunction over the children; `any_match` the
/// disjunction.
pub proof fn lemma_fold_match(c: CatalogV, ts: Seq<QueryV>, w: WorkV, i: int)
    requires
        0 <= i <= ts.len(),
    ensures
        all_match(c, ts, w, i) <==> (forall|k: int|
            i <= k < ts.len() ==> query_matches(c, #[trigger] ts[k], w)),
        any_match(c, ts, w, i) <==> (exists|k: int|
            i <= k < ts.len() && query_matches(c, #[trigger] ts[k], w)),
    decreases ts.len() - i,
{
    if i < ts.len() {
        lemma_fold_match(c, ts, w, i + 1);
    }
}

/// Whether a work-id list holds the id `x`.
pub open spec fn contains_wid(ws: Seq<WorkId>, x: u64) -> bool {
    exists|k: int| 0 <= k < ws.len() && #[trigger] ws[k].0 == x
}

/// Executable membership test on a work-id list.
fn contains_wid_exec(ws: &Vec<WorkId>, x: WorkId) -> (r: bool)
    ensures
        r == contains_wid(ws@, x.0),
{
    let mut i: usize = 0;
    while i < ws.len()
        invariant
            0 <= i <= ws@.len(),
            forall|k: int| 0 <= k < i ==> (#[trigger] ws@[k].0) != x.0,
        decreases ws@.len() - i,
    {
        if ws[i].0 == x.0 {
            return true;
        }
        i = i + 1;
    }
    false
}

/// Distinct work ids.
pub open spec fn wids_distinct(ws: Seq<WorkId>) -> bool {
    forall|i: int, j: int| 0 <= i < j < ws.len() ==> ws[i].0 != ws[j].0
}

/// Whether `hay` contains `needle` as a contiguous substring.
fn contains_substr(hay: &str, needle: &str) -> (r: bool)
    ensures
        r == is_substring(needle@, hay@),
{
    let hn = hay.unicode_len();
    let nn = needle.unicode_len();
    if nn > hn {
        return false;
    }
    let mut i: usize = 0;
    while i <= hn - nn
        invariant
            0 <= i <= hn - nn + 1,
            nn <= hn,
            hn == hay@.len(),
            nn == needle@.len(),
            forall|k: int|
                0 <= k < i ==> #[trigger] hay@.subrange(k, k + needle@.len()) != needle@,
        decreases hn - nn + 1 - i,
    {
        let mut j: usize = 0;
        let mut all_eq = true;
        while j < nn
            invariant
                0 <= j <= nn,
                i + nn <= hn,
                hn == hay@.len(),
                nn == needle@.len(),
                all_eq == (forall|k: int| 0 <= k < j ==> hay@[i + k] == #[trigger] needle@[k]),
            decreases nn - j,
        {
            if hay.get_char(i + j) != needle.get_char(j) {
                proof {
                    assert(hay@[i + j] != needle@[j as int]);
                }
                all_eq = false;
                j = nn;
            } else {
                j = j + 1;
            }
        }
        if all_eq {
            proof {
                assert(hay@.subrange(i as int, i + needle@.len()) =~= needle@);
            }
            return true;
        }
        proof {
            if hay@.subrange(i as int, i + needle@.len()) == needle@ {
                let bad = choose|k: int| 0 <= k < nn && hay@[i + k] != needle@[k];
                assert(hay@.subrange(i as int, i + needle@.len())[bad] == needle@[bad]);
                assert(false);
            }
        }
        i = i + 1;
    }
    proof {
        if is_substring(needle@, hay@) {
            let k = choose|k: int|
                0 <= k <= hay@.len() - needle@.len() && #[trigger] hay@.subrange(
                    k,
                    k + needle@.len(),
                ) == needle@;
            assert(hay@.subrange(k, k + needle@.len()) != needle@);
        }
    }
    false
}

impl Work {
    /// A copy of the work row.
    pub fn clone_work(&self) -> (r: Work)
        ensures
            r@ == self@,
    {
        Work {
            path: self.path.clone(),
            work_id: WorkId(self.work_id.0),
            size: self.size,
            title: match &self.title {
                Some(t) => Some(t.clone()),
                None => None,
            },
            author_id: match self.author_id {
                Some(a) => Some(a),
                None => None,
            },
            caption: match &self.caption {
                Some(t) => Some(t.clone()),
                None => None,
            },
            url: match &self.url {
                Some(t) => Some(t.clone()),
                None => None,
            },
            hash: self.hash,
        }
    }
}

/// Membership after a push.
proof fn lemma_push_member(before: Seq<WorkId>, after: Seq<WorkId>, e: WorkId)
    requires
        after == before.push(e),
    ensures
        forall|x: u64| contains_wid(after, x) <==> (contains_wid(before, x) || x == e.0),
        wids_distinct(before) && !contains_wid(before, e.0) ==> wids_distinct(after),
{
    assert(after[before.len() as int].0 == e.0);
    assert forall|x: u64| contains_wid(after, x) implies (contains_wid(before, x) || x
        == e.0) by {
        let k = choose|k: int| 0 <= k < after.len() && #[trigger] after[k].0 == x;
        if k < before.len() {
            assert(before[k].0 == x);
        }
    }
    assert forall|x: u64| contains_wid(before, x) implies contains_wid(after, x) by {
        let k = choose|k: int| 0 <= k < before.len() && #[trigger] before[k].0 == x;
        assert(after[k].0 == x);
    }
    if wids_distinct(before) && !contains_wid(before, e.0) {
        assert forall|a: int, b: int| 0 <= a < b < after.len() implies after[a].0 != after[b].0 by {
            if b == before.len() {
                assert(before[a].0 == after[a].0);
                assert(contains_wid(before, after[a].0));
            }
        }
    }
}

/// Extending a scanned prefix by one element.
proof fn lemma_prefix_wid(a: Seq<WorkId>, i: int, x: u64)
    requires
        0 <= i < a.len(),
    ensures
        (exists|k: int| 0 <= k < i + 1 && (#[trigger] a[k]).0 == x) <==> ((exists|k: int|
            0 <= k < i && (#[trigger] a[k]).0 == x) || a[i].0 == x),
{
    if exists|k: int| 0 <= k < i + 1 && (#[trigger] a[k]).0 == x {
        let k = choose|k: int| 0 <= k < i + 1 && (#[trigger] a[k]).0 == x;
        if k < i {
            assert(exists|k: int| 0 <= k < i && (#[trigger] a[k]).0 == x);
        }
    }
    if exists|k: int| 0 <= k < i && (#[trigger] a[k]).0 == x {
        let k = choose|k: int| 0 <= k < i && (#[trigger] a[k]).0 == x;
        assert(0 <= k < i + 1 && a[k].0 == x);
    }
    if a[i].0 == x {
        assert(0 <= i < i + 1 && a[i].0 == x);
    }
}

/// Intersection of two id lists, keeping `a`'s order.
fn intersect_ids(a: Vec<WorkId>, b: &Vec<WorkId>) -> (r: Vec<WorkId>)
    requires
        wids_distinct(a@),
    ensures
        wids_distinct(r@),
        forall|x: u64| contains_wid(r@, x) <==> contains_wid(a@, x) && contains_wid(b@, x),
{
    let mut out: Vec<WorkId> = Vec::new();
    let mut i: usize = 0;
    while i < a.len()
        invariant
            0 <= i <= a@.len(),
            wids_distinct(a@),
            wids_distinct(out@),
            forall|x: u64| contains_wid(out@, x) <==> (exists|k: int|
                0 <= k < i && (#[trigger] a@[k]).0 == x) && contains_wid(b@, x),
        decreases a@.len() - i,
    {
        let ghost out_before = out@;
        let keep = contains_wid_exec(b, a[i]);
        if keep && !contains_wid_exec(&out, a[i]) {
            out.push(a[i]);
            proof {
                lemma_push_member(out_before, out@, a@[i as int]);
            }
        }
        proof {
            assert forall|x: u64|
                contains_wid(out@, x) <==> (exists|k: int|
                    0 <= k < i + 1 && (#[trigger] a@[k]).0 == x) && contains_wid(b@, x) by {
                lemma_prefix_wid(a@, i as int, x);
                assert(contains_wid(out_before, x) <==> (exists|k: int|
                    0 <= k < i && (#[trigger] a@[k]).0 == x) && contains_wid(b@, x));
            }
        }
        i = i + 1;
    }
    out
}

/// Union of two id lists.
fn union_ids(a: Vec<WorkId>, b: &Vec<WorkId>) -> (r: Vec<WorkId>)
    requires
        wids_distinct(a@),
    ensures
        wids_distinct(r@),
        forall|x: u64| contains_wid(r@, x) <==> contains_wid(a@, x) || contains_wid(b@, x),
{
    let ghost av = a@;
    let mut out = a;
    let mut i: usize = 0;
    while i < b.len()
        invariant
            0 <= i <= b@.len(),
            wids_distinct(out@),
            forall|x: u64|
                #![trigger contains_wid(out@, x)]
                contains_wid(out@, x) <==> contains_wid(av, x) || (exists|k: int|
                    0 <= k < i && (#[trigger] b@[k]).0 == x),
        decreases b@.len() - i,
    {
        let ghost out_before = out@;
        if !contains_wid_exec(&out, b[i]) {
            out.push(b[i]);
            proof {
                lemma_push_member(out_before, out@, b@[i as int]);
            }
        }
        proof {
            assert forall|x: u64|
                contains_wid(out@, x) <==> contains_wid(av, x) || (exists|k: int|
                    0 <= k < i + 1 && (#[trigger] b@[k]).0 == x) by {
                lemma_prefix_wid(b@, i as int, x);
                assert(contains_wid(out_before, x) <==> contains_wid(av, x) || (exists|k: int|
                    0 <= k < i && (#[trigger] b@[k]).0 == x));
            }
        }
        i = i + 1;
    }
    out
}

impl Catalog {
    /// The ids of every work, the universe of the complement operation.
    fn all_work_ids(&self) -> (r: Vec<WorkId>)
        ensures
            wids_distinct(r@),
            forall|x: u64| contains_wid(r@, x) <==> x < self@.works.len(),
    {
        let mut out: Vec<WorkId> = Vec::new();
        let mut i: usize = 0;
        while i < self.works.len()
            invariant
                0 <= i <= self@.works.len(),
                out@.len() == i,
                forall|k: int| 0 <= k < i ==> (#[trigger] out@[k]).0 == k as u64,
            decreases self@.works.len() - i,
        {
            out.push(WorkId(i as u64));
            i = i + 1;
        }
        proof {
            assert forall|x: u64| contains_wid(out@, x) implies x < self@.works.len() by {
                let k = choose|k: int| 0 <= k < out@.len() && #[trigger] out@[k].0 == x;
            }
            assert forall|x: u64| x < self@.works.len() implies contains_wid(out@, x) by {
                assert(out@[x as int].0 == x);
            }
        }
        out
    }

    /// The ids not in `inner`: the relative complement against all works.
    fn complement_ids(&self, inner: &Vec<WorkId>) -> (r: Vec<WorkId>)
        ensures
            wids_distinct(r@),
            forall|x: u64|
                contains_wid(r@, x) <==> x < self@.works.len() && !contains_wid(inner@, x),
    {
        let all = self.all_work_ids();
        let mut out: Vec<WorkId> = Vec::new();
        let mut i: usize = 0;
        while i < all.len()
            invariant
                0 <= i <= all@.len(),
                wids_distinct(all@),
                wids_distinct(out@),
                forall|x: u64| contains_wid(all@, x) <==> x < self@.works.len(),
                forall|x: u64| contains_wid(out@, x) <==> (exists|k: int|
                    0 <= k < i && (#[trigger] all@[k]).0 == x) && !contains_wid(inner@, x),
            decreases all@.len() - i,
        {
            let ghost out_before = out@;
            if !contains_wid_exec(inner, all[i]) && !contains_wid_exec(&out, all[i]) {
                out.push(all[i]);
                proof {
                    lemma_push_member(out_before, out@, all@[i as int]);
                }
            }
            proof {
                assert forall|x: u64|
                    contains_wid(out@, x) <==> (exists|k: int|
                        0 <= k < i + 1 && (#[trigger] all@[k]).0 == x) && !contains_wid(
                        inner@,
                        x,
                    ) by {
                    lemma_prefix_wid(all@, i as int, x);
                    assert(contains_wid(out_before, x) <==> (exists|k: int|
                        0 <= k < i && (#[trigger] all@[k]).0 == x) && !contains_wid(inner@, x));
                }
            }
            i = i + 1;
        }
        proof {
            assert forall|x: u64|
                contains_wid(out@, x) <==> x < self@.works.len() && !contains_wid(
                    inner@,
                    x,
                ) by {
                if x < self@.works.len() {
                    assert(contains_wid(all@, x));
                    let k = choose|k: int| 0 <= k < all@.len() && #[trigger] all@[k].0 == x;
                }
                if contains_wid(out@, x) {
                    let k = choose|k: int|
                        0 <= k < i && (#[trigger] all@[k]).0 == x;
                    assert(contains_wid(all@, x));
                }
            }
        }
        out
    }

    /// Whether the work `w` carries some tag of `cl`.
    fn work_tagged_in(&self, w: WorkId, cl: &Vec<TagId>) -> (r: bool)
        ensures
            r == exists|j: int|
                0 <= j < self@.work_tags.len() && (#[trigger] self@.work_tags[j]).work_id.0 == w.0
                    && contains_tid(cl@, self@.work_tags[j].tag.0),
    {
        let mut j: usize = 0;
        while j < self.work_tags.len()
            invariant
                0 <= j <= self@.work_tags.len(),
                forall|k: int|
                    0 <= k < j ==> !((#[trigger] self@.work_tags[k]).work_id.0 == w.0
                        && contains_tid(cl@, self@.work_tags[k].tag.0)),
            decreases self@.work_tags.len() - j,
        {
            if self.work_tags[j].work_id.0 == w.0 && contains_tid_exec(cl, self.work_tags[j].tag) {
                return true;
            }
            j = j + 1;
        }
        false
    }

    /// Whether the author `a` carries the name `s`.
    fn author_named(&self, a: AuthorId, s: &str) -> (r: bool)
        ensures
            r == exists|j: int|
                0 <= j < self@.author_names.len() && (#[trigger] self@.author_names[j]).author_id
                    == a.0 && self@.author_names[j].name == s@,
    {
        let mut j: usize = 0;
        while j < self.author_names.len()
            invariant
                0 <= j <= self@.author_names.len(),
                forall|k: int|
                    0 <= k < j ==> !((#[trigger] self@.author_names[k]).author_id == a.0
                        && self@.author_names[k].name == s@),
            decreases self@.author_names.len() - j,
        {
            if self.author_names[j].author_id.0 == a.0 && str_eq(
                self.author_names[j].name.as_str(),
                s,
            ) {
                proof {
                    assert(self@.author_names[j as int].author_id == a.0);
                    assert(self@.author_names[j as int].name == s@);
                }
                return true;
            }
            j = j + 1;
        }
        false
    }

    /// Whether a work satisfies a non-tag term.
    fn scalar_term_matches(&self, w: &Work, t: &QueryTerm) -> (r: bool)
        requires
            !(t@ is Tag),
        ensures
            r == term_matches(self@, t@, w@),
    {
        match t {
            QueryTerm::Tag(_) => false,
            QueryTerm::Title(s) => match &w.title {
                Some(title) => {
                    let folded = crate::search::parse::lowercase(title.as_str());
                    contains_substr(folded.as_str(), s.as_str())
                },
                None => false,
            },
            QueryTerm::Author(s) => match w.author_id {
                Some(a) => self.author_named(a, s.as_str()),
                None => false,
            },
            QueryTerm::Caption(s) => match &w.caption {
                Some(c) => {
                    let folded = crate::search::parse::lowercase(c.as_str());
                    contains_substr(folded.as_str(), s.as_str())
                },
                None => false,
            },
            QueryTerm::Url(s) => match &w.url {
                Some(u) => str_eq(u.as_str(), s.as_str()),
                None => false,
            },
        }
    }

    /// The ids of the works satisfying the term.
    fn term_work_ids(&self, t: &QueryTerm) -> (r: Vec<WorkId>)
        requires
            self.wf(),
        ensures
            wids_distinct(r@),
            forall|x: u64| #[trigger] contains_wid(r@, x) ==> x < self@.works.len(),
            forall|i: int|
                0 <= i < self@.works.len() ==> (contains_wid(r@, i as u64) <==> term_matches(
                    self@,
                    t@,
                    #[trigger] self@.works[i],
                )),
    {
        let mut out: Vec<WorkId> = Vec::new();
        match t {
            QueryTerm::Tag(dt) => {
                let disc: Option<&str> = match &dt.discriminator {
                    Some(d) => Some(d.as_str()),
                    None => None,
                };
                match self.try_get_discriminated(dt.name.as_str(), disc) {
                    None => {},
                    Some(tag) => {
                        let cl = self.closure(TagId(tag.id.0));
                        let mut i: usize = 0;
                        while i < self.works.len()
                            invariant
                                self.wf(),
                                0 <= i <= self@.works.len(),
                                wids_distinct(out@),
                                forall|x: u64| #[trigger]
                                    contains_wid(out@, x) ==> x < i,
                                forall|j: int|
                                    0 <= j < i ==> ((#[trigger] contains_wid(out@, j as u64))
                                        <==> exists|k: int|
                                        0 <= k < self@.work_tags.len() && (
                                        #[trigger] self@.work_tags[k]).work_id.0 == j as u64
                                            && contains_tid(cl@, self@.work_tags[k].tag.0)),
                                forall|x: u64| contains_tid(cl@, x) <==> reaches(
                                    self@.meta_tags,
                                    tag.id.0,
                                    x,
                                ),
                            decreases self@.works.len() - i,
                        {
                            let ghost out_before = out@;
                            let tagged = self.work_tagged_in(WorkId(i as u64), &cl);
                            if tagged {
                                out.push(WorkId(i as u64));
                                proof {
                                    lemma_push_member(out_before, out@, WorkId(i as u64));
                                }
                            }
                            proof {
                                assert forall|j: int|
                                    0 <= j < i + 1 implies ((#[trigger] contains_wid(
                                    out@,
                                    j as u64,
                                )) <==> exists|k: int|
                                    0 <= k < self@.work_tags.len() && (
                                    #[trigger] self@.work_tags[k]).work_id.0 == j as u64
                                        && contains_tid(cl@, self@.work_tags[k].tag.0)) by {
                                    if j < i {
                                        assert(j as u64 != i as u64);
                                        assert(contains_wid(out@, j as u64) == contains_wid(
                                            out_before,
                                            j as u64,
                                        ));
                                    } else {
                                        assert(!contains_wid(out_before, i as u64));
                                        assert(contains_wid(out@, i as u64) == tagged);
                                    }
                                }
                            }
                            i = i + 1;
                        }
                        proof {
                            assert forall|i: int|
                                0 <= i < self@.works.len() implies (contains_wid(out@, i as u64)
                                    <==> term_matches(self@, t@, #[trigger] self@.works[i])) by {
                                assert(self@.works[i].work_id == i as u64);
                                let kk = spec_find_tag(self@.tags, dt@.name, dt@.discriminator);
                                assert(kk == Some(tag@.id as int));
                                assert(self@.tags[tag@.id as int].id == tag@.id);
                            }
                        }
                        return out;
                    },
                }
            },
            QueryTerm::Title(_) | QueryTerm::Author(_) | QueryTerm::Caption(_)
                | QueryTerm::Url(_) => {
                let mut i: usize = 0;
                while i < self.works.len()
                    invariant
                        self.wf(),
                        !(t@ is Tag),
                        0 <= i <= self@.works.len(),
                        wids_distinct(out@),
                        forall|x: u64| #[trigger] contains_wid(out@, x) ==> x < i,
                        forall|j: int|
                            0 <= j < i ==> (contains_wid(out@, j as u64) <==> term_matches(
                                self@,
                                t@,
                                #[trigger] self@.works[j],
                            )),
                    decreases self@.works.len() - i,
                {
                    let ghost out_before = out@;
                    let m = self.scalar_term_matches(&self.works[i], t);
                    if m {
                        out.push(WorkId(i as u64));
                    }
                    proof {
                        lemma_push_keeps(out_before, out@, i as int);
                        assert(self@.works[i as int] == self.works@[i as int]@);
                        assert(m == term_matches(self@, t@, self@.works[i as int]));
                        assert forall|j: int|
                            0 <= j < i + 1 implies (contains_wid(out@, j as u64)
                                <==> term_matches(self@, t@, #[trigger] self@.works[j])) by {
                            if j < i {
                                assert((j as u64) < (i as u64));
                            }
                        }
                    }
                    i = i + 1;
                }
                return out;
            },
        }
        proof {
            if t@ is Tag {
                let dtv = t@->Tag_0;
                assert(spec_find_tag(self@.tags, dtv.name, dtv.discriminator) is None);
                assert(forall|i: int|
                    0 <= i < self@.works.len() ==> !term_matches(
                        self@,
                        t@,
                        #[trigger] self@.works[i],
                    ));
            }
        }
        out
    }
}

/// Pushing a fresh id keeps earlier membership unchanged, and membership
/// of the pushed id is membership at the last slot.
proof fn lemma_push_keeps(before: Seq<WorkId>, after: Seq<WorkId>, i: int)
    requires
        0 <= i <= u64::MAX,
        after == before || after == before.push(WorkId(i as u64)),
        forall|x: u64| #[trigger] contains_wid(before, x) ==> x < i,
    ensures
        forall|x: u64| x < i ==> (contains_wid(after, x) <==> contains_wid(before, x)),
        after == before.push(WorkId(i as u64)) ==> contains_wid(after, i as u64),
        after == before ==> !contains_wid(after, i as u64),
        forall|x: u64| #[trigger] contains_wid(after, x) ==> x < i + 1,
        wids_distinct(before) ==> wids_distinct(after),
{
    if after == before.push(WorkId(i as u64)) {
        assert(after[before.len() as int].0 == i as u64);
        assert forall|x: u64| x < i implies (contains_wid(after, x) <==> contains_wid(
            before,
            x,
        )) by {
            if contains_wid(after, x) {
                let k = choose|k: int| 0 <= k < after.len() && #[trigger] after[k].0 == x;
                if k < before.len() {
                    assert(before[k].0 == x);
                }
            }
            if contains_wid(before, x) {
                let k = choose|k: int| 0 <= k < before.len() && #[trigger] before[k].0 == x;
                assert(after[k].0 == x);
            }
        }
        assert forall|x: u64| #[trigger] contains_wid(after, x) implies x < i + 1 by {
            let k = choose|k: int| 0 <= k < after.len() && #[trigger] after[k].0 == x;
            if k < before.len() {
                assert(before[k].0 == x);
                assert(contains_wid(before, x));
            }
        }
        if wids_distinct(before) {
            assert forall|a: int, b: int| 0 <= a < b < after.len() implies after[a].0
                != after[b].0 by {
                if b == before.len() {
                    assert(before[a].0 == after[a].0);
                    assert(contains_wid(before, after[a].0));
                }
            }
        }
    }
}

impl Catalog {
    /// The ids of the works matching the query: the semantic heart of
    /// query execution. Conjunctions intersect their children's results,
    /// disjunctions unite them, and negation takes the relative complement
    /// against all works.
    pub fn search_ids(&self, q: &Query) -> (r: Vec<WorkId>)
        requires
            self.wf(),
        ensures
            wids_distinct(r@),
            forall|x: u64| #[trigger] contains_wid(r@, x) ==> x < self@.works.len(),
            forall|i: int|
                0 <= i < self@.works.len() ==> (contains_wid(r@, i as u64) <==> query_matches(
                    self@,
                    q@,
                    #[trigger] self@.works[i],
                )),
        decreases *q, 1int,
    {
        match q {
            Query::Term(t) => self.term_work_ids(t),
            Query::Not(b) => {
                let inner = self.search_ids(&*b);
                let r = self.complement_ids(&inner);
                proof {
                    assert forall|i: int|
                        0 <= i < self@.works.len() implies (contains_wid(r@, i as u64)
                            <==> query_matches(self@, q@, #[trigger] self@.works[i])) by {
                        assert((i as u64) < self@.works.len());
                    }
                }
                r
            },
            Query::And(ts) => self.fold_children(ts, true, Ghost(*q)),
            Query::Or(ts) => self.fold_children(ts, false, Ghost(*q)),
        }
    }

    /// Intersection (for `And`) or union (for `Or`) of the children's
    /// result sets.
    fn fold_children(&self, ts: &Vec<Query>, is_and: bool, parent: Ghost<Query>) -> (r: Vec<
        WorkId,
    >)
        requires
            self.wf(),
            decreases_to!(parent@ => *ts),
        ensures
            wids_distinct(r@),
            forall|x: u64| #[trigger] contains_wid(r@, x) ==> x < self@.works.len(),
            forall|i: int|
                0 <= i < self@.works.len() ==> (contains_wid(r@, i as u64) <==> (if is_and {
                    all_match(self@, query_list_view(ts@, 0), #[trigger] self@.works[i], 0)
                } else {
                    any_match(self@, query_list_view(ts@, 0), self@.works[i], 0)
                })),
        decreases parent@, 0int,
    {
        let ghost vs = query_list_view(ts@, 0);
        proof {
            lemma_query_views(ts@);
        }
        let mut acc: Vec<WorkId> = if is_and {
            self.all_work_ids()
        } else {
            Vec::new()
        };
        let mut j: usize = 0;
        while j < ts.len()
            invariant
                self.wf(),
                0 <= j <= ts@.len(),
                vs == query_list_view(ts@, 0),
                vs.len() == ts@.len(),
                forall|k: int| 0 <= k < ts@.len() ==> vs[k] == crate::search::query_view(
                    #[trigger] ts@[k],
                ),
                wids_distinct(acc@),
                forall|x: u64| #[trigger] contains_wid(acc@, x) ==> x < self@.works.len(),
                forall|i: int|
                    0 <= i < self@.works.len() ==> ((#[trigger] contains_wid(acc@, i as u64))
                        <==> (if is_and {
                        forall|k: int|
                            0 <= k < j ==> query_matches(self@, #[trigger] vs[k], self@.works[i])
                    } else {
                        exists|k: int|
                            0 <= k < j && query_matches(self@, #[trigger] vs[k], self@.works[i])
                    })),
                decreases_to!(parent@ => *ts),
            decreases ts@.len() - j,
        {
            proof {
                assert(decreases_to!(*ts => ts@[j as int]));
            }
            let child = self.search_ids(&ts[j]);
            let ghost acc_before = acc@;
            if is_and {
                acc = intersect_ids(acc, &child);
            } else {
                acc = union_ids(acc, &child);
            }
            proof {
                assert forall|i: int|
                    0 <= i < self@.works.len() implies ((#[trigger] contains_wid(acc@, i as u64))
                        <==> (if is_and {
                        forall|k: int|
                            0 <= k < j + 1 ==> query_matches(
                                self@,
                                #[trigger] vs[k],
                                self@.works[i],
                            )
                    } else {
                        exists|k: int|
                            0 <= k < j + 1 && query_matches(
                                self@,
                                #[trigger] vs[k],
                                self@.works[i],
                            )
                    })) by {
                    assert(contains_wid(child@, i as u64) <==> query_matches(
                        self@,
                        vs[j as int],
                        self@.works[i],
                    ));
                    if is_and {
                        if contains_wid(acc@, i as u64) {
                            assert forall|k: int|
                                0 <= k < j + 1 implies query_matches(
                                self@,
                                #[trigger] vs[k],
                                self@.works[i],
                            ) by {
                                assert(contains_wid(acc_before, i as u64));
                            }
                        } else {
                            if contains_wid(acc_before, i as u64) && contains_wid(
                                child@,
                                i as u64,
                            ) {
                                assert(false);
                            }
                        }
                    }
                }
            }
            j = j + 1;
        }
        proof {
            assert forall|i: int|
                0 <= i < self@.works.len() implies ((#[trigger] contains_wid(acc@, i as u64))
                    <==> (if is_and {
                    all_match(self@, vs, self@.works[i], 0)
                } else {
                    any_match(self@, vs, self@.works[i], 0)
                })) by {
                lemma_fold_match(self@, vs, self@.works[i], 0);
            }
        }
        acc
    }

    /// The works matching the query, in id order of discovery. The result
    /// holds exactly the catalog rows whose works satisfy the query.
    pub fn search(&self, query: &Query) -> (r: Vec<Work>)
        requires
            self.wf(),
        ensures
            forall|k: int, l: int|
                0 <= k < l < r@.len() ==> r@[k]@.work_id != r@[l]@.work_id,
            forall|k: int|
                0 <= k < r@.len() ==> (#[trigger] r@[k])@.work_id < self@.works.len() && r@[k]@
                    == self@.works[r@[k]@.work_id as int] && query_matches(
                    self@,
                    query@,
                    r@[k]@,
                ),
            forall|i: int|
                0 <= i < self@.works.len() && query_matches(
                    self@,
                    query@,
                    #[trigger] self@.works[i],
                ) ==> exists|k: int| 0 <= k < r@.len() && (#[trigger] r@[k])@.work_id == i as u64,
    {
        let ids = self.search_ids(query);
        let nworks = self.works.len();
        proof {
            assert(self@.works.len() == nworks);
        }
        let mut out: Vec<Work> = Vec::new();
        let mut k: usize = 0;
        while k < ids.len()
            invariant
                self.wf(),
                0 <= k <= ids@.len(),
                nworks == self@.works.len(),
                wids_distinct(ids@),
                forall|x: u64| #[trigger] contains_wid(ids@, x) ==> x < self@.works.len(),
                forall|i: int|
                    0 <= i < self@.works.len() ==> (contains_wid(ids@, i as u64)
                        <==> query_matches(self@, query@, #[trigger] self@.works[i])),
                out@.len() == k,
                forall|l: int|
                    0 <= l < k ==> (#[trigger] out@[l])@ == self@.works[ids@[l].0 as int]
                        && out@[l]@.work_id == ids@[l].0,
            decreases ids@.len() - k,
        {
            proof {
                assert(contains_wid(ids@, ids@[k as int].0));
            }
            let id = ids[k];
            let w = self.works[id.0 as usize].clone_work();
            proof {
                assert(self@.works[id.0 as int] == self.works@[id.0 as int]@);
                assert(self@.works[id.0 as int].work_id == id.0);
            }
            out.push(w);
            proof {
                assert(out@[k as int]@ == self@.works[ids@[k as int].0 as int]);
                assert(out@[k as int]@.work_id == ids@[k as int].0);
            }
            k = k + 1;
        }
        proof {
            assert forall|k2: int|
                0 <= k2 < out@.len() implies (#[trigger] out@[k2])@.work_id < self@.works.len()
                    && out@[k2]@ == self@.works[out@[k2]@.work_id as int] && query_matches(
                    self@,
                    query@,
                    out@[k2]@,
                ) by {
                assert(contains_wid(ids@, ids@[k2].0));
            }
            assert forall|i: int|
                0 <= i < self@.works.len() && query_matches(
                    self@,
                    query@,
                    #[trigger] self@.works[i],
                ) implies exists|k2: int|
                0 <= k2 < out@.len() && (#[trigger] out@[k2])@.work_id == i as u64 by {
                assert(contains_wid(ids@, i as u64));
                let k2 = choose|k2: int| 0 <= k2 < ids@.len() && #[trigger] ids@[k2].0 == i as u64;
                assert(out@[k2]@.work_id == i as u64);
            }
        }
        out
    }

    /// Parse the query text and run it: the read path from free text to
    /// matching works.
    pub fn search_by_str(&self, text: &str) -> (r: Result<Vec<Work>, crate::parse::ParseError>)
        requires
            self.wf(),
        ensures
            match crate::search::parse::spec_query(crate::search::parse::lower_of(text@), 0) {
                None => r matches Err(e) && e@ == crate::parse::ParseErrorV::Parse(
                    crate::search::parse::lower_of(text@),
                ),
                Some((q, p)) => if p == crate::search::parse::lower_of(text@).len() {
                    r matches Ok(works) && {
                        let nq = crate::search::spec_normalize(q);
                        &&& forall|k: int, l: int|
                            0 <= k < l < works@.len() ==> works@[k]@.work_id
                                != works@[l]@.work_id
                        &&& forall|k: int|
                            0 <= k < works@.len() ==> (#[trigger] works@[k])@.work_id
                                < self@.works.len() && works@[k]@
                                == self@.works[works@[k]@.work_id as int] && query_matches(
                                self@,
                                nq,
                                works@[k]@,
                            )
                        &&& forall|i: int|
                            0 <= i < self@.works.len() && query_matches(
                                self@,
                                nq,
                                #[trigger] self@.works[i],
                            ) ==> exists|k: int|
                                0 <= k < works@.len() && (#[trigger] works@[k])@.work_id
                                    == i as u64
                    }
                } else {
                    r matches Err(e) && e@ == crate::parse::ParseErrorV::ParserDidNotFinish(
                        crate::search::parse::lower_of(text@).skip(p),
                    )
                },
            },
    {
        match Query::parse(text) {
            Err(e) => Err(e),
            Ok(q) => Ok(self.search(&q)),
        }
    }

    /// Every work of the catalog.
    pub fn get_all(&self) -> (r: Vec<Work>)
        requires
            self.wf(),
        ensures
            r@.len() == self@.works.len(),
            forall|k: int| 0 <= k < r@.len() ==> (#[trigger] r@[k])@ == self@.works[k],
    {
        let mut out: Vec<Work> = Vec::new();
        let mut k: usize = 0;
        while k < self.works.len()
            invariant
                0 <= k <= self@.works.len(),
                out@.len() == k,
                forall|l: int| 0 <= l < k ==> (#[trigger] out@[l])@ == self@.works[l],
            decreases self@.works.len() - k,
        {
            let w = self.works[k].clone_work();
            proof {
                assert(self@.works[k as int] == self.works@[k as int]@);
            }
            out.push(w);
            k = k + 1;
        }
        out
    }
}

// ---------------------------------------------------------------------------
// Depth-ranked traversal for diagnostic display.
// ---------------------------------------------------------------------------

/// A tag reached by a traversal, with the rank (path length) at which it
/// was first reached; the rank is used only to group rows for display.
#[derive(Debug, Clone, Copy, PartialEq, Eq, Structural)]
pub struct RankedTag {
    pub tag: TagId,
    pub depth: u64,
}

/// One traversal step: along an edge for the ancestor direction, against
/// it for the descendant direction.
pub open spec fn step_edge(mts: Seq<MetaTag>, a: u64, b: u64, forward: bool) -> bool {
    if forward {
        has_edge(mts, a, b)
    } else {
        has_edge(mts, b, a)
    }
}

/// Everything that reaches (or is reached from) a member of a step-closed
/// set is a member.
proof fn lemma_closed_dir(
    mts: Seq<MetaTag>,
    s: Set<u64>,
    forward: bool,
    start: u64,
    x: u64,
    n: nat,
)
    requires
        forall|a: u64, b: u64| s.contains(a) && #[trigger] step_edge(mts, a, b, forward)
            ==> s.contains(b),
        s.contains(start),
        if forward {
            reaches_in(mts, start, x, n)
        } else {
            reaches_in(mts, x, start, n)
        },
    ensures
        s.contains(x),
    decreases n,
{
    if forward {
        if start != x {
            let m = choose|m: u64| #[trigger] has_edge(mts, start, m) && reaches_in(
                mts,
                m,
                x,
                (n - 1) as nat,
            );
            assert(step_edge(mts, start, m, forward));
            lemma_closed_dir(mts, s, forward, m, x, (n - 1) as nat);
        }
    } else {
        if start != x {
            let m = choose|m: u64| #[trigger] has_edge(mts, x, m) && reaches_in(
                mts,
                m,
                start,
                (n - 1) as nat,
            );
            lemma_closed_dir(mts, s, forward, start, m, (n - 1) as nat);
            assert(step_edge(mts, m, x, forward));
        }
    }
}

/// Whether a ranked list holds the id `x`.
pub open spec fn contains_ranked(ts: Seq<RankedTag>, x: u64) -> bool {
    exists|k: int| 0 <= k < ts.len() && #[trigger] ts[k].tag.0 == x
}

impl Catalog {
    /// The tags reachable from `start` along implication edges, each with
    /// the rank at which the traversal first reached it: the broader tags a
    /// search for `start` also covers, for diagnostic display.
    pub fn ancestors(&self, start: TagId) -> (r: Vec<RankedTag>)
        requires
            self.wf(),
            start.0 < self@.tags.len(),
            self@.tags.len() < u64::MAX,
        ensures
            forall|i: int, j: int| 0 <= i < j < r@.len() ==> r@[i].tag.0 != r@[j].tag.0,
            forall|x: u64| contains_ranked(r@, x) <==> reaches(self@.meta_tags, start.0, x),
            r@.len() > 0 && r@[0] == (RankedTag { tag: start, depth: 0 }),
    {
        self.ranked_reach(start, true)
    }

    /// The tags from which `start` is reachable along implication edges,
    /// each with the rank at which the traversal first reached it: the
    /// narrower tags whose searches also cover `start`.
    pub fn descendants(&self, start: TagId) -> (r: Vec<RankedTag>)
        requires
            self.wf(),
            start.0 < self@.tags.len(),
            self@.tags.len() < u64::MAX,
        ensures
            forall|i: int, j: int| 0 <= i < j < r@.len() ==> r@[i].tag.0 != r@[j].tag.0,
            forall|x: u64| contains_ranked(r@, x) <==> reaches(self@.meta_tags, x, start.0),
            r@.len() > 0 && r@[0] == (RankedTag { tag: start, depth: 0 }),
    {
        self.ranked_reach(start, false)
    }

    /// The worklist traversal shared by both directions.
    #[verifier::loop_isolation(false)]
    fn ranked_reach(&self, start: TagId, forward: bool) -> (r: Vec<RankedTag>)
        requires
            self.wf(),
            start.0 < self@.tags.len(),
            self@.tags.len() < u64::MAX,
        ensures
            forall|i: int, j: int| 0 <= i < j < r@.len() ==> r@[i].tag.0 != r@[j].tag.0,
            forall|x: u64|
                contains_ranked(r@, x) <==> if forward {
                    reaches(self@.meta_tags, start.0, x)
                } else {
                    reaches(self@.meta_tags, x, start.0)
                },
            r@.len() > 0 && r@[0] == (RankedTag { tag: start, depth: 0 }),
    {
        let ghost mts = self@.meta_tags;
        let ghost ntags = self@.tags.len() as int;
        let mut out: Vec<RankedTag> = Vec::new();
        let mut queue: Vec<RankedTag> = Vec::new();
        out.push(RankedTag { tag: start, depth: 0 });
        queue.push(RankedTag { tag: start, depth: 0 });
        proof {
            assert(reaches_in(mts, start.0, start.0, 0));
            assert(out@[0].tag.0 == start.0);
            assert(queue@[0].tag.0 == start.0);
        }
        while queue.len() > 0
            invariant
                out@.len() > 0 && out@[0] == (RankedTag { tag: start, depth: 0 }),
                forall|i: int, j: int| 0 <= i < j < out@.len() ==> out@[i].tag.0 != out@[j].tag.0,
                forall|i: int, j: int|
                    0 <= i < j < queue@.len() ==> queue@[i].tag.0 != queue@[j].tag.0,
                forall|k: int| 0 <= k < out@.len() ==> (#[trigger] out@[k].tag.0) < ntags,
                forall|k: int| 0 <= k < out@.len() ==> (#[trigger] out@[k].depth) < out@.len(),
                contains_ranked(out@, start.0),
                forall|k: int|
                    0 <= k < out@.len() ==> (if forward {
                        reaches(mts, start.0, #[trigger] out@[k].tag.0)
                    } else {
                        reaches(mts, out@[k].tag.0, start.0)
                    }),
                forall|k: int| 0 <= k < queue@.len() ==> contains_ranked(
                    out@,
                    #[trigger] queue@[k].tag.0,
                ),
                forall|k: int| 0 <= k < queue@.len() ==> (#[trigger] queue@[k].depth)
                    < out@.len(),
                forall|a: u64, b: u64|
                    contains_ranked(out@, a) && !contains_ranked(queue@, a)
                        && #[trigger] step_edge(mts, a, b, forward) ==> contains_ranked(out@, b),
            decreases ntags - out@.len(), queue@.len(),
        {
            proof {
                lemma_distinct_ranked_bounded(out@, ntags);
            }
            let ghost out_at_pop = out@;
            let ghost q_old = queue@;
            let cur = queue.pop().unwrap();
            proof {
                assert(cur == q_old.last());
                assert(queue@ =~= q_old.drop_last());
                assert(!contains_ranked(queue@, cur.tag.0)) by {
                    if contains_ranked(queue@, cur.tag.0) {
                        let k = choose|k: int|
                            0 <= k < queue@.len() && #[trigger] queue@[k].tag.0 == cur.tag.0;
                        assert(q_old[k].tag.0 == q_old[q_old.len() - 1].tag.0);
                        assert(false);
                    }
                }
                assert(contains_ranked(out@, cur.tag.0)) by {
                    assert(contains_ranked(out@, q_old[q_old.len() - 1].tag.0));
                }
                assert forall|a: u64, b: u64|
                    contains_ranked(out@, a) && !contains_ranked(queue@, a) && a != cur.tag.0
                        && #[trigger] step_edge(mts, a, b, forward) implies contains_ranked(
                    out@,
                    b,
                ) by {
                    assert(!contains_ranked(q_old, a)) by {
                        if contains_ranked(q_old, a) {
                            let k = choose|k: int|
                                0 <= k < q_old.len() && #[trigger] q_old[k].tag.0 == a;
                            if k < q_old.len() - 1 {
                                assert(queue@[k].tag.0 == a);
                            }
                            assert(false);
                        }
                    }
                }
            }
            let mut e: usize = 0;
            while e < self.meta_tags.len()
                invariant
                    0 <= e <= self@.meta_tags.len(),
                    out@.len() > 0 && out@[0] == (RankedTag { tag: start, depth: 0 }),
                    forall|i: int, j: int|
                        0 <= i < j < out@.len() ==> out@[i].tag.0 != out@[j].tag.0,
                    forall|i: int, j: int|
                        0 <= i < j < queue@.len() ==> queue@[i].tag.0 != queue@[j].tag.0,
                    forall|k: int| 0 <= k < out@.len() ==> (#[trigger] out@[k].tag.0) < ntags,
                    forall|k: int| 0 <= k < out@.len() ==> (#[trigger] out@[k].depth)
                        < out@.len(),
                    contains_ranked(out@, start.0),
                    contains_ranked(out@, cur.tag.0),
                    !contains_ranked(queue@, cur.tag.0),
                    cur.depth < out@.len(),
                    forall|k: int|
                        0 <= k < out@.len() ==> (if forward {
                            reaches(mts, start.0, #[trigger] out@[k].tag.0)
                        } else {
                            reaches(mts, out@[k].tag.0, start.0)
                        }),
                    forall|k: int| 0 <= k < queue@.len() ==> contains_ranked(
                        out@,
                        #[trigger] queue@[k].tag.0,
                    ),
                    forall|k: int| 0 <= k < queue@.len() ==> (#[trigger] queue@[k].depth)
                        < out@.len(),
                    forall|a: u64, b: u64|
                        contains_ranked(out@, a) && !contains_ranked(queue@, a) && a != cur.tag.0
                            && #[trigger] step_edge(mts, a, b, forward) ==> contains_ranked(
                            out@,
                            b,
                        ),
                    forall|j: int|
                        0 <= j < e ==> ((if forward {
                            (#[trigger] mts[j]).tag.0 == cur.tag.0
                        } else {
                            (#[trigger] mts[j]).target.0 == cur.tag.0
                        }) ==> contains_ranked(out@, if forward {
                            mts[j].target.0
                        } else {
                            mts[j].tag.0
                        })),
                    out@.len() >= out_at_pop.len(),
                    out@.len() - queue@.len() == out_at_pop.len() - (q_old.len() - 1),
                decreases self@.meta_tags.len() - e,
            {
                let hit = if forward {
                    self.meta_tags[e].tag.0 == cur.tag.0
                } else {
                    self.meta_tags[e].target.0 == cur.tag.0
                };
                if hit {
                    let t = if forward {
                        self.meta_tags[e].target
                    } else {
                        self.meta_tags[e].tag
                    };
                    if !contains_ranked_exec(&out, t) {
                        let ghost out_before = out@;
                        let ghost q_before = queue@;
                        let entry = RankedTag { tag: t, depth: cur.depth + 1 };
                        out.push(entry);
                        queue.push(entry);
                        proof {
                            assert(out@[out_before.len() as int] == entry);
                            assert(queue@[q_before.len() as int] == entry);
                            assert(out@[out_before.len() as int].tag.0 == t.0);
                            assert(queue@[q_before.len() as int].tag.0 == t.0);
                            assert(contains_ranked(out@, t.0));
                            assert(contains_ranked(queue@, t.0));
                            assert(forall|k: int|
                                0 <= k < out_before.len() ==> #[trigger] out@[k]
                                    == out_before[k]);
                            assert(forall|k: int|
                                0 <= k < q_before.len() ==> #[trigger] queue@[k] == q_before[k]);
                            assert(mts[e as int] == self@.meta_tags[e as int]);
                            if forward {
                                assert(has_edge(mts, cur.tag.0, t.0)) by {
                                    assert(mts[e as int] == (MetaTag {
                                        tag: TagId(cur.tag.0),
                                        target: TagId(t.0),
                                    }));
                                }
                                assert(reaches(mts, start.0, cur.tag.0));
                                let n = choose|n: nat| reaches_in(mts, start.0, cur.tag.0, n);
                                lemma_reaches_in_extend(mts, start.0, cur.tag.0, t.0, n);
                            } else {
                                assert(has_edge(mts, t.0, cur.tag.0)) by {
                                    assert(mts[e as int] == (MetaTag {
                                        tag: TagId(t.0),
                                        target: TagId(cur.tag.0),
                                    }));
                                }
                                assert(reaches(mts, cur.tag.0, start.0));
                                let n = choose|n: nat| reaches_in(mts, cur.tag.0, start.0, n);
                                assert(reaches_in(mts, t.0, start.0, n + 1));
                            }
                            assert(t.0 < ntags);
                            assert forall|a: u64, b: u64|
                                contains_ranked(out@, a) && !contains_ranked(queue@, a) && a
                                    != cur.tag.0 && #[trigger] step_edge(mts, a, b, forward)
                                implies contains_ranked(out@, b) by {
                                if a != t.0 {
                                    assert(contains_ranked(out_before, a)) by {
                                        let k = choose|k: int|
                                            0 <= k < out@.len() && #[trigger] out@[k].tag.0 == a;
                                        assert(k < out_before.len());
                                        assert(out_before[k].tag.0 == a);
                                    }
                                    assert(!contains_ranked(q_before, a)) by {
                                        if contains_ranked(q_before, a) {
                                            let k = choose|k: int|
                                                0 <= k < q_before.len()
                                                    && #[trigger] q_before[k].tag.0 == a;
                                            assert(queue@[k].tag.0 == a);
                                            assert(false);
                                        }
                                    }
                                    assert(contains_ranked(out_before, b));
                                    let k = choose|k: int|
                                        0 <= k < out_before.len()
                                            && #[trigger] out_before[k].tag.0 == b;
                                    assert(out@[k].tag.0 == b);
                                }
                            }
                            assert forall|j: int|
                                0 <= j < e + 1 implies ((if forward {
                                (#[trigger] mts[j]).tag.0 == cur.tag.0
                            } else {
                                (#[trigger] mts[j]).target.0 == cur.tag.0
                            }) ==> contains_ranked(out@, if forward {
                                mts[j].target.0
                            } else {
                                mts[j].tag.0
                            })) by {
                                if j < e {
                                    let x = if forward {
                                        mts[j].target.0
                                    } else {
                                        mts[j].tag.0
                                    };
                                    if (if forward {
                                        mts[j].tag.0 == cur.tag.0
                                    } else {
                                        mts[j].target.0 == cur.tag.0
                                    }) {
                                        assert(contains_ranked(out_before, x));
                                        let k = choose|k: int|
                                            0 <= k < out_before.len()
                                                && #[trigger] out_before[k].tag.0 == x;
                                        assert(out@[k].tag.0 == x);
                                    }
                                }
                            }
                            assert forall|k: int|
                                0 <= k < queue@.len() implies contains_ranked(
                                out@,
                                #[trigger] queue@[k].tag.0,
                            ) by {
                                if k < q_before.len() {
                                    assert(contains_ranked(out_before, q_before[k].tag.0));
                                    let w = choose|w: int|
                                        0 <= w < out_before.len()
                                            && #[trigger] out_before[w].tag.0
                                            == q_before[k].tag.0;
                                    assert(out@[w].tag.0 == queue@[k].tag.0);
                                }
                            }
                            assert(contains_ranked(out@, start.0)) by {
                                let k = choose|k: int|
                                    0 <= k < out_before.len() && #[trigger] out_before[k].tag.0
                                        == start.0;
                                assert(out@[k].tag.0 == start.0);
                            }
                            assert(contains_ranked(out@, cur.tag.0)) by {
                                let k = choose|k: int|
                                    0 <= k < out_before.len() && #[trigger] out_before[k].tag.0
                                        == cur.tag.0;
                                assert(out@[k].tag.0 == cur.tag.0);
                            }
                            assert(!contains_ranked(queue@, cur.tag.0)) by {
                                if contains_ranked(queue@, cur.tag.0) {
                                    let k = choose|k: int|
                                        0 <= k < queue@.len() && #[trigger] queue@[k].tag.0
                                            == cur.tag.0;
                                    if k < q_before.len() {
                                        assert(q_before[k].tag.0 == cur.tag.0);
                                    }
                                    assert(false);
                                }
                            }
                        }
                    } else {
                        proof {
                            if forward {
                                assert(mts[e as int].target.0 == t.0);
                            } else {
                                assert(mts[e as int].tag.0 == t.0);
                            }
                        }
                    }
                }
                e = e + 1;
            }
            proof {
                assert forall|a: u64, b: u64|
                    contains_ranked(out@, a) && !contains_ranked(queue@, a)
                        && #[trigger] step_edge(mts, a, b, forward) implies contains_ranked(
                    out@,
                    b,
                ) by {
                    if a == cur.tag.0 {
                        if forward {
                            let k = choose|k: int|
                                0 <= k < mts.len() && #[trigger] mts[k] == (MetaTag {
                                    tag: TagId(a),
                                    target: TagId(b),
                                });
                            assert(mts[k].tag.0 == cur.tag.0);
                            assert(contains_ranked(out@, mts[k].target.0));
                        } else {
                            let k = choose|k: int|
                                0 <= k < mts.len() && #[trigger] mts[k] == (MetaTag {
                                    tag: TagId(b),
                                    target: TagId(a),
                                });
                            assert(mts[k].target.0 == cur.tag.0);
                            assert(contains_ranked(out@, mts[k].tag.0));
                        }
                    }
                }
                lemma_distinct_ranked_bounded(out@, ntags);
                if out@.len() == out_at_pop.len() {
                    assert(queue@.len() < q_old.len());
                }
            }
        }
        proof {
            let s = Set::new(|x: u64| contains_ranked(out@, x));
            assert forall|x: u64|
                (if forward {
                    reaches(mts, start.0, x)
                } else {
                    reaches(mts, x, start.0)
                }) implies contains_ranked(out@, x) by {
                assert forall|a: u64, b: u64|
                    s.contains(a) && #[trigger] step_edge(mts, a, b, forward) implies s.contains(
                    b,
                ) by {
                    assert(contains_ranked(out@, a));
                    assert(!contains_ranked(queue@, a));
                }
                if forward {
                    let n = choose|n: nat| reaches_in(mts, start.0, x, n);
                    lemma_closed_dir(mts, s, forward, start.0, x, n);
                } else {
                    let n = choose|n: nat| reaches_in(mts, x, start.0, n);
                    lemma_closed_dir(mts, s, forward, start.0, x, n);
                }
            }
        }
        out
    }
}

/// A ranked list with distinct ids below `n` has at most `n` entries.
proof fn lemma_distinct_ranked_bounded(ts: Seq<RankedTag>, n: int)
    requires
        0 <= n,
        forall|i: int, j: int| 0 <= i < j < ts.len() ==> ts[i].tag.0 != ts[j].tag.0,
        forall|k: int| 0 <= k < ts.len() ==> (#[trigger] ts[k].tag.0) < n,
    ensures
        ts.len() <= n,
{
    let ints = ts.map_values(|t: RankedTag| t.tag.0 as int);
    assert(ints.no_duplicates()) by {
        assert forall|i: int, j: int|
            0 <= i < ints.len() && 0 <= j < ints.len() && i != j implies ints[i] != ints[j] by {
            if i < j {
                assert(ts[i].tag.0 != ts[j].tag.0);
            } else {
                assert(ts[j].tag.0 != ts[i].tag.0);
            }
        }
    }
    ints.unique_seq_to_set();
    assert(ints.to_set().subset_of(vstd::set_lib::set_int_range(0, n))) by {
        assert forall|x: int| ints.to_set().contains(x) implies vstd::set_lib::set_int_range(
            0,
            n,
        ).contains(x) by {
            assert(ints.contains(x));
            let k = choose|k: int| 0 <= k < ints.len() && ints[k] == x;
            assert(ts[k].tag.0 < n);
        }
    }
    vstd::set_lib::lemma_int_range(0, n);
    vstd::set_lib::lemma_len_subset(ints.to_set(), vstd::set_lib::set_int_range(0, n));
}

/// Executable membership test on a ranked list.
fn contains_ranked_exec(ts: &Vec<RankedTag>, x: TagId) -> (r: bool)
    ensures
        r == contains_ranked(ts@, x.0),
{
    let mut i: usize = 0;
    while i < ts.len()
        invariant
            0 <= i <= ts@.len(),
            forall|k: int| 0 <= k < i ==> (#[trigger] ts@[k].tag.0) != x.0,
        decreases ts@.len() - i,
    {
        if ts[i].tag.0 == x.0 {
            return true;
        }
        i = i + 1;
    }
    false
}

} // verus!
