//! Records: the raw material a work is created from, with its content hash.

use vstd::prelude::*;

use crate::catalog::{spec_find_tag, tag_key_is, Catalog, CatalogV};
use crate::models::{TagId, Work, WorkId, WorkTag};
use crate::tag::{dtag_list_view, wt_in, DiscriminatedTag, DTagV};

verus! {

/// What crc32fast::hash returns for the given bytes, reinterpreted as a
/// signed 32-bit value for storage and display.
pub uninterp spec fn crc32_of(data: Seq<u8>) -> i32;

/// Relies on crc32fast::hash: the CRC32 checksum depends on the bytes
/// alone; bytemuck::cast reinterprets its bits as a signed value.
#[verifier::external_body]
fn content_hash(data: &Vec<u8>) -> (r: i32)
    ensures
        r == crc32_of(data@),
{
    bytemuck::cast(crc32fast::hash(data.as_slice()))
}

/// Whether some tag row carries the reference's key and is attached to the
/// work by a work-tag edge.
pub open spec fn tag_ref_attached(c: CatalogV, dt: DTagV, work: u64) -> bool {
    exists|tid: int|
        0 <= tid < c.tags.len() && #[trigger] tag_key_is(c.tags, tid, dt.name, dt.discriminator)
            && wt_in(c.work_tags, WorkTag { tag: TagId(tid as u64), work_id: WorkId(work) })
}

/// The details a record carries besides its bytes.
#[derive(Debug, Clone)]
pub struct RecordDetails {
    pub title: Option<String>,
    pub url: Option<String>,
    pub author: Option<String>,
    pub author_url: Option<String>,
    pub caption: Option<String>,
    pub tags: Vec<DiscriminatedTag>,
}

impl RecordDetails {
    /// Empty details.
    pub fn new() -> (r: Self)
        ensures
            r.title is None,
            r.url is None,
            r.author is None,
            r.author_url is None,
            r.caption is None,
            r.tags@.len() == 0,
    {
        RecordDetails {
            title: None,
            url: None,
            author: None,
            author_url: None,
            caption: None,
            tags: Vec::new(),
        }
    }

    /// Overlay `other` on these details: present fields win, tags
    /// accumulate.
    pub fn update(&mut self, other: RecordDetails)
        ensures
            final(self).title == if other.title is Some {
                other.title
            } else {
                old(self).title
            },
            final(self).url == if other.url is Some {
                other.url
            } else {
                old(self).url
            },
            final(self).author == if other.author is Some {
                other.author
            } else {
                old(self).author
            },
            final(self).author_url == if other.author_url is Some {
                other.author_url
            } else {
                old(self).author_url
            },
            final(self).caption == if other.caption is Some {
                other.caption
            } else {
                old(self).caption
            },
            final(self).tags@ == old(self).tags@ + other.tags@,
    {
        let RecordDetails { title, url, author, author_url, caption, tags } = other;
        if let Some(title) = title {
            self.title = Some(title);
        }
        if let Some(url) = url {
            self.url = Some(url);
        }
        if let Some(author) = author {
            self.author = Some(author);
        }
        if let Some(author_url) = author_url {
            self.author_url = Some(author_url);
        }
        if let Some(caption) = caption {
            self.caption = Some(caption);
        }
        let mut tags = tags;
        self.tags.append(&mut tags);
    }
}

/// A record: a storage path, the content's size and checksum, and details.
#[derive(Debug)]
pub struct Record {
    pub path: String,
    pub size: usize,
    pub hash: i32,
    pub details: RecordDetails,
}

impl Record {
    /// Build a record from a file's bytes: the size is the byte count, the
    /// hash the content's CRC32 checksum.
    pub fn from_bytes(path: String, data: &Vec<u8>, details: RecordDetails) -> (r: Record)
        ensures
            r.path == path,
            r.size == data@.len(),
            r.hash == crc32_of(data@),
            r.details == details,
    {
        let size = data.len();
        let hash = content_hash(data);
        Record { path, size, hash, details }
    }
}

impl Catalog {
    /// Create a work from a record: the work row carries the record's
    /// scalar details, and each of the record's tag references is created
    /// if missing and attached to the new work.
    pub fn create_from_record(&mut self, record: &Record) -> (r: WorkId)
        requires
            old(self).wf(),
            old(self)@.works.len() < u64::MAX,
            old(self)@.tags.len() + record.details.tags@.len() <= u64::MAX,
        ensures
            final(self).wf(),
            final(self)@.meta_tags == old(self)@.meta_tags,
            final(self)@.authors == old(self)@.authors,
            final(self)@.author_names == old(self)@.author_names,
            final(self)@.works.len() == old(self)@.works.len() + 1,
            r.0 == old(self)@.works.len(),
            final(self)@.works.last().path == record.path@,
            final(self)@.works.last().size == record.size,
            final(self)@.works.last().hash == record.hash,
            final(self)@.works.last().title == crate::models::opt_view(record.details.title),
            final(self)@.works.last().caption == crate::models::opt_view(record.details.caption),
            final(self)@.works.last().url == crate::models::opt_view(record.details.url),
            old(self)@.tags.is_prefix_of(final(self)@.tags),
            old(self)@.work_tags.is_prefix_of(final(self)@.work_tags),
            forall|j: int|
                0 <= j < record.details.tags@.len() ==> spec_find_tag(
                    final(self)@.tags,
                    (#[trigger] dtag_list_view(record.details.tags@)[j]).name,
                    dtag_list_view(record.details.tags@)[j].discriminator,
                ) is Some,
            forall|j: int|
                0 <= j < record.details.tags@.len() ==> tag_ref_attached(
                    final(self)@,
                    #[trigger] dtag_list_view(record.details.tags@)[j],
                    r.0,
                ),
    {
        let ghost o = self@;
        let work = Work {
            path: record.path.clone(),
            work_id: WorkId(0),
            size: record.size as u64,
            title: match &record.details.title {
                Some(t) => Some(t.clone()),
                None => None,
            },
            author_id: None,
            caption: match &record.details.caption {
                Some(t) => Some(t.clone()),
                None => None,
            },
            url: match &record.details.url {
                Some(t) => Some(t.clone()),
                None => None,
            },
            hash: record.hash,
        };
        let id = self.add_work(work);
        let ghost c1 = self@;
        let ghost tagsv = dtag_list_view(record.details.tags@);
        let mut j: usize = 0;
        while j < record.details.tags.len()
            invariant
                self.wf(),
                0 <= j <= record.details.tags@.len(),
                tagsv == dtag_list_view(record.details.tags@),
                tagsv.len() == record.details.tags@.len(),
                c1.tags == o.tags,
                c1.work_tags == o.work_tags,
                self@.works == c1.works,
                self@.meta_tags == o.meta_tags,
                self@.authors == o.authors,
                self@.author_names == o.author_names,
                id.0 < self@.works.len(),
                o.tags.len() + tagsv.len() <= u64::MAX,
                self@.tags.len() <= o.tags.len() + j,
                o.tags.is_prefix_of(self@.tags),
                o.work_tags.is_prefix_of(self@.work_tags),
                forall|jj: int|
                    0 <= jj < j ==> spec_find_tag(
                        self@.tags,
                        (#[trigger] tagsv[jj]).name,
                        tagsv[jj].discriminator,
                    ) is Some,
                forall|jj: int|
                    0 <= jj < j ==> tag_ref_attached(self@, #[trigger] tagsv[jj], id.0),
            decreases record.details.tags@.len() - j,
        {
            let ghost tags_before = self@.tags;
            let ghost wt_before = self@.work_tags;
            let dt = &record.details.tags[j];
            let disc: Option<&str> = match &dt.discriminator {
                Some(d) => Some(d.as_str()),
                None => None,
            };
            proof {
                assert(tagsv[j as int] == record.details.tags@[j as int]@);
                assert(crate::catalog::opt_str_view(disc) == tagsv[j as int].discriminator);
            }
            let t = self.get_discriminated_or_create(dt.name.as_str(), disc);
            proof {
                assert(o.tags.is_prefix_of(self@.tags)) by {
                    assert(o.tags =~= self@.tags.subrange(0, o.tags.len() as int));
                }
                assert(spec_find_tag(
                    self@.tags,
                    tagsv[j as int].name,
                    tagsv[j as int].discriminator,
                ) is Some) by {
                    assert(crate::catalog::tag_key_is(
                        self@.tags,
                        t@.id as int,
                        tagsv[j as int].name,
                        tagsv[j as int].discriminator,
                    ));
                }
            }
            let ghost wt_mid = self@.work_tags;
            let added = self.tag_work(id, crate::models::TagId(t.id.0));
            proof {
                assert(o.work_tags.is_prefix_of(self@.work_tags)) by {
                    assert(o.work_tags =~= self@.work_tags.subrange(
                        0,
                        o.work_tags.len() as int,
                    ));
                }
                assert forall|jj: int|
                    0 <= jj < j + 1 implies spec_find_tag(
                    self@.tags,
                    (#[trigger] tagsv[jj]).name,
                    tagsv[jj].discriminator,
                ) is Some by {
                    if jj < j {
                        crate::tag::lemma_find_tag_grows(
                            tags_before,
                            self@.tags,
                            tagsv[jj].name,
                            tagsv[jj].discriminator,
                        );
                    }
                }
                // The fresh edge, and the edges of the earlier references,
                // all stand in the grown table.
                let e = WorkTag { tag: TagId(t.id.0), work_id: id };
                assert(wt_in(self@.work_tags, e)) by {
                    if added {
                        assert(self@.work_tags.last() == e);
                    } else {
                        let k = choose|k: int|
                            0 <= k < wt_mid.len() && #[trigger] wt_mid[k] == e;
                        assert(self@.work_tags[k] == e);
                    }
                }
                assert forall|jj: int|
                    0 <= jj < j + 1 implies tag_ref_attached(
                    self@,
                    #[trigger] tagsv[jj],
                    id.0,
                ) by {
                    if jj < j {
                        let tid = choose|tid: int|
                            0 <= tid < tags_before.len() && #[trigger] tag_key_is(
                                tags_before,
                                tid,
                                tagsv[jj].name,
                                tagsv[jj].discriminator,
                            ) && wt_in(
                                wt_mid,
                                WorkTag { tag: TagId(tid as u64), work_id: id },
                            );
                        assert(self@.tags[tid] == tags_before[tid]);
                        assert(tag_key_is(
                            self@.tags,
                            tid,
                            tagsv[jj].name,
                            tagsv[jj].discriminator,
                        ));
                        let ed = WorkTag { tag: TagId(tid as u64), work_id: id };
                        assert(wt_in(self@.work_tags, ed)) by {
                            let k = choose|k: int|
                                0 <= k < wt_mid.len() && #[trigger] wt_mid[k] == ed;
                            assert(self@.work_tags[k] == ed);
                        }
                    } else {
                        assert(tag_key_is(
                            self@.tags,
                            t@.id as int,
                            tagsv[jj].name,
                            tagsv[jj].discriminator,
                        ));
                        assert(wt_in(self@.work_tags, WorkTag {
                            tag: TagId(t@.id as int as u64),
                            work_id: id,
                        }));
                    }
                }
            }
            j = j + 1;
        }
        id
    }
}

} // verus!
