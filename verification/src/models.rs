//! The data model: works, authors, tags, and the edges between them.

use vstd::prelude::*;

verus! {

/// Surrogate identifier of a work.
#[derive(Debug, PartialEq, Eq, Hash, Clone, Copy, Structural)]
pub struct WorkId(pub u64);

/// Surrogate identifier of an author.
#[derive(Debug, PartialEq, Eq, Hash, Clone, Copy, Structural)]
pub struct AuthorId(pub u64);

/// Surrogate identifier of a tag.
#[derive(Debug, PartialEq, Eq, Hash, Clone, Copy, Structural)]
pub struct TagId(pub u64);

/// A tag row: the `(name, discriminator)` pair is the natural key, the
/// surrogate `id` is assigned on creation and used everywhere else.
#[derive(Debug, Clone)]
pub struct Tag {
    pub name: String,
    pub discriminator: Option<String>,
    pub id: TagId,
}

/// Mathematical model of a [`Tag`].
pub struct TagV {
    pub name: Seq<char>,
    pub discriminator: Option<Seq<char>>,
    pub id: u64,
}

impl View for Tag {
    type V = TagV;

    open spec fn view(&self) -> TagV {
        TagV {
            name: self.name@,
            discriminator: match self.discriminator {
                Some(ref d) => Some(d@),
                None => None,
            },
            id: self.id.0,
        }
    }
}

impl Tag {
    /// The display form of a tag: `name` or `name#discriminator`.
    pub fn to_text(&self) -> (r: String)
        ensures
            r@ == spec_tag_text(self@.name, self@.discriminator),
    {
        let mut out = self.name.clone();
        match &self.discriminator {
            Some(d) => {
                out.append("#");
                out.append(d.as_str());
            }
            None => {}
        }
        out
    }
}

/// The display form of a `(name, discriminator)` pair.
pub open spec fn spec_tag_text(name: Seq<char>, discriminator: Option<Seq<char>>) -> Seq<char> {
    match discriminator {
        Some(d) => name + "#"@ + d,
        None => name,
    }
}

/// A work-tag edge: many-to-many, no payload.
#[derive(Debug, Clone, Copy, PartialEq, Eq, Structural)]
pub struct WorkTag {
    pub tag: TagId,
    pub work_id: WorkId,
}

/// A meta-tag edge `(tag, target)`: for search purposes, satisfying `tag`
/// implies satisfying `target`. The transitive-closure query follows these
/// edges outward from `tag`.
#[derive(Debug, Clone, Copy, PartialEq, Eq, Structural)]
pub struct MetaTag {
    pub tag: TagId,
    pub target: TagId,
}

/// A cataloged media item.
#[derive(Debug, Clone)]
pub struct Work {
    pub path: String,
    pub work_id: WorkId,
    pub size: u64,
    pub title: Option<String>,
    pub author_id: Option<AuthorId>,
    pub caption: Option<String>,
    pub url: Option<String>,
    pub hash: i32,
}

/// Mathematical model of a [`Work`].
pub struct WorkV {
    pub path: Seq<char>,
    pub work_id: u64,
    pub size: u64,
    pub title: Option<Seq<char>>,
    pub author_id: Option<u64>,
    pub caption: Option<Seq<char>>,
    pub url: Option<Seq<char>>,
    pub hash: i32,
}

/// View of an `Option<String>` as an `Option<Seq<char>>`.
pub open spec fn opt_view(o: Option<String>) -> Option<Seq<char>> {
    match o {
        Some(s) => Some(s@),
        None => None,
    }
}

impl View for Work {
    type V = WorkV;

    open spec fn view(&self) -> WorkV {
        WorkV {
            path: self.path@,
            work_id: self.work_id.0,
            size: self.size,
            title: opt_view(self.title),
            author_id: match self.author_id {
                Some(a) => Some(a.0),
                None => None,
            },
            caption: opt_view(self.caption),
            url: opt_view(self.url),
            hash: self.hash,
        }
    }
}

/// An author row; names and urls hang off it in side tables.
#[derive(Debug, Clone, Copy, PartialEq, Eq, Structural)]
pub struct Author {
    pub author_id: AuthorId,
}

/// A name (or alias) of an author.
#[derive(Debug, Clone)]
pub struct AuthorName {
    pub author_id: AuthorId,
    pub name: String,
}

/// Mathematical model of an [`AuthorName`].
pub struct AuthorNameV {
    pub author_id: u64,
    pub name: Seq<char>,
}

impl View for AuthorName {
    type V = AuthorNameV;

    open spec fn view(&self) -> AuthorNameV {
        AuthorNameV { author_id: self.author_id.0, name: self.name@ }
    }
}

/// A url associated with an author.
#[derive(Debug, Clone)]
pub struct AuthorUrl {
    pub author_id: AuthorId,
    pub url: String,
}

/// Mathematical model of an [`AuthorUrl`].
pub struct AuthorUrlV {
    pub author_id: u64,
    pub url: Seq<char>,
}

impl View for AuthorUrl {
    type V = AuthorUrlV;

    open spec fn view(&self) -> AuthorUrlV {
        AuthorUrlV { author_id: self.author_id.0, url: self.url@ }
    }
}

} // verus!
