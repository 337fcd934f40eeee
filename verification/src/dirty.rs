//! The documents that were changed since they were last saved.

use vstd::prelude::*;

use crate::path;
use crate::path::{PathSet, SitePath};

verus! {

/// Set of content file paths (relative to the site root, such as
/// `"content/post/hello.md"`) that have been changed since the last save.
#[derive(Debug)]
pub struct DirtyDocs {
    paths: PathSet,
}

impl View for DirtyDocs {
    /// How each dirty document was written when it was marked, by the components of
    /// its path.
    type V = Map<Seq<Seq<char>>, Seq<char>>;

    closed spec fn view(&self) -> Map<Seq<Seq<char>>, Seq<char>> {
        self.paths.names()
    }
}

impl Default for DirtyDocs {
    fn default() -> (r: Self)
        ensures
            r@ == Map::<Seq<Seq<char>>, Seq<char>>::empty(),
    {
        DirtyDocs::new()
    }
}

/// The dirty documents once one was marked. One that is dirty already stays as it was
/// marked first.
pub open spec fn marked(
    docs: Map<Seq<Seq<char>>, Seq<char>>,
    name: Seq<char>,
) -> Map<Seq<Seq<char>>, Seq<char>> {
    let p = path::components_of(name);
    if docs.contains_key(p) {
        docs
    } else {
        docs.insert(p, name)
    }
}

impl DirtyDocs {
    /// No document is dirty.
    pub fn new() -> (r: Self)
        ensures
            r@ == Map::<Seq<Seq<char>>, Seq<char>>::empty(),
    {
        DirtyDocs { paths: PathSet::new() }
    }

    /// Mark a document as dirty.
    pub fn mark(&mut self, path: &str)
        ensures
            final(self)@ == marked(old(self)@, path@),
    {
        proof {
            path::lemma_names(self.paths);
        }
        self.paths.insert(SitePath::new(path))
    }

    /// Remove a document from the dirty set (after successful save).
    pub fn clear(&mut self, path: &SitePath)
        ensures
            final(self)@ == old(self)@.remove(path@),
    {
        self.paths.remove(path)
    }

    /// Check whether a document is dirty.
    pub fn contains(&self, path: &SitePath) -> (r: bool)
        ensures
            r == self@.contains_key(path@),
    {
        proof {
            path::lemma_names(self.paths);
        }
        self.paths.contains(path)
    }

    /// True if no documents are dirty.
    pub fn is_empty(&self) -> (r: bool)
        ensures
            r == (self@ =~= Map::<Seq<Seq<char>>, Seq<char>>::empty()),
    {
        proof {
            path::lemma_names(self.paths);
            if self.paths@ =~= Set::<Seq<Seq<char>>>::empty() {
                assert(self@ =~= Map::empty());
            }
        }
        self.paths.is_empty()
    }

    /// The dirty paths, each once, as they were marked.
    pub fn iter(&self) -> (r: Vec<SitePath>)
        ensures
            path::path_views(r@).to_set() == self@.dom(),
            path::all_distinct(path::path_views(r@)),
            forall|i: int| 0 <= i < r@.len() ==> (#[trigger] r@[i]).written() == self@[r@[i]@],
    {
        proof {
            path::lemma_names(self.paths);
        }
        self.paths.to_vec()
    }

    /// Take (drain) all dirty paths, leaving the set empty.
    pub fn take(&mut self) -> (r: PathSet)
        ensures
            r@ == old(self)@.dom(),
            r.names() == old(self)@,
            final(self)@ == Map::<Seq<Seq<char>>, Seq<char>>::empty(),
    {
        proof {
            path::lemma_names(self.paths);
        }
        let mut taken = PathSet::new();
        std::mem::swap(&mut taken, &mut self.paths);
        taken
    }
}

/// A document that is marked is among the changed ones, under the name that it was first
/// marked by, and the others stay as they are.
pub proof fn law_marked_document_is_changed(
    docs: Map<Seq<Seq<char>>, Seq<char>>,
    name: Seq<char>,
    other: Seq<Seq<char>>,
)
    ensures
        marked(docs, name).contains_key(path::components_of(name)),
        !docs.contains_key(path::components_of(name)) ==> marked(docs, name)[path::components_of(
            name,
        )] == name,
        docs.contains_key(path::components_of(name)) ==> marked(docs, name) == docs,
        other != path::components_of(name) ==> marked(docs, name).contains_key(other)
            == docs.contains_key(other),
        marked(marked(docs, name), name) == marked(docs, name),
{
}

} // verus!
