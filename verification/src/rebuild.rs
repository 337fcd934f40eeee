//! How pages are put into the state of a site, and how they are rebuilt.

use vstd::prelude::*;

use crate::conductor;
use crate::conductor::Conductor;
use crate::node_store;
use crate::node_store::{find_attr_text, NodeId, NodeStore};
use crate::path;
use crate::path::SitePath;
use crate::protocol;
use crate::protocol::ConductorEvent;
use crate::site;
use crate::site::{
    all_together, file_stem, slug_from_url, template_sources, together, TemplateSource,
};
use crate::table;
use crate::text;
use crate::text::{same, trim_end_matches};

verus! {

/// What a document is known by.
#[derive(Debug, PartialEq, Eq)]
pub struct DocumentMeta {
    pub url: String,
    pub stem: String,
    /// The file, relative to the site.
    pub file: String,
    /// `item` or `collection`.
    pub page_kind: String,
}

impl Clone for DocumentMeta {
    fn clone(&self) -> (r: Self)
        ensures
            r == *self,
    {
        DocumentMeta {
            url: self.url.clone(),
            stem: self.stem.clone(),
            file: self.file.clone(),
            page_kind: self.page_kind.clone(),
        }
    }
}

/// A page that is ready to be rendered.
#[derive(Debug, PartialEq, Eq)]
pub struct PageJob {
    pub url: String,
    pub stem: String,
    pub slug: String,
    /// What is shown of the page.
    pub semantic: NodeId,
    /// Where its template is looked for, in order.
    pub templates: Vec<TemplateSource>,
}

impl Clone for PageJob {
    fn clone(&self) -> (r: Self)
        ensures
            r@ == self@,
    {
        let templates = self.templates.clone();
        proof {
            assert(templates@ =~= self.templates@);
        }
        PageJob {
            url: self.url.clone(),
            stem: self.stem.clone(),
            slug: self.slug.clone(),
            semantic: self.semantic,
            templates,
        }
    }
}

/// What became of a page that was rendered.
#[derive(Debug, PartialEq, Eq)]
pub enum RenderOutcome {
    /// The page was rendered and written.
    Written,
    /// There is no template for it.
    NoTemplate,
    /// The template could not be read.
    ParseFailed(String),
    /// The template could not be filled.
    RenderFailed(String),
    /// There is no directory for the page.
    MkdirFailed(String),
    /// The page could not be written.
    WriteFailed(String),
}

/// Why a page could not be rebuilt, if it could not.
pub open spec fn render_error(stem: Seq<char>, outcome: RenderOutcome) -> Option<Seq<char>> {
    match outcome {
        RenderOutcome::Written => None,
        RenderOutcome::NoTemplate => Some("no template for "@ + stem),
        RenderOutcome::ParseFailed(e) => Some(e@),
        RenderOutcome::RenderFailed(e) => Some("render error: "@ + e@),
        RenderOutcome::MkdirFailed(e) => Some("mkdir error: "@ + e@),
        RenderOutcome::WriteFailed(e) => Some("write error: "@ + e@),
    }
}

/// Why a page could not be rebuilt, if it could not.
pub fn render_problem(stem: &str, outcome: &RenderOutcome) -> (r: Option<String>)
    ensures
        text::opt_text(r) == render_error(stem@, *outcome),
{
    match outcome {
        RenderOutcome::Written => None,
        RenderOutcome::NoTemplate => Some(together("no template for ", stem)),
        RenderOutcome::ParseFailed(e) => Some(e.clone()),
        RenderOutcome::RenderFailed(e) => Some(together("render error: ", e.as_str())),
        RenderOutcome::MkdirFailed(e) => Some(together("mkdir error: ", e.as_str())),
        RenderOutcome::WriteFailed(e) => Some(together("write error: ", e.as_str())),
    }
}

/// The name of a node in a message.
pub open spec fn node_name(id: NodeId) -> Seq<char> {
    "NodeId("@ + crate::decimal::digits(id.0 as nat) + ")"@
}

/// Why a document has no page to render, if it has none.
pub open spec fn job_error(c: Conductor, root: NodeId) -> Option<Seq<char>> {
    let stem = node_store::attr_text(c.store, root, "stem"@);
    let url = node_store::attr_text(c.store, root, "url"@);
    let file = node_store::attr_text(c.store, root, "file"@);
    if stem is None {
        Some("doc root "@ + node_name(root) + " has no stem attribute"@)
    } else if url is None {
        Some("doc root "@ + node_name(root) + " has no url attribute"@)
    } else if file is None {
        Some("doc root "@ + node_name(root) + " has no file attribute"@)
    } else if site::stem_of_path(file->0) is None {
        Some("cannot derive slug from file attribute: "@ + file->0)
    } else if table::found(c.url_to_semantic@, url->0) is None {
        Some("no semantic root for url "@ + url->0)
    } else {
        None
    }
}

/// Whether a job renders the page of a document: the URL and the stem are those of
/// the document, the slug is the name of its file, and a page that is an index or
/// a collection looks for the template of the collection first.
pub open spec fn is_job_for(c: Conductor, root: NodeId, job: PageJob) -> bool {
    &&& job_error(c, root) is None
    &&& node_store::attr_text(c.store, root, "stem"@) == Some(job.stem@)
    &&& node_store::attr_text(c.store, root, "url"@) == Some(job.url@)
    &&& site::stem_of_path(node_store::attr_text(c.store, root, "file"@)->0) == Some(job.slug@)
    &&& table::found(c.url_to_semantic@, job.url@) == Some(job.semantic)
    &&& job.templates@ == site::template_order(
        job.slug@ == "index"@ || node_store::attr_text(c.store, job.semantic, "page-kind"@)
            == Some("collection"@),
    )
}

/// The message that a document lacks an attribute.
fn no_attribute(root: NodeId, name: &str) -> (r: String)
    ensures
        r@ == "doc root "@ + node_name(root) + name@,
{
    let digits = crate::decimal::usize_text(root.0);
    let name_of = all_together("NodeId(", digits.as_str(), ")");
    all_together("doc root ", name_of.as_str(), name)
}

impl Conductor {
    /// What has to be rendered to rebuild the page of a document.
    pub fn job_for_root(&self, root: NodeId) -> (r: Result<PageJob, String>)
        ensures
            match r {
                Ok(job) => is_job_for(*self, root, job),
                Err(message) => job_error(*self, root) == Some(message@),
            },
    {
        let stem = match find_attr_text(&self.store, root, "stem") {
            Some(stem) => stem,
            None => {
                return Err(no_attribute(root, " has no stem attribute"));
            },
        };
        let url = match find_attr_text(&self.store, root, "url") {
            Some(url) => url,
            None => {
                return Err(no_attribute(root, " has no url attribute"));
            },
        };
        let file = match find_attr_text(&self.store, root, "file") {
            Some(file) => file,
            None => {
                return Err(no_attribute(root, " has no file attribute"));
            },
        };
        let slug = match file_stem(file.as_str()) {
            Some(slug) => slug,
            None => {
                return Err(together("cannot derive slug from file attribute: ", file.as_str()));
            },
        };
        let semantic = match self.url_to_semantic.get(&url) {
            Some(id) => *id,
            None => {
                return Err(together("no semantic root for url ", url.as_str()));
            },
        };
        let is_collection = same(slug.as_str(), "index") || self.shows_collection(semantic);
        let templates = template_sources(is_collection);
        Ok(PageJob { url, stem, slug, semantic, templates })
    }

    /// Whether what is shown of a page is that of a collection.
    fn shows_collection(&self, semantic: NodeId) -> (r: bool)
        ensures
            r == (node_store::attr_text(self.store, semantic, "page-kind"@) == Some(
                "collection"@,
            )),
    {
        match find_attr_text(&self.store, semantic, "page-kind") {
            Some(kind) => same(kind.as_str(), "collection"),
            None => false,
        }
    }
}

/// How a list of node numbers is seen.
pub open spec fn ids_view() -> spec_fn(Vec<NodeId>) -> Seq<NodeId> {
    |ids: Vec<NodeId>| ids@
}

/// The documents of each stem, as they are seen.
pub open spec fn seen_roots(entries: Seq<(Seq<char>, Vec<NodeId>)>) -> Seq<
    (Seq<char>, Seq<NodeId>),
> {
    table::seen_through(entries, ids_view())
}

/// The node numbers other than the given one, in order.
pub open spec fn without_id(ids: Seq<NodeId>, id: NodeId) -> Seq<NodeId>
    decreases ids.len(),
{
    if ids.len() == 0 {
        ids
    } else if ids.last() == id {
        without_id(ids.drop_last(), id)
    } else {
        without_id(ids.drop_last(), id).push(ids.last())
    }
}

/// The documents of a stem once a document has taken the place of another.
pub open spec fn with_root(roots: Seq<NodeId>, old_root: Option<NodeId>, root: NodeId) -> Seq<
    NodeId,
> {
    match old_root {
        Some(id) => without_id(roots, id).push(root),
        None => roots.push(root),
    }
}

/// The node numbers other than the given one, in order.
fn drop_id(ids: &Vec<NodeId>, id: NodeId) -> (r: Vec<NodeId>)
    ensures
        r@ == without_id(ids@, id),
{
    let mut out: Vec<NodeId> = Vec::new();
    let mut i: usize = 0;
    proof {
        assert(ids@.take(0) =~= seq![]);
    }
    while i < ids.len()
        invariant
            i <= ids.len(),
            out@ == without_id(ids@.take(i as int), id),
        decreases ids.len() - i,
    {
        proof {
            assert(ids@.take(i + 1).drop_last() =~= ids@.take(i as int));
            assert(ids@.take(i + 1).last() == ids@[i as int]);
        }
        if ids[i] != id {
            out.push(ids[i]);
        }
        i += 1;
    }
    proof {
        assert(ids@.take(i as int) =~= ids@);
    }
    out
}

/// A number that was left out does not occur.
pub proof fn lemma_without_id(ids: Seq<NodeId>, id: NodeId)
    ensures
        !without_id(ids, id).contains(id),
        without_id(ids, id).len() <= ids.len(),
        ids.contains(id) ==> without_id(ids, id).len() < ids.len(),
    decreases ids.len(),
{
    if ids.len() > 0 {
        let rest = ids.drop_last();
        lemma_without_id(rest, id);
        let all = without_id(ids, id);
        if all.contains(id) {
            let k = choose|k: int| 0 <= k < all.len() && all[k] == id;
            if ids.last() == id {
                assert(without_id(rest, id)[k] == id);
            } else if k < without_id(rest, id).len() {
                assert(without_id(rest, id)[k] == id);
            }
            assert(false);
        }
        if ids.contains(id) && ids.last() != id {
            let k = choose|k: int| 0 <= k < ids.len() && ids[k] == id;
            assert(rest[k] == id);
        }
    }
}

/// Whether a document was put into the indexes: its URL and its file lead to it,
/// and it comes last in the list of its stem, without the document that its URL led
/// to before.
pub open spec fn is_placed(before: Conductor, meta: DocumentMeta, root: NodeId, after: Conductor) -> bool {
    &&& after.url_to_root@ == table::with_entry(before.url_to_root@, meta.url@, root)
    &&& seen_roots(after.stem_to_roots@) == table::with_entry(
        seen_roots(before.stem_to_roots@),
        meta.stem@,
        with_root(
            conductor::roots_of(before.stem_to_roots@, meta.stem@),
            table::found(before.url_to_root@, meta.url@),
            root,
        ),
    )
    &&& after.path_to_doc_root@ == table::with_entry(
        before.path_to_doc_root@,
        path::components_of(meta.file@),
        root,
    )
    &&& after == (Conductor {
        url_to_root: after.url_to_root,
        stem_to_roots: after.stem_to_roots,
        path_to_doc_root: after.path_to_doc_root,
        ..before
    })
}

/// A list without doubles is one shorter without something that it holds.
proof fn lemma_without_one(ids: Seq<NodeId>, id: NodeId)
    requires
        ids.no_duplicates(),
    ensures
        without_id(ids, id).no_duplicates(),
        without_id(ids, id).len() == ids.len() - (if ids.contains(id) {
            1int
        } else {
            0
        }),
        forall|other: NodeId| #[trigger]
            without_id(ids, id).contains(other) ==> ids.contains(other),
    decreases ids.len(),
{
    if ids.len() > 0 {
        let front = ids.drop_last();
        let last = ids.last();
        assert forall|i: int, j: int|
            0 <= i < front.len() && 0 <= j < front.len() && i != j implies front[i] != front[j] by {
            assert(ids[i] != ids[j]);
        }
        lemma_without_one(front, id);
        let rest = without_id(front, id);
        assert forall|other: NodeId| front.contains(other) implies ids.contains(other) by {
            let i = choose|i: int| 0 <= i < front.len() && front[i] == other;
            assert(ids[i] == other);
        }
        assert(!front.contains(last)) by {
            if front.contains(last) {
                let i = choose|i: int| 0 <= i < front.len() && front[i] == last;
                assert(ids[i] != ids[ids.len() - 1]);
            }
        }
        assert(ids[ids.len() - 1] == last);
        if ids.contains(id) && last != id {
            let i = choose|i: int| 0 <= i < ids.len() && ids[i] == id;
            assert(front[i] == id);
        }
        if last != id {
            lemma_push_id(rest, last);
        }
    }
}

/// A list with something new behind it holds nothing twice if it did not before.
proof fn lemma_push_id(ids: Seq<NodeId>, id: NodeId)
    requires
        ids.no_duplicates(),
        !ids.contains(id),
    ensures
        ids.push(id).no_duplicates(),
        forall|other: NodeId| #[trigger]
            ids.push(id).contains(other) ==> ids.contains(other) || other == id,
{
    let all = ids.push(id);
    assert forall|i: int, j: int| 0 <= i < all.len() && 0 <= j < all.len() && i != j implies all[i]
        != all[j] by {
        if i == ids.len() {
            assert(ids.contains(ids[j]));
        } else if j == ids.len() {
            assert(ids.contains(ids[i]));
        }
    }
    assert forall|other: NodeId| #[trigger] all.contains(other) implies ids.contains(other)
        || other == id by {
        let k = choose|k: int| 0 <= k < all.len() && all[k] == other;
        if k < ids.len() {
            assert(ids[k] == other);
        }
    }
}

/// Putting a new document into the indexes in place of another keeps the number of
/// documents of its stem, and makes none of them stand there twice. Every other URL
/// leads where it did.
pub proof fn law_placed_document_keeps_the_others(
    before: Conductor,
    meta: DocumentMeta,
    root: NodeId,
    after: Conductor,
    old_root: NodeId,
    other: Seq<char>,
)
    requires
        is_placed(before, meta, root, after),
        table::found(before.url_to_root@, meta.url@) == Some(old_root),
        conductor::roots_of(before.stem_to_roots@, meta.stem@).contains(old_root),
        conductor::roots_of(before.stem_to_roots@, meta.stem@).no_duplicates(),
        root == old_root || !conductor::roots_of(before.stem_to_roots@, meta.stem@).contains(root),
        other != meta.url@,
    ensures
        conductor::roots_of(after.stem_to_roots@, meta.stem@).len() == conductor::roots_of(
            before.stem_to_roots@,
            meta.stem@,
        ).len(),
        conductor::roots_of(after.stem_to_roots@, meta.stem@).no_duplicates(),
        table::found(after.url_to_root@, other) == table::found(before.url_to_root@, other),
{
    let roots = conductor::roots_of(before.stem_to_roots@, meta.stem@);
    law_placed_document_is_found(before, meta, root, after);
    table::law_entry_keeps_others(before.url_to_root@, meta.url@, root, other);
    lemma_without_one(roots, old_root);
    lemma_without_id(roots, old_root);
    let kept = without_id(roots, old_root);
    assert(!kept.contains(root));
    lemma_push_id(kept, root);
}

/// Once a document was put into the indexes, its URL and its file lead to it, and
/// so to the same document; the other documents of its stem are those of before,
/// without the one that it replaces.
pub proof fn law_placed_document_is_found(
    before: Conductor,
    meta: DocumentMeta,
    root: NodeId,
    after: Conductor,
)
    requires
        is_placed(before, meta, root, after),
    ensures
        table::found(after.url_to_root@, meta.url@) == Some(root),
        table::found(after.path_to_doc_root@, path::components_of(meta.file@)) == Some(root),
        conductor::roots_of(after.stem_to_roots@, meta.stem@) == with_root(
            conductor::roots_of(before.stem_to_roots@, meta.stem@),
            table::found(before.url_to_root@, meta.url@),
            root,
        ),
        table::found(before.url_to_root@, meta.url@) matches Some(old_root) ==> (old_root
            != root ==> !conductor::roots_of(after.stem_to_roots@, meta.stem@).contains(old_root)),
        table::found(before.url_to_root@, meta.url@) matches Some(old_root) ==> (
        conductor::roots_of(before.stem_to_roots@, meta.stem@).contains(old_root)
            ==> conductor::roots_of(after.stem_to_roots@, meta.stem@).len()
            <= conductor::roots_of(before.stem_to_roots@, meta.stem@).len()),
{
    let roots = conductor::roots_of(before.stem_to_roots@, meta.stem@);
    let old_root = table::found(before.url_to_root@, meta.url@);
    table::law_entry_is_found(before.url_to_root@, meta.url@, root);
    table::law_entry_is_found(
        before.path_to_doc_root@,
        path::components_of(meta.file@),
        root,
    );
    table::law_entry_is_found(
        seen_roots(before.stem_to_roots@),
        meta.stem@,
        with_root(roots, old_root, root),
    );
    table::lemma_seen_found(after.stem_to_roots@, ids_view(), meta.stem@);
    if let Some(id) = old_root {
        lemma_without_id(roots, id);
        let all = without_id(roots, id).push(root);
        if id != root && all.contains(id) {
            let k = choose|k: int| 0 <= k < all.len() && all[k] == id;
            assert(without_id(roots, id)[k] == id);
        }
    }
}

impl Conductor {
    /// Put a document into the indexes. It comes last in the list of its stem, which
    /// loses the document that its URL led to.
    pub fn place_document(&mut self, meta: &DocumentMeta, root: NodeId)
        ensures
            is_placed(*old(self), *meta, root, *final(self)),
    {
        let old_root = self.document_by_url(meta.url.as_str());
        let roots = self.documents_for_stem(meta.stem.as_str());
        let mut kept = match old_root {
            Some(id) => drop_id(&roots, id),
            None => roots,
        };
        kept.push(root);
        proof {
            table::lemma_seen_entry(self.stem_to_roots@, ids_view(), meta.stem@, kept);
        }
        self.url_to_root.insert(meta.url.clone(), root);
        self.stem_to_roots.insert(meta.stem.clone(), kept);
        self.path_to_doc_root.insert(SitePath::new(meta.file.as_str()), root);
    }

    /// Map a URL to a document, and put the document into the other indexes as
    /// far as it names its stem and its file.
    pub fn insert_url_root(&mut self, url: &str, root: NodeId)
        ensures
            final(self).url_to_root@ == table::with_entry(old(self).url_to_root@, url@, root),
            match node_store::attr_text(old(self).store, root, "stem"@) {
                Some(stem) => seen_roots(final(self).stem_to_roots@) == table::with_entry(
                    seen_roots(old(self).stem_to_roots@),
                    stem,
                    conductor::roots_of(old(self).stem_to_roots@, stem).push(root),
                ),
                None => final(self).stem_to_roots == old(self).stem_to_roots,
            },
            match node_store::attr_text(old(self).store, root, "file"@) {
                Some(file) => final(self).path_to_doc_root@ == table::with_entry(
                    old(self).path_to_doc_root@,
                    path::components_of(file),
                    root,
                ),
                None => final(self).path_to_doc_root == old(self).path_to_doc_root,
            },
            *final(self) == (Conductor {
                url_to_root: final(self).url_to_root,
                stem_to_roots: final(self).stem_to_roots,
                path_to_doc_root: final(self).path_to_doc_root,
                ..*old(self)
            }),
    {
        self.url_to_root.insert(url.to_owned(), root);
        if let Some(stem) = find_attr_text(&self.store, root, "stem") {
            let mut roots = self.documents_for_stem(stem.as_str());
            roots.push(root);
            proof {
                table::lemma_seen_entry(self.stem_to_roots@, ids_view(), stem@, roots);
            }
            self.stem_to_roots.insert(stem, roots);
        }
        if let Some(file) = find_attr_text(&self.store, root, "file") {
            self.path_to_doc_root.insert(SitePath::new(file.as_str()), root);
        }
    }

    /// Map a URL to what is shown there.
    pub fn insert_url_semantic(&mut self, url: &str, semantic: NodeId)
        ensures
            final(self).url_to_semantic@ == table::with_entry(
                old(self).url_to_semantic@,
                url@,
                semantic,
            ),
            *final(self) == (Conductor {
                url_to_semantic: final(self).url_to_semantic,
                ..*old(self)
            }),
    {
        self.url_to_semantic.insert(url.to_owned(), semantic);
    }
}

/// What a page job holds.
#[verifier::ext_equal]
pub struct PageJobView {
    pub url: Seq<char>,
    pub stem: Seq<char>,
    pub slug: Seq<char>,
    pub semantic: NodeId,
    pub templates: Seq<TemplateSource>,
}

impl View for PageJob {
    type V = PageJobView;

    open spec fn view(&self) -> PageJobView {
        PageJobView {
            url: self.url@,
            stem: self.stem@,
            slug: self.slug@,
            semantic: self.semantic,
            templates: self.templates@,
        }
    }
}

/// The views of a list of page jobs.
pub open spec fn job_views(jobs: Seq<PageJob>) -> Seq<PageJobView> {
    jobs.map_values(|j: PageJob| j@)
}

/// What has to be rendered for a page of the site. A page without a stem is left
/// out, but for that of the root.
pub open spec fn job_at(store: NodeStore, url: Seq<char>, semantic: NodeId) -> Option<PageJobView> {
    let stem = match node_store::attr_text(store, semantic, "stem"@) {
        Some(stem) => stem,
        None => seq![],
    };
    let slug = site::url_slug(url);
    if stem.len() == 0 && url != "/"@ {
        None
    } else {
        Some(
            PageJobView {
                url,
                stem,
                slug,
                semantic,
                templates: site::template_order(
                    slug == "index"@ || node_store::attr_text(store, semantic, "page-kind"@)
                        == Some("collection"@),
                ),
            },
        )
    }
}

/// What has to be rendered for the pages of the site, in the order of the table.
pub open spec fn jobs_among(store: NodeStore, pages: Seq<(Seq<char>, NodeId)>) -> Seq<PageJobView>
    decreases pages.len(),
{
    if pages.len() == 0 {
        seq![]
    } else {
        let before = jobs_among(store, pages.drop_last());
        match job_at(store, pages.last().0, pages.last().1) {
            Some(job) => before.push(job),
            None => before,
        }
    }
}

/// The URLs of page jobs.
pub open spec fn job_urls(jobs: Seq<PageJobView>) -> Seq<Seq<char>> {
    jobs.map_values(|j: PageJobView| j.url)
}

/// Each page of a table without double keys has one job at most.
proof fn lemma_jobs_are_distinct(store: NodeStore, pages: Seq<(Seq<char>, NodeId)>)
    requires
        table::distinct_keys(pages),
    ensures
        job_urls(jobs_among(store, pages)).no_duplicates(),
        forall|i: int|
            0 <= i < jobs_among(store, pages).len() ==> table::keys_of(pages).contains(
                (#[trigger] jobs_among(store, pages)[i]).url,
            ),
    decreases pages.len(),
{
    if pages.len() > 0 {
        let front = pages.drop_last();
        let before = jobs_among(store, front);
        let all = jobs_among(store, pages);
        assert forall|i: int, j: int| 0 <= i < j < front.len() implies (#[trigger] front[i]).0 != (
        #[trigger] front[j]).0 by {
            assert(pages[i].0 != pages[j].0);
        }
        lemma_jobs_are_distinct(store, front);
        let keys = table::keys_of(pages);
        assert forall|i: int| 0 <= i < all.len() implies keys.contains(
            (#[trigger] all[i]).url,
        ) by {
            if i < before.len() {
                let k = choose|k: int|
                    0 <= k < table::keys_of(front).len() && table::keys_of(front)[k] == before[i].url;
                assert(keys[k] == all[i].url);
            } else {
                assert(keys[pages.len() - 1] == all[i].url);
            }
        }
        let urls = job_urls(all);
        assert forall|i: int, j: int| 0 <= i < urls.len() && 0 <= j < urls.len() && i != j implies urls[i]
            != urls[j] by {
            let a = if i < j {
                i
            } else {
                j
            };
            let b = if i < j {
                j
            } else {
                i
            };
            assert(urls[a] == before[a].url);
            if b < before.len() {
                assert(job_urls(before)[a] != job_urls(before)[b]);
            } else {
                let k = choose|k: int|
                    0 <= k < table::keys_of(front).len() && table::keys_of(front)[k] == before[a].url;
                assert(pages[k].0 != pages[pages.len() - 1].0);
            }
        }
    }
}

/// What became of the pages that were rendered together: the pages that were
/// rebuilt, those that could not be, and the reason for each of these.
#[derive(Debug, PartialEq, Eq)]
pub struct BuildReport {
    pub rebuilt: Vec<String>,
    pub failed: Vec<String>,
    pub errors: Vec<(String, String)>,
}

/// Why a page could not be built together with the others, if it could not. That a
/// page could not be written is passed over.
pub open spec fn batch_error(stem: Seq<char>, outcome: RenderOutcome) -> Option<Seq<char>> {
    match outcome {
        RenderOutcome::MkdirFailed(_) => None,
        RenderOutcome::WriteFailed(_) => None,
        _ => render_error(stem, outcome),
    }
}

/// Whether a page is passed over: the root of a site without a template for it.
pub open spec fn is_passed_over(stem: Seq<char>, outcome: RenderOutcome) -> bool {
    outcome is NoTemplate && stem.len() == 0
}

/// The pages among the first that were rebuilt.
pub open spec fn rebuilt_among(
    jobs: Seq<PageJobView>,
    outcomes: Seq<RenderOutcome>,
    n: int,
) -> Seq<Seq<char>>
    decreases n,
{
    if n <= 0 {
        seq![]
    } else {
        let before = rebuilt_among(jobs, outcomes, n - 1);
        let stem = jobs[n - 1].stem;
        if !is_passed_over(stem, outcomes[n - 1]) && batch_error(stem, outcomes[n - 1]) is None {
            before.push(jobs[n - 1].url)
        } else {
            before
        }
    }
}

/// The pages among the first that could not be rebuilt, each with the reason.
pub open spec fn errors_among(
    jobs: Seq<PageJobView>,
    outcomes: Seq<RenderOutcome>,
    n: int,
) -> Seq<(Seq<char>, Seq<char>)>
    decreases n,
{
    if n <= 0 {
        seq![]
    } else {
        let before = errors_among(jobs, outcomes, n - 1);
        let stem = jobs[n - 1].stem;
        match batch_error(stem, outcomes[n - 1]) {
            Some(message) => if is_passed_over(stem, outcomes[n - 1]) {
                before
            } else {
                before.push((jobs[n - 1].url, message))
            },
            None => before,
        }
    }
}

/// The first strings of a list of pairs.
pub open spec fn firsts(pairs: Seq<(Seq<char>, Seq<char>)>) -> Seq<Seq<char>> {
    pairs.map_values(|p: (Seq<char>, Seq<char>)| p.0)
}

/// Whether a report says what became of the given pages.
pub open spec fn reports(
    jobs: Seq<PageJobView>,
    outcomes: Seq<RenderOutcome>,
    report: BuildReport,
) -> bool {
    let n = if jobs.len() < outcomes.len() {
        jobs.len() as int
    } else {
        outcomes.len() as int
    };
    &&& text::texts(report.rebuilt@) == rebuilt_among(jobs, outcomes, n)
    &&& site::pair_texts(report.errors@) == errors_among(jobs, outcomes, n)
    &&& text::texts(report.failed@) == firsts(errors_among(jobs, outcomes, n))
}

/// Put together what became of the pages that were rendered.
pub fn build_report(jobs: &Vec<PageJob>, outcomes: &Vec<RenderOutcome>) -> (r: BuildReport)
    ensures
        reports(job_views(jobs@), outcomes@, r),
{
    let mut rebuilt: Vec<String> = Vec::new();
    let mut failed: Vec<String> = Vec::new();
    let mut errors: Vec<(String, String)> = Vec::new();
    let ghost all = job_views(jobs@);
    let mut i: usize = 0;
    proof {
        assert(text::texts(rebuilt@) =~= seq![]);
        assert(text::texts(failed@) =~= firsts(seq![]));
        assert(site::pair_texts(errors@) =~= seq![]);
    }
    while i < jobs.len() && i < outcomes.len()
        invariant
            i <= jobs.len(),
            i <= outcomes.len(),
            all == job_views(jobs@),
            text::texts(rebuilt@) == rebuilt_among(all, outcomes@, i as int),
            site::pair_texts(errors@) == errors_among(all, outcomes@, i as int),
            text::texts(failed@) == firsts(errors_among(all, outcomes@, i as int)),
        decreases jobs.len() - i,
    {
        let job = &jobs[i];
        let outcome = &outcomes[i];
        let ghost before = (rebuilt@, failed@, errors@);
        proof {
            assert(all[i as int] == job@);
        }
        let passed_over = matches!(outcome, RenderOutcome::NoTemplate)
            && job.stem.as_str().is_empty();
        let unwritten = matches!(outcome, RenderOutcome::MkdirFailed(_)) || matches!(
            outcome,
            RenderOutcome::WriteFailed(_)
        );
        if !passed_over {
            let problem = if unwritten {
                None
            } else {
                render_problem(job.stem.as_str(), outcome)
            };
            match problem {
                None => {
                    rebuilt.push(job.url.clone());
                    proof {
                        assert(text::texts(rebuilt@) =~= text::texts(before.0).push(job.url@));
                    }
                },
                Some(message) => {
                    failed.push(job.url.clone());
                    let ghost words = message@;
                    errors.push((job.url.clone(), message));
                    proof {
                        assert(text::texts(failed@) =~= text::texts(before.1).push(job.url@));
                        assert(site::pair_texts(errors@) =~= site::pair_texts(before.2).push(
                            (job.url@, words),
                        ));
                        assert(firsts(site::pair_texts(errors@)) =~= firsts(
                            site::pair_texts(before.2),
                        ).push(job.url@));
                    }
                },
            }
        }
        i += 1;
    }
    BuildReport { rebuilt, failed, errors }
}

impl Conductor {
    /// What has to be rendered for the pages of the site.
    pub fn all_jobs(&self) -> (r: Vec<PageJob>)
        ensures
            job_views(r@) == jobs_among(self.store, self.url_to_semantic@),
            job_urls(job_views(r@)).no_duplicates(),
            forall|i: int|
                0 <= i < r@.len() ==> table::keys_of(self.url_to_semantic@).contains(
                    (#[trigger] r@[i]).url@,
                ),
    {
        let ghost all = self.url_to_semantic@;
        let n = self.url_to_semantic.len();
        let mut out: Vec<PageJob> = Vec::new();
        let mut i: usize = 0;
        proof {
            assert(all.take(0) =~= seq![]);
            assert(job_views(out@) =~= jobs_among(self.store, all.take(0)));
        }
        while i < n
            invariant
                i <= n,
                n == self.url_to_semantic@.len(),
                all == self.url_to_semantic@,
                job_views(out@) == jobs_among(self.store, all.take(i as int)),
            decreases n - i,
        {
            let url = &self.url_to_semantic.entry(i).0;
            let semantic = self.url_to_semantic.entry(i).1;
            proof {
                assert(all.take(i + 1).drop_last() =~= all.take(i as int));
                assert(all.take(i + 1).last() == (url@, semantic));
            }
            let stem = match find_attr_text(&self.store, semantic, "stem") {
                Some(stem) => stem,
                None => {
                    let none = String::new();
                    proof {
                        assert(none@ =~= seq![]);
                    }
                    none
                },
            };
            if !stem.as_str().is_empty() || same(url.as_str(), "/") {
                let slug = slug_from_url(url.as_str());
                let is_collection = same(slug.as_str(), "index") || self.shows_collection(semantic);
                let templates = template_sources(is_collection);
                let job = PageJob { url: url.clone(), stem, slug, semantic, templates };
                let ghost view = job@;
                let ghost before = out@;
                out.push(job);
                proof {
                    assert(job_views(out@) =~= job_views(before).push(view));
                    assert(Some(view) == job_at(self.store, url@, semantic));
                }
            }
            i += 1;
        }
        proof {
            assert(all.take(i as int) =~= all);
            lemma_jobs_are_distinct(self.store, all);
            assert forall|i: int| 0 <= i < out@.len() implies table::keys_of(all).contains(
                (#[trigger] out@[i]).url@,
            ) by {
                assert(job_views(out@)[i] == out@[i]@);
            }
        }
        out
    }
}

/// What is reported of the first pages is reported of pages among them.
proof fn lemma_reported_was_rendered(
    jobs: Seq<PageJobView>,
    outcomes: Seq<RenderOutcome>,
    n: int,
)
    requires
        0 <= n <= jobs.len(),
        job_urls(jobs).no_duplicates(),
    ensures
        ({
            let rebuilt = rebuilt_among(jobs, outcomes, n);
            let failed = firsts(errors_among(jobs, outcomes, n));
            &&& rebuilt.no_duplicates()
            &&& failed.no_duplicates()
            &&& forall|url: Seq<char>| #[trigger]
                rebuilt.contains(url) ==> job_urls(jobs).take(n).contains(url)
            &&& forall|url: Seq<char>| #[trigger]
                failed.contains(url) ==> job_urls(jobs).take(n).contains(url)
            &&& forall|url: Seq<char>| #[trigger] rebuilt.contains(url) ==> !failed.contains(url)
        }),
    decreases n,
{
    let urls = job_urls(jobs);
    if n > 0 {
        lemma_reported_was_rendered(jobs, outcomes, n - 1);
        let url = jobs[n - 1].url;
        let known = urls.take(n - 1);
        let now = urls.take(n);
        assert(now =~= known.push(url)) by {
            assert(urls[n - 1] == url);
        }
        if known.contains(url) {
            let k = choose|k: int| 0 <= k < known.len() && known[k] == url;
            assert(urls[k] == urls[n - 1]);
        }
        assert forall|other: Seq<char>| known.contains(other) implies now.contains(other) by {
            let k = choose|k: int| 0 <= k < known.len() && known[k] == other;
            assert(now[k] == other);
        }
        assert(now[n - 1] == url);
        let rebuilt = rebuilt_among(jobs, outcomes, n - 1);
        let errors = errors_among(jobs, outcomes, n - 1);
        let failed = firsts(errors);
        assert(!rebuilt.contains(url));
        assert(!failed.contains(url));
        lemma_push_new(rebuilt, url);
        lemma_push_new(failed, url);
        let all = errors_among(jobs, outcomes, n);
        if all != errors {
            assert(firsts(all) =~= failed.push(url));
        }
    }
}

/// A list with something new behind it holds nothing twice if it did not before.
proof fn lemma_push_new(list: Seq<Seq<char>>, item: Seq<char>)
    requires
        list.no_duplicates(),
        !list.contains(item),
    ensures
        list.push(item).no_duplicates(),
        forall|other: Seq<char>| #[trigger]
            list.push(item).contains(other) <==> list.contains(other) || other == item,
{
    let all = list.push(item);
    assert forall|i: int, j: int| 0 <= i < all.len() && 0 <= j < all.len() && i != j implies all[i]
        != all[j] by {
        if i == list.len() {
            assert(list.contains(list[j]));
        } else if j == list.len() {
            assert(list.contains(list[i]));
        }
    }
    assert forall|other: Seq<char>| #[trigger] all.contains(other) <==> list.contains(other)
        || other == item by {
        if all.contains(other) {
            let k = choose|k: int| 0 <= k < all.len() && all[k] == other;
            if k < list.len() {
                assert(list[k] == other);
            }
        }
        if list.contains(other) {
            let k = choose|k: int| 0 <= k < list.len() && list[k] == other;
            assert(all[k] == other);
        }
        assert(all[list.len() as int] == item);
    }
}

/// Where no page is rendered twice, none is reported twice, and none both as
/// rebuilt and as failed. Only pages that were rendered are reported, and there are
/// reasons for exactly those that failed.
pub proof fn law_pages_are_reported_once(
    jobs: Seq<PageJobView>,
    outcomes: Seq<RenderOutcome>,
    report: BuildReport,
    url: Seq<char>,
)
    requires
        job_urls(jobs).no_duplicates(),
        reports(jobs, outcomes, report),
    ensures
        text::texts(report.rebuilt@).no_duplicates(),
        text::texts(report.failed@).no_duplicates(),
        text::texts(report.rebuilt@).contains(url) ==> job_urls(jobs).contains(url)
            && !text::texts(report.failed@).contains(url),
        text::texts(report.failed@).contains(url) ==> job_urls(jobs).contains(url),
        text::texts(report.failed@) == firsts(site::pair_texts(report.errors@)),
{
    let n = if jobs.len() < outcomes.len() {
        jobs.len() as int
    } else {
        outcomes.len() as int
    };
    lemma_reported_was_rendered(jobs, outcomes, n);
    let urls = job_urls(jobs);
    if urls.take(n).contains(url) {
        let k = choose|k: int| 0 <= k < n && urls.take(n)[k] == url;
        assert(urls[k] == url);
    }
}

/// How a list of messages is seen.
pub open spec fn messages_view() -> spec_fn(Vec<String>) -> Seq<Seq<char>> {
    |messages: Vec<String>| text::texts(messages@)
}

/// The pages that could not be built, each with the reasons, as they are seen.
pub open spec fn seen_errors(entries: Seq<(Seq<char>, Vec<String>)>) -> Seq<
    (Seq<char>, Seq<Seq<char>>),
> {
    table::seen_through(entries, messages_view())
}

/// The errors without those of a page, whether its URL ends in a slash or not.
pub open spec fn cleared(
    errors: Seq<(Seq<char>, Seq<Seq<char>>)>,
    page: Seq<char>,
) -> Seq<(Seq<char>, Seq<Seq<char>>)> {
    let bare = text::trim_end_char(page, '/');
    table::without_key(table::without_key(errors, bare), bare + "/"@)
}

/// The errors without those of the given pages.
pub open spec fn all_cleared(
    errors: Seq<(Seq<char>, Seq<Seq<char>>)>,
    pages: Seq<Seq<char>>,
) -> Seq<(Seq<char>, Seq<Seq<char>>)>
    decreases pages.len(),
{
    if pages.len() == 0 {
        errors
    } else {
        cleared(all_cleared(errors, pages.drop_last()), pages.last())
    }
}

/// The errors with those that are new.
pub open spec fn all_entered(
    errors: Seq<(Seq<char>, Seq<Seq<char>>)>,
    news: Seq<(Seq<char>, Seq<char>)>,
) -> Seq<(Seq<char>, Seq<Seq<char>>)>
    decreases news.len(),
{
    if news.len() == 0 {
        errors
    } else {
        table::with_entry(
            all_entered(errors, news.drop_last()),
            news.last().0,
            seq![news.last().1],
        )
    }
}

/// The events that follow a build: the pages that were rebuilt, where there are
/// any or a stylesheet was changed, and those that could not be.
pub open spec fn tells_build(
    events: Seq<ConductorEvent>,
    rebuilt: Seq<Seq<char>>,
    failed: Seq<Seq<char>>,
    stylesheet: bool,
) -> bool {
    let tell_rebuilt = rebuilt.len() > 0 || stylesheet;
    let first_failed: int = if tell_rebuilt {
        1
    } else {
        0
    };
    &&& tell_rebuilt ==> events.len() > 0 && protocol::rebuilt_event(events[0], rebuilt, None)
    &&& failed.len() > 0 ==> events.len() == first_failed + 1 && protocol::failed_event(
        events[first_failed],
        failed,
    )
    &&& failed.len() == 0 ==> events.len() == first_failed
}

/// The events that follow a build.
pub fn build_events(rebuilt: Vec<String>, failed: Vec<String>, stylesheet: bool) -> (r: Vec<
    ConductorEvent,
>)
    ensures
        tells_build(r@, text::texts(rebuilt@), text::texts(failed@), stylesheet),
{
    let mut events: Vec<ConductorEvent> = Vec::new();
    proof {
        assert(text::texts(rebuilt@).len() == rebuilt@.len());
        assert(text::texts(failed@).len() == failed@.len());
    }
    if rebuilt.len() > 0 || stylesheet {
        events.push(ConductorEvent::PagesRebuilt { pages: rebuilt, anchor: None });
    }
    if failed.len() > 0 {
        events.push(ConductorEvent::BuildFailed { error_pages: failed });
    }
    events
}

impl Conductor {
    /// Forget the build errors of a page.
    pub fn clear_errors(&mut self, page: &str)
        ensures
            seen_errors(final(self).build_errors@) == cleared(
                seen_errors(old(self).build_errors@),
                page@,
            ),
            *final(self) == (Conductor { build_errors: final(self).build_errors, ..*old(self) }),
    {
        let bare = trim_end_matches(page, '/');
        let slashed = together(bare.as_str(), "/");
        proof {
            table::lemma_seen_removal(self.build_errors@, messages_view(), bare@);
            table::lemma_seen_removal(
                table::without_key(self.build_errors@, bare@),
                messages_view(),
                slashed@,
            );
        }
        self.build_errors.remove(&bare);
        self.build_errors.remove(&slashed);
    }

    /// Forget the build errors of the given pages.
    pub fn clear_all_errors(&mut self, pages: &Vec<String>)
        ensures
            seen_errors(final(self).build_errors@) == all_cleared(
                seen_errors(old(self).build_errors@),
                text::texts(pages@),
            ),
            *final(self) == (Conductor { build_errors: final(self).build_errors, ..*old(self) }),
    {
        let ghost all = text::texts(pages@);
        let mut i: usize = 0;
        proof {
            assert(all.take(0) =~= seq![]);
        }
        while i < pages.len()
            invariant
                i <= pages.len(),
                all == text::texts(pages@),
                seen_errors(self.build_errors@) == all_cleared(
                    seen_errors(old(self).build_errors@),
                    all.take(i as int),
                ),
                *self == (Conductor { build_errors: self.build_errors, ..*old(self) }),
            decreases pages.len() - i,
        {
            proof {
                assert(all.take(i + 1).drop_last() =~= all.take(i as int));
                assert(all.take(i + 1).last() == pages@[i as int]@);
            }
            self.clear_errors(pages[i].as_str());
            i += 1;
        }
        proof {
            assert(all.take(i as int) =~= all);
        }
    }

    /// Remember why a page could not be built.
    pub fn enter_error(&mut self, page: &str, message: String)
        ensures
            seen_errors(final(self).build_errors@) == table::with_entry(
                seen_errors(old(self).build_errors@),
                page@,
                seq![message@],
            ),
            *final(self) == (Conductor { build_errors: final(self).build_errors, ..*old(self) }),
    {
        let mut messages: Vec<String> = Vec::new();
        let ghost words = message@;
        messages.push(message);
        proof {
            assert(text::texts(messages@) =~= seq![words]);
            table::lemma_seen_entry(self.build_errors@, messages_view(), page@, messages);
        }
        self.build_errors.insert(page.to_owned(), messages);
    }

    /// Update build errors and create events from render results.
    pub fn finalize_render(&mut self, report: BuildReport, has_stylesheet_change: bool) -> (r: Vec<
        ConductorEvent,
    >)
        ensures
            seen_errors(final(self).build_errors@) == all_entered(
                all_cleared(
                    seen_errors(old(self).build_errors@),
                    text::texts(report.rebuilt@),
                ),
                site::pair_texts(report.errors@),
            ),
            tells_build(
                r@,
                text::texts(report.rebuilt@),
                text::texts(report.failed@),
                has_stylesheet_change,
            ),
            *final(self) == (Conductor { build_errors: final(self).build_errors, ..*old(self) }),
    {
        self.clear_all_errors(&report.rebuilt);
        let ghost start = seen_errors(self.build_errors@);
        let ghost all = site::pair_texts(report.errors@);
        let mut i: usize = 0;
        proof {
            assert(all.take(0) =~= seq![]);
        }
        while i < report.errors.len()
            invariant
                i <= report.errors.len(),
                all == site::pair_texts(report.errors@),
                seen_errors(self.build_errors@) == all_entered(start, all.take(i as int)),
                *self == (Conductor { build_errors: self.build_errors, ..*old(self) }),
            decreases report.errors.len() - i,
        {
            let entry = &report.errors[i];
            proof {
                assert(all.take(i + 1).drop_last() =~= all.take(i as int));
                assert(all.take(i + 1).last() == (entry.0@, entry.1@));
            }
            self.enter_error(entry.0.as_str(), entry.1.clone());
            i += 1;
        }
        proof {
            assert(all.take(i as int) =~= all);
        }
        build_events(report.rebuilt, report.failed, has_stylesheet_change)
    }
}

/// A page that was rebuilt has no build errors, unless the same build brought one
/// for its URL: neither under its URL without slashes at the end nor under the one
/// with a slash.
pub proof fn law_rebuilt_page_has_no_errors(
    errors: Seq<(Seq<char>, Seq<Seq<char>>)>,
    rebuilt: Seq<Seq<char>>,
    news: Seq<(Seq<char>, Seq<char>)>,
    k: int,
    url: Seq<char>,
)
    requires
        0 <= k < rebuilt.len(),
        url == text::trim_end_char(rebuilt[k], '/') || url == text::trim_end_char(rebuilt[k], '/')
            + "/"@,
        !firsts(news).contains(url),
    ensures
        table::found(all_entered(all_cleared(errors, rebuilt), news), url) is None,
    decreases news.len(),
{
    if news.len() == 0 {
        lemma_cleared(errors, rebuilt, k, url);
    } else {
        let rest = news.drop_last();
        if firsts(rest).contains(url) {
            let j = choose|j: int| 0 <= j < firsts(rest).len() && firsts(rest)[j] == url;
            assert(firsts(news)[j] == url);
        }
        assert(firsts(news)[news.len() - 1] == news.last().0);
        law_rebuilt_page_has_no_errors(errors, rebuilt, rest, k, url);
        table::law_entry_keeps_others(
            all_entered(all_cleared(errors, rebuilt), rest),
            news.last().0,
            seq![news.last().1],
            url,
        );
    }
}

/// The errors of a page that is cleared are gone.
proof fn lemma_cleared(
    errors: Seq<(Seq<char>, Seq<Seq<char>>)>,
    pages: Seq<Seq<char>>,
    k: int,
    url: Seq<char>,
)
    requires
        0 <= k < pages.len(),
        url == text::trim_end_char(pages[k], '/') || url == text::trim_end_char(pages[k], '/')
            + "/"@,
    ensures
        table::found(all_cleared(errors, pages), url) is None,
    decreases pages.len(),
{
    let before = all_cleared(errors, pages.drop_last());
    let bare = text::trim_end_char(pages.last(), '/');
    let middle = table::without_key(before, bare);
    if k == pages.len() - 1 {
        table::law_removed_key_is_gone(before, bare);
        table::law_removed_key_is_gone(middle, bare + "/"@);
        if url == bare && bare != bare + "/"@ {
            table::law_removal_keeps_others(middle, bare + "/"@, url);
        }
    } else {
        lemma_cleared(errors, pages.drop_last(), k, url);
        if url == bare {
            table::law_removed_key_is_gone(before, bare);
        } else {
            table::law_removal_keeps_others(before, bare, url);
        }
        if url == bare + "/"@ {
            table::law_removed_key_is_gone(middle, bare + "/"@);
        } else {
            table::law_removal_keeps_others(middle, bare + "/"@, url);
        }
    }
}

/// The page of a changed document, as far as it can be rendered.
#[derive(Debug, PartialEq, Eq)]
pub enum PagePlan {
    /// The page can be rendered.
    Ready { label: String, url: String, stem: String },
    /// There is no page to render.
    Failed { label: String },
}

/// The mathematical counterpart of [`PagePlan`].
pub enum PagePlanView {
    Ready { label: Seq<char>, url: Seq<char>, stem: Seq<char> },
    Failed { label: Seq<char> },
}

impl View for PagePlan {
    type V = PagePlanView;

    open spec fn view(&self) -> PagePlanView {
        match self {
            PagePlan::Ready { label, url, stem } => PagePlanView::Ready {
                label: label@,
                url: url@,
                stem: stem@,
            },
            PagePlan::Failed { label } => PagePlanView::Failed { label: label@ },
        }
    }
}

/// The views of a list of plans.
pub open spec fn plan_views(plans: Seq<PagePlan>) -> Seq<PagePlanView> {
    plans.map_values(|p: PagePlan| p@)
}

/// What a page is called where it could not be rebuilt: the name of its file.
pub open spec fn page_label(parts: Seq<Seq<char>>) -> Seq<char> {
    match site::stem_of_parts(parts) {
        Some(stem) => stem,
        None => "unknown"@,
    }
}

/// What has to be rendered for a document that has a page.
pub open spec fn job_of(c: Conductor, root: NodeId) -> PageJobView {
    let url = node_store::attr_text(c.store, root, "url"@)->0;
    let slug = site::stem_of_path(node_store::attr_text(c.store, root, "file"@)->0)->0;
    let semantic = table::found(c.url_to_semantic@, url)->0;
    PageJobView {
        url,
        stem: node_store::attr_text(c.store, root, "stem"@)->0,
        slug,
        semantic,
        templates: site::template_order(
            slug == "index"@ || node_store::attr_text(c.store, semantic, "page-kind"@) == Some(
                "collection"@,
            ),
        ),
    }
}

/// The plan for a document.
pub open spec fn plan_of(c: Conductor, parts: Seq<Seq<char>>, root: NodeId) -> PagePlanView {
    if job_error(c, root) is Some {
        PagePlanView::Failed { label: page_label(parts) }
    } else {
        PagePlanView::Ready {
            label: page_label(parts),
            url: job_of(c, root).url,
            stem: job_of(c, root).stem,
        }
    }
}

/// The plans for the documents in the given files, in order. Files without a
/// document are passed over.
pub open spec fn plans_for(c: Conductor, paths: Seq<Seq<Seq<char>>>) -> Seq<PagePlanView>
    decreases paths.len(),
{
    if paths.len() == 0 {
        seq![]
    } else {
        let before = plans_for(c, paths.drop_last());
        match table::found(c.path_to_doc_root@, paths.last()) {
            Some(root) => before.push(plan_of(c, paths.last(), root)),
            None => before,
        }
    }
}

/// What has to be rendered for the documents in the given files, in order.
pub open spec fn jobs_for(c: Conductor, paths: Seq<Seq<Seq<char>>>) -> Seq<PageJobView>
    decreases paths.len(),
{
    if paths.len() == 0 {
        seq![]
    } else {
        let before = jobs_for(c, paths.drop_last());
        match table::found(c.path_to_doc_root@, paths.last()) {
            Some(root) => if job_error(c, root) is None {
                before.push(job_of(c, root))
            } else {
                before
            },
            None => before,
        }
    }
}

/// The number of pages among the first that can be rendered.
pub open spec fn ready_among(plans: Seq<PagePlanView>, n: int) -> int
    decreases n,
{
    if n <= 0 {
        0
    } else {
        ready_among(plans, n - 1) + if plans[n - 1] is Ready {
            1int
        } else {
            0int
        }
    }
}

/// Whether the page of a plan was rebuilt.
pub open spec fn is_rebuilt(
    plans: Seq<PagePlanView>,
    outcomes: Seq<RenderOutcome>,
    k: int,
) -> bool {
    &&& plans[k] is Ready
    &&& 0 <= ready_among(plans, k) < outcomes.len()
    &&& render_error(plans[k]->Ready_stem, outcomes[ready_among(plans, k)]) is None
}

/// The pages among the first that were rebuilt.
pub open spec fn rebuilt_pages(
    plans: Seq<PagePlanView>,
    outcomes: Seq<RenderOutcome>,
    n: int,
) -> Seq<Seq<char>>
    decreases n,
{
    if n <= 0 {
        seq![]
    } else if is_rebuilt(plans, outcomes, n - 1) {
        rebuilt_pages(plans, outcomes, n - 1).push(plans[n - 1]->Ready_url)
    } else {
        rebuilt_pages(plans, outcomes, n - 1)
    }
}

/// What a page is called.
pub open spec fn plan_label(plan: PagePlanView) -> Seq<char> {
    match plan {
        PagePlanView::Ready { label, .. } => label,
        PagePlanView::Failed { label } => label,
    }
}

/// The names of the pages among the first that could not be rebuilt.
pub open spec fn failed_pages(
    plans: Seq<PagePlanView>,
    outcomes: Seq<RenderOutcome>,
    n: int,
) -> Seq<Seq<char>>
    decreases n,
{
    if n <= 0 {
        seq![]
    } else if is_rebuilt(plans, outcomes, n - 1) {
        failed_pages(plans, outcomes, n - 1)
    } else {
        failed_pages(plans, outcomes, n - 1).push(plan_label(plans[n - 1]))
    }
}

impl Conductor {
    /// The plans for the documents in the given files, and what has to be
    /// rendered for them.
    pub fn plan_pages(&self, paths: &Vec<SitePath>) -> (r: (Vec<PagePlan>, Vec<PageJob>))
        ensures
            plan_views(r.0@) == plans_for(*self, path::path_views(paths@)),
            job_views(r.1@) == jobs_for(*self, path::path_views(paths@)),
    {
        let mut plans: Vec<PagePlan> = Vec::new();
        let mut jobs: Vec<PageJob> = Vec::new();
        let ghost all = path::path_views(paths@);
        let mut i: usize = 0;
        proof {
            assert(all.take(0) =~= seq![]);
            assert(plan_views(plans@) =~= seq![]);
            assert(job_views(jobs@) =~= seq![]);
        }
        while i < paths.len()
            invariant
                i <= paths.len(),
                all == path::path_views(paths@),
                plan_views(plans@) == plans_for(*self, all.take(i as int)),
                job_views(jobs@) == jobs_for(*self, all.take(i as int)),
            decreases paths.len() - i,
        {
            let p = &paths[i];
            proof {
                assert(all.take(i + 1).drop_last() =~= all.take(i as int));
                assert(all.take(i + 1).last() == p@);
            }
            let ghost before = (plans@, jobs@);
            if let Some(root) = self.doc_root_for_path(p) {
                let label = match file_stem(p.as_str()) {
                    Some(stem) => stem,
                    None => "unknown".to_owned(),
                };
                let ghost name = label@;
                match self.job_for_root(root) {
                    Err(_) => {
                        plans.push(PagePlan::Failed { label });
                        proof {
                            assert(plan_views(plans@) =~= plan_views(before.0).push(
                                PagePlanView::Failed { label: name },
                            ));
                        }
                    },
                    Ok(job) => {
                        plans.push(
                            PagePlan::Ready { label, url: job.url.clone(), stem: job.stem.clone() },
                        );
                        let ghost view = job@;
                        jobs.push(job);
                        proof {
                            assert(view == job_of(*self, root));
                            assert(plan_views(plans@) =~= plan_views(before.0).push(
                                PagePlanView::Ready {
                                    label: name,
                                    url: view.url,
                                    stem: view.stem,
                                },
                            ));
                            assert(job_views(jobs@) =~= job_views(before.1).push(view));
                        }
                    },
                }
            }
            i += 1;
        }
        proof {
            assert(all.take(i as int) =~= all);
        }
        (plans, jobs)
    }
}

/// Which pages were rebuilt, and which could not be.
pub fn settle_plans(plans: &Vec<PagePlan>, outcomes: &Vec<RenderOutcome>) -> (r: (
    Vec<String>,
    Vec<String>,
))
    ensures
        text::texts(r.0@) == rebuilt_pages(
            plan_views(plans@),
            outcomes@,
            plans@.len() as int,
        ),
        text::texts(r.1@) == failed_pages(
            plan_views(plans@),
            outcomes@,
            plans@.len() as int,
        ),
{
    let ghost all = plan_views(plans@);
    let mut rebuilt: Vec<String> = Vec::new();
    let mut failed: Vec<String> = Vec::new();
    let mut i: usize = 0;
    let mut at: usize = 0;
    proof {
        assert(text::texts(rebuilt@) =~= seq![]);
        assert(text::texts(failed@) =~= seq![]);
    }
    while i < plans.len()
        invariant
            i <= plans.len(),
            all == plan_views(plans@),
            at == ready_among(all, i as int),
            at <= i,
            text::texts(rebuilt@) == rebuilt_pages(all, outcomes@, i as int),
            text::texts(failed@) == failed_pages(all, outcomes@, i as int),
        decreases plans.len() - i,
    {
        let ghost before = (rebuilt@, failed@);
        proof {
            assert(all[i as int] == plans@[i as int]@);
        }
        match &plans[i] {
            PagePlan::Failed { label } => {
                failed.push(label.clone());
                proof {
                    assert(text::texts(failed@) =~= text::texts(before.1).push(label@));
                }
            },
            PagePlan::Ready { label, url, stem } => {
                let ok = at < outcomes.len() && render_problem(
                    stem.as_str(),
                    &outcomes[at],
                ).is_none();
                if ok {
                    rebuilt.push(url.clone());
                    proof {
                        assert(text::texts(rebuilt@) =~= text::texts(before.0).push(url@));
                    }
                } else {
                    failed.push(label.clone());
                    proof {
                        assert(text::texts(failed@) =~= text::texts(before.1).push(label@));
                    }
                }
                at += 1;
            },
        }
        i += 1;
    }
    (rebuilt, failed)
}

/// The jobs for pages are those for the first and then those for the others.
pub proof fn law_jobs_keep_the_order_of_pages(
    store: NodeStore,
    a: Seq<(Seq<char>, NodeId)>,
    b: Seq<(Seq<char>, NodeId)>,
)
    ensures
        jobs_among(store, a + b) == jobs_among(store, a) + jobs_among(store, b),
    decreases b.len(),
{
    if b.len() == 0 {
        assert(a + b =~= a);
        assert(jobs_among(store, a) + jobs_among(store, b) =~= jobs_among(store, a));
    } else {
        law_jobs_keep_the_order_of_pages(store, a, b.drop_last());
        assert((a + b).drop_last() =~= a + b.drop_last());
        assert((a + b).last() == b.last());
        assert(jobs_among(store, a + b) =~= jobs_among(store, a) + jobs_among(store, b));
    }
}

/// A page is a job of its own: with its URL and its semantic node, the stem that this has
/// and the slug of the URL, and with a collection template where it is a collection. Only
/// the page at the top may do without a stem.
pub proof fn law_job_of_one_page(store: NodeStore, url: Seq<char>, semantic: NodeId)
    ensures
        ({
            let jobs = jobs_among(store, seq![(url, semantic)]);
            let stem = node_store::attr_text(store, semantic, "stem"@);
            if (stem is None || stem->0.len() == 0) && url != "/"@ {
                jobs.len() == 0
            } else {
                &&& jobs.len() == 1
                &&& jobs[0].url == url
                &&& jobs[0].semantic == semantic
                &&& jobs[0].slug == site::url_slug(url)
                &&& stem is Some ==> jobs[0].stem == stem->0
                &&& stem is None ==> jobs[0].stem.len() == 0
                &&& jobs[0].templates.contains(site::TemplateSource::Collection) <==> jobs[0].slug
                    == "index"@ || node_store::attr_text(store, semantic, "page-kind"@) == Some(
                    "collection"@,
                )
            }
        }),
{
    let one = seq![(url, semantic)];
    assert(one.drop_last() =~= seq![]);
    assert(jobs_among(store, one.drop_last()) =~= seq![]);
    assert(one.last() == (url, semantic));
    site::law_templates_are_looked_for_in_order(true);
    site::law_templates_are_looked_for_in_order(false);
}

/// What is left without an id are the others, in order.
pub proof fn law_only_the_id_is_taken_away(ids: Seq<NodeId>, id: NodeId)
    ensures
        without_id(ids, id) == ids.filter(|other: NodeId| other != id),
    decreases ids.len(),
{
    reveal(Seq::filter);
    if ids.len() > 0 {
        law_only_the_id_is_taken_away(ids.drop_last(), id);
    }
}

/// A page is reported as rebuilt where it was written, or could only not be put in its
/// place.
pub proof fn law_rebuilt_pages_are_those_that_rendered(
    jobs: Seq<PageJobView>,
    outcomes: Seq<RenderOutcome>,
    n: int,
    url: Seq<char>,
)
    ensures
        rebuilt_among(jobs, outcomes, n).contains(url) <==> exists|k: int|
            0 <= k < n && (#[trigger] jobs[k]).url == url && (outcomes[k] is Written || outcomes[k]
                is MkdirFailed || outcomes[k] is WriteFailed),
    decreases n,
{
    if n > 0 {
        let before = rebuilt_among(jobs, outcomes, n - 1);
        let all = rebuilt_among(jobs, outcomes, n);
        law_rebuilt_pages_are_those_that_rendered(jobs, outcomes, n - 1, url);
        if before.contains(url) {
            let i = choose|i: int| 0 <= i < before.len() && before[i] == url;
            assert(all[i] == url);
        }
        if all.len() > before.len() {
            assert(all[before.len() as int] == jobs[n - 1].url);
            if all.contains(url) && !before.contains(url) {
                let i = choose|i: int| 0 <= i < all.len() && all[i] == url;
                if i < before.len() {
                    assert(before[i] == url);
                }
                assert(jobs[n - 1].url == url);
            }
        }
    }
}

/// A page is reported as failed where it could not be rendered, and where its stem has no
/// template; with the message that says so.
pub proof fn law_failed_pages_are_those_that_did_not_render(
    jobs: Seq<PageJobView>,
    outcomes: Seq<RenderOutcome>,
    n: int,
    url: Seq<char>,
    message: Seq<char>,
)
    ensures
        errors_among(jobs, outcomes, n).contains((url, message)) <==> exists|k: int|
            0 <= k < n && (#[trigger] jobs[k]).url == url && match outcomes[k] {
                RenderOutcome::NoTemplate => jobs[k].stem.len() > 0 && message
                    == "no template for "@ + jobs[k].stem,
                RenderOutcome::ParseFailed(e) => message == e@,
                RenderOutcome::RenderFailed(e) => message == "render error: "@ + e@,
                _ => false,
            },
    decreases n,
{
    let pair = (url, message);
    if n > 0 {
        let before = errors_among(jobs, outcomes, n - 1);
        let all = errors_among(jobs, outcomes, n);
        law_failed_pages_are_those_that_did_not_render(jobs, outcomes, n - 1, url, message);
        if before.contains(pair) {
            let i = choose|i: int| 0 <= i < before.len() && before[i] == pair;
            assert(all[i] == pair);
        }
        if all.len() > before.len() {
            let last = all[before.len() as int];
            assert(last.0 == jobs[n - 1].url);
            assert(all.contains(last));
            if all.contains(pair) && !before.contains(pair) {
                let i = choose|i: int| 0 <= i < all.len() && all[i] == pair;
                if i < before.len() {
                    assert(before[i] == pair);
                }
                assert(last == pair);
            }
            if last == pair {
                assert(jobs[n - 1].url == url);
            }
        }
    }
}

/// To clear the errors of a page forgets those under its URL with and without the slash
/// at the end, and no others.
pub proof fn law_only_the_errors_of_a_page_are_cleared(
    errors: Seq<(Seq<char>, Seq<Seq<char>>)>,
    page: Seq<char>,
    other: Seq<char>,
)
    requires
        page.len() == 0 || page.last() != '/',
    ensures
        table::found(cleared(errors, page), page) is None,
        table::found(cleared(errors, page), page + "/"@) is None,
        other != page && other != page + "/"@ ==> table::found(cleared(errors, page), other)
            == table::found(errors, other),
        cleared(errors, page + "/"@) == cleared(errors, page),
{
    reveal_strlit("/");
    assert("/"@ =~= seq!['/']);
    text::law_trimming_takes_copies(seq![], page, '/');
    text::law_trimming_takes_copies(seq!['/'], page, '/');
    assert(page + Seq::<char>::empty() =~= page);
    let slashed = page + "/"@;
    assert(slashed.len() != page.len());
    table::law_removed_key_is_gone(errors, page);
    table::law_removed_key_is_gone(table::without_key(errors, page), slashed);
    table::law_removal_keeps_others(table::without_key(errors, page), slashed, page);
    if other != page && other != slashed {
        table::law_removal_keeps_others(errors, page, other);
        table::law_removal_keeps_others(table::without_key(errors, page), slashed, other);
    }
}

/// The errors that are entered are found under their pages, the last of each, and the
/// errors of other pages stay.
pub proof fn law_entered_errors_are_found(
    errors: Seq<(Seq<char>, Seq<Seq<char>>)>,
    news: Seq<(Seq<char>, Seq<char>)>,
    k: int,
    other: Seq<char>,
)
    ensures
        0 <= k < news.len() && (forall|j: int|
            k < j < news.len() ==> (#[trigger] news[j]).0 != news[k].0) ==> table::found(
            all_entered(errors, news),
            news[k].0,
        ) == Some(seq![news[k].1]),
        (forall|j: int| 0 <= j < news.len() ==> (#[trigger] news[j]).0 != other) ==> table::found(
            all_entered(errors, news),
            other,
        ) == table::found(errors, other),
    decreases news.len(),
{
    if news.len() > 0 {
        let front = news.drop_last();
        let before = all_entered(errors, front);
        let last = news.last();
        law_entered_errors_are_found(errors, front, k, other);
        table::law_entry_is_found(before, last.0, seq![last.1]);
        assert(news[news.len() - 1] == last);
        assert forall|j: int| 0 <= j < front.len() implies #[trigger] front[j] == news[j] by {}
        if 0 <= k < news.len() - 1 && forall|j: int|
            k < j < news.len() ==> (#[trigger] news[j]).0 != news[k].0 {
            assert(last.0 != news[k].0);
            assert forall|j: int| k < j < front.len() implies (#[trigger] front[j]).0
                != front[k].0 by {
                assert(news[j].0 != news[k].0);
            }
            table::law_entry_keeps_others(before, last.0, seq![last.1], news[k].0);
        }
        if forall|j: int| 0 <= j < news.len() ==> (#[trigger] news[j]).0 != other {
            assert forall|j: int| 0 <= j < front.len() implies (#[trigger] front[j]).0 != other by {
                assert(news[j].0 != other);
            }
            table::law_entry_keeps_others(before, last.0, seq![last.1], other);
        }
    }
}

/// Each planned page is reported once, as rebuilt or as failed.
pub proof fn law_each_planned_page_is_reported(
    plans: Seq<PagePlanView>,
    outcomes: Seq<RenderOutcome>,
    n: int,
)
    requires
        0 <= n <= plans.len(),
    ensures
        rebuilt_pages(plans, outcomes, n).len() + failed_pages(plans, outcomes, n).len() == n,
        (forall|k: int| 0 <= k < n ==> #[trigger] plans[k] is Failed) ==> rebuilt_pages(
            plans,
            outcomes,
            n,
        ).len() == 0,
        (forall|k: int| 0 <= k < n ==> #[trigger] plans[k] is Ready) && outcomes.len() >= n && (
        forall|k: int| 0 <= k < n ==> #[trigger] outcomes[k] is Written) ==> failed_pages(
            plans,
            outcomes,
            n,
        ).len() == 0 && forall|k: int|
            0 <= k < n ==> (#[trigger] rebuilt_pages(plans, outcomes, n)[k])
                == plans[k]->Ready_url,
    decreases n,
{
    if n > 0 {
        law_each_planned_page_is_reported(plans, outcomes, n - 1);
        if (forall|k: int| 0 <= k < n ==> #[trigger] plans[k] is Ready) && outcomes.len() >= n && (
        forall|k: int| 0 <= k < n ==> #[trigger] outcomes[k] is Written) {
            lemma_all_ready(plans, n - 1);
            assert(plans[n - 1] is Ready);
            assert(outcomes[n - 1] is Written);
            let before = rebuilt_pages(plans, outcomes, n - 1);
            let all = rebuilt_pages(plans, outcomes, n);
            assert forall|k: int| 0 <= k < n implies (#[trigger] all[k]) == plans[k]->Ready_url by {
                if k < n - 1 {
                    assert(all[k] == before[k]);
                }
            }
        }
        if forall|k: int| 0 <= k < n ==> #[trigger] plans[k] is Failed {
            assert(plans[n - 1] is Failed);
        }
    }
}

/// Where all pages are ready, as many are ready as there are.
proof fn lemma_all_ready(plans: Seq<PagePlanView>, n: int)
    requires
        0 <= n <= plans.len(),
        forall|k: int| 0 <= k < n ==> #[trigger] plans[k] is Ready,
    ensures
        ready_among(plans, n) == n,
    decreases n,
{
    if n > 0 {
        lemma_all_ready(plans, n - 1);
        assert(plans[n - 1] is Ready);
    }
}

/// A document can be rendered if and only if it has a stem, a URL and a file with a name,
/// and something is shown of it.
pub proof fn law_documents_that_can_be_rendered(c: Conductor, root: NodeId)
    ensures
        job_error(c, root) is None <==> {
            &&& node_store::attr_text(c.store, root, "stem"@) is Some
            &&& node_store::attr_text(c.store, root, "url"@) is Some
            &&& node_store::attr_text(c.store, root, "file"@) is Some
            &&& site::stem_of_path(node_store::attr_text(c.store, root, "file"@)->0) is Some
            &&& table::found(
                c.url_to_semantic@,
                node_store::attr_text(c.store, root, "url"@)->0,
            ) is Some
        },
{
}

/// A changed file is planned as the page of its document, ready where this can be
/// rendered; only ready pages are rendered. Files without a document are left out.
pub proof fn law_plan_of_one_file(c: Conductor, parts: Seq<Seq<char>>)
    ensures
        ({
            let plans = plans_for(c, seq![parts]);
            let jobs = jobs_for(c, seq![parts]);
            match table::found(c.path_to_doc_root@, parts) {
                None => plans.len() == 0 && jobs.len() == 0,
                Some(root) => {
                    &&& plans.len() == 1
                    &&& job_error(c, root) is Some ==> plans[0] is Failed && jobs.len() == 0
                    &&& job_error(c, root) is None ==> {
                        &&& plans[0] is Ready
                        &&& jobs.len() == 1
                        &&& Some(plans[0]->Ready_url) == node_store::attr_text(
                            c.store,
                            root,
                            "url"@,
                        )
                        &&& Some(plans[0]->Ready_stem) == node_store::attr_text(
                            c.store,
                            root,
                            "stem"@,
                        )
                        &&& jobs[0].url == plans[0]->Ready_url
                        &&& jobs[0].stem == plans[0]->Ready_stem
                        &&& Some(jobs[0].semantic) == table::found(c.url_to_semantic@, jobs[0].url)
                        &&& Some(jobs[0].slug) == site::stem_of_path(
                            node_store::attr_text(c.store, root, "file"@)->0,
                        )
                    }
                },
            }
        }),
{
    let one = seq![parts];
    assert(one.drop_last() =~= seq![]);
    assert(plans_for(c, one.drop_last()) =~= seq![]);
    assert(jobs_for(c, one.drop_last()) =~= seq![]);
    assert(one.last() == parts);
}

/// Files are planned one behind the other.
pub proof fn law_plans_keep_the_order_of_files(
    c: Conductor,
    a: Seq<Seq<Seq<char>>>,
    b: Seq<Seq<Seq<char>>>,
)
    ensures
        plans_for(c, a + b) == plans_for(c, a) + plans_for(c, b),
        jobs_for(c, a + b) == jobs_for(c, a) + jobs_for(c, b),
    decreases b.len(),
{
    if b.len() == 0 {
        assert(a + b =~= a);
        assert(plans_for(c, a) + plans_for(c, b) =~= plans_for(c, a));
        assert(jobs_for(c, a) + jobs_for(c, b) =~= jobs_for(c, a));
    } else {
        law_plans_keep_the_order_of_files(c, a, b.drop_last());
        assert((a + b).drop_last() =~= a + b.drop_last());
        assert((a + b).last() == b.last());
        assert(plans_for(c, a + b) =~= plans_for(c, a) + plans_for(c, b));
        assert(jobs_for(c, a + b) =~= jobs_for(c, a) + jobs_for(c, b));
    }
}

/// After a build it is told which pages were rebuilt, where there are any or the
/// stylesheet changed, and which failed, where there are any; and nothing else.
pub proof fn law_what_is_told_of_a_build(
    events: Seq<ConductorEvent>,
    rebuilt: Seq<Seq<char>>,
    failed: Seq<Seq<char>>,
    stylesheet: bool,
)
    requires
        tells_build(events, rebuilt, failed, stylesheet),
    ensures
        rebuilt.len() == 0 && failed.len() == 0 && !stylesheet ==> events.len() == 0,
        rebuilt.len() > 0 || stylesheet ==> events.len() > 0 && events[0] is PagesRebuilt
            && text::texts(events[0]->PagesRebuilt_pages@) == rebuilt,
        failed.len() > 0 ==> events.len() > 0 && events.last() is BuildFailed && text::texts(
            events.last()->error_pages@,
        ) == failed,
        failed.len() == 0 ==> events.len() <= 1,
        events.len() <= 2,
{
}

/// To place a document changes where pages and files are looked up, and nothing else.
pub proof fn law_placing_changes_only_where_things_are(
    before: Conductor,
    meta: DocumentMeta,
    root: NodeId,
    after: Conductor,
)
    requires
        is_placed(before, meta, root, after),
    ensures
        after.store == before.store,
        after.schemas == before.schemas,
        after.site_dir == before.site_dir,
        after.doc_sources == before.doc_sources,
        after.dirty_docs == before.dirty_docs,
        after.url_to_semantic == before.url_to_semantic,
        after.suggestions == before.suggestions,
        after.ned_suggestions == before.ned_suggestions,
        after.build_errors == before.build_errors,
        after.dep_graph == before.dep_graph,
        after.self_writes == before.self_writes,
{
}

/// A job is that of its document: it has the stem and the URL that the document has, the
/// name of its file as its slug, and what is shown under the URL. There is no other job for
/// the same document.
pub proof fn law_job_is_that_of_its_document(c: Conductor, root: NodeId, a: PageJob, b: PageJob)
    requires
        is_job_for(c, root, a),
        is_job_for(c, root, b),
    ensures
        node_store::attr_text(c.store, root, "stem"@) == Some(a.stem@),
        node_store::attr_text(c.store, root, "url"@) == Some(a.url@),
        table::found(c.url_to_semantic@, a.url@) == Some(a.semantic),
        a.stem@ == b.stem@,
        a.url@ == b.url@,
        a.slug@ == b.slug@,
        a.semantic == b.semantic,
        a.templates@ == b.templates@,
        job_error(c, root) is None,
{
}

} // verus!
