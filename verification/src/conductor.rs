//! The state that the conductor keeps of a site, and what it knows of the pages.

use vstd::prelude::*;

use crate::content_editor;
use crate::content_editor::text_before;
use crate::dep_graph::DependencyGraph;
use crate::dirty::DirtyDocs;
use crate::editorial::{NedSuggestion, Suggestion};
use crate::node_store;
use crate::node_store::{
    find_attr_text, find_document_title, link_targets, NodeId, NodeStore,
};
use crate::order;
use crate::order::sort_texts;
use crate::path::SitePath;
use crate::protocol::LinkOption;
use crate::ranked;
use crate::ranked::{ranked_set, Ranked};
use crate::schema::{Element, Grammar};
use crate::self_write_tracker::SelfWriteTracker;
use crate::site;
use crate::site::{all_together, segment_behind, together};
use crate::slot_editor;
use crate::slot_editor::find_grammar_slot;
use crate::table;
use crate::table::Table;
use crate::text;
use crate::text::{
    contains, ends_with, same, split, starts_with, strip_prefix, strip_suffix, trim_end_matches,
};

verus! {

/// Why a schema could not be read: as it is told, and as it is shown for
/// debugging.
#[derive(Debug, PartialEq, Eq)]
pub struct SchemaError {
    pub message: String,
    pub debug: String,
}

/// A schema as it was written, and the grammar that it was read as, or the
/// reason why it could not be read.
#[derive(Debug)]
pub struct SchemaEntry {
    pub source: String,
    pub grammar: Result<Grammar, SchemaError>,
}

/// A text that an editor has not saved yet, and its file, as it was written when the
/// text was held first.
#[derive(Debug)]
pub struct Buffer {
    pub path: String,
    pub text: String,
}

/// What the conductor keeps of a site.
#[derive(Debug)]
pub struct Conductor {
    /// Where the site lies.
    pub site_dir: String,
    /// The schemas: those of items by their stem, those of collections by the
    /// stem and `/index`.
    pub schemas: Table<String, SchemaEntry>,
    /// The texts that editors have not saved yet.
    pub doc_sources: Table<SitePath, Buffer>,
    pub suggestions: Table<String, Suggestion>,
    pub ned_suggestions: Table<String, NedSuggestion>,
    /// The pages that could not be built, each with the reasons.
    pub build_errors: Table<String, Vec<String>>,
    /// The documents as nodes.
    pub store: NodeStore,
    /// The document at each URL.
    pub url_to_root: Table<String, NodeId>,
    /// What is shown of the document at each URL.
    pub url_to_semantic: Table<String, NodeId>,
    /// The documents of each stem.
    pub stem_to_roots: Table<String, Vec<NodeId>>,
    /// The document in each file; the paths are relative to the site.
    pub path_to_doc_root: Table<SitePath, NodeId>,
    /// The documents that were changed as nodes since they were last saved.
    pub dirty_docs: DirtyDocs,
    /// The files that the conductor wrote itself.
    pub self_writes: SelfWriteTracker,
    /// The files that each page was built from.
    pub dep_graph: DependencyGraph,
}

/// A link from one page to another.
#[derive(Debug, PartialEq, Eq)]
pub struct PageEdge {
    pub source: String,
    pub target: String,
}

impl View for PageEdge {
    type V = (Seq<char>, Seq<char>);

    open spec fn view(&self) -> (Seq<char>, Seq<char>) {
        (self.source@, self.target@)
    }
}

impl Ranked for PageEdge {
    open spec fn ranks(a: (Seq<char>, Seq<char>), b: (Seq<char>, Seq<char>)) -> bool {
        if a.0 == b.0 {
            order::text_le(a.1, b.1)
        } else {
            order::text_le(a.0, b.0)
        }
    }

    fn ranks_first(&self, other: &Self) -> (r: bool) {
        if same(self.source.as_str(), other.source.as_str()) {
            order::less_or_same(self.target.as_str(), other.target.as_str())
        } else {
            order::less_or_same(self.source.as_str(), other.source.as_str())
        }
    }

    proof fn ranks_total(a: (Seq<char>, Seq<char>), b: (Seq<char>, Seq<char>)) {
        order::lemma_text_le_total(a.0, b.0);
        order::lemma_text_le_total(a.1, b.1);
    }

    proof fn ranks_transitive(
        a: (Seq<char>, Seq<char>),
        b: (Seq<char>, Seq<char>),
        c: (Seq<char>, Seq<char>),
    ) {
        if a.0 == b.0 && b.0 == c.0 {
            order::lemma_text_le_transitive(a.1, b.1, c.1);
        } else if a.0 != b.0 && b.0 != c.0 {
            order::lemma_text_le_transitive(a.0, b.0, c.0);
            if a.0 == c.0 {
                order::lemma_text_le_antisymmetric(a.0, b.0);
            }
        }
    }

    proof fn ranks_antisymmetric(a: (Seq<char>, Seq<char>), b: (Seq<char>, Seq<char>)) {
        if a.0 == b.0 {
            order::lemma_text_le_antisymmetric(a.1, b.1);
        } else {
            order::lemma_text_le_antisymmetric(a.0, b.0);
        }
        assert(a == b);
    }
}

/// The source of a schema.
pub open spec fn source_of(schemas: Seq<(Seq<char>, SchemaEntry)>, key: Seq<char>) -> Option<
    Seq<char>,
> {
    match table::found(schemas, key) {
        Some(entry) => Some(entry.source@),
        None => None,
    }
}

/// The grammar of a schema that could be read.
pub open spec fn grammar_of(schemas: Seq<(Seq<char>, SchemaEntry)>, key: Seq<char>) -> Option<
    Grammar,
> {
    match table::found(schemas, key) {
        Some(entry) => match entry.grammar {
            Ok(grammar) => Some(grammar),
            Err(_) => None,
        },
        None => None,
    }
}

/// The documents of a stem.
pub open spec fn roots_of(entries: Seq<(Seq<char>, Vec<NodeId>)>, stem: Seq<char>) -> Seq<NodeId> {
    match table::found(entries, stem) {
        Some(roots) => roots@,
        None => seq![],
    }
}

/// `s` without the given suffix, as often as it occurs at the end.
pub open spec fn without_suffixes(s: Seq<char>, p: Seq<char>) -> Seq<char>
    decreases s.len(),
{
    if p.len() > 0 && text::finishes_with(s, p) {
        without_suffixes(s.take(s.len() - p.len()), p)
    } else {
        s
    }
}

/// `s` without the given suffix, as often as it occurs at the end.
pub fn trim_end_text(s: &str, p: &str) -> (r: String)
    requires
        p@.len() > 0,
    ensures
        r@ == without_suffixes(s@, p@),
{
    let mut out = s.to_owned();
    while ends_with(out.as_str(), p)
        invariant
            p@.len() > 0,
            without_suffixes(out@, p@) == without_suffixes(s@, p@),
        decreases out@.len(),
    {
        match strip_suffix(out.as_str(), p) {
            Some(rest) => {
                out = rest;
            },
            None => {
                return out;
            },
        }
    }
    out
}

/// The URL of a page without the name of its index file and its last slashes.
pub open spec fn bare_url(url: Seq<char>) -> Seq<char> {
    text::trim_end_char(
        without_suffixes(without_suffixes(url, "index.html"@), "index.htm"@),
        '/',
    )
}

/// The document that a URL leads to: that of the collection comes first, then that
/// without a slash at the end, then that of the URL as it is.
pub open spec fn root_at(urls: Seq<(Seq<char>, NodeId)>, url: Seq<char>) -> Option<NodeId> {
    let base = bare_url(url);
    let with_slash = base + "/"@;
    if table::found(urls, with_slash) is Some {
        table::found(urls, with_slash)
    } else if table::found(urls, base) is Some {
        table::found(urls, base)
    } else {
        table::found(urls, url)
    }
}

/// The URL of the schema of a document.
pub open spec fn schema_url_of(store: NodeStore, root: NodeId) -> Option<Seq<char>> {
    match (node_store::attr_text(store, root, "stem"@), node_store::attr_text(
        store,
        root,
        "page-kind"@,
    )) {
        (Some(stem), Some(kind)) => {
            let segment = if kind == "collection"@ {
                "index"@
            } else {
                "item"@
            };
            Some(
                if stem.len() == 0 {
                    "/_schema/"@ + segment
                } else {
                    "/_schema/"@ + stem + "/"@ + segment
                },
            )
        },
        _ => None,
    }
}

/// Whether a document is the page of an item.
pub open spec fn is_item(store: NodeStore, root: NodeId) -> bool {
    node_store::attr_text(store, root, "page-kind"@) == Some("item"@)
}

/// The URLs of the items among the given documents, in order.
pub open spec fn item_urls(store: NodeStore, roots: Seq<NodeId>) -> Seq<Seq<char>>
    decreases roots.len(),
{
    if roots.len() == 0 {
        seq![]
    } else {
        let before = item_urls(store, roots.drop_last());
        match node_store::attr_text(store, roots.last(), "url"@) {
            Some(url) => if is_item(store, roots.last()) {
                before.push(url)
            } else {
                before
            },
            None => before,
        }
    }
}

/// The strings among the given ones that are not empty, in order.
pub open spec fn filled_among(parts: Seq<Seq<char>>) -> Seq<Seq<char>>
    decreases parts.len(),
{
    if parts.len() == 0 {
        seq![]
    } else if parts.last().len() == 0 {
        filled_among(parts.drop_last())
    } else {
        filled_among(parts.drop_last()).push(parts.last())
    }
}

/// What is found of the page for a schema.
pub open spec fn page_for_schema(
    store: NodeStore,
    urls: Seq<(Seq<char>, NodeId)>,
    stems: Seq<(Seq<char>, Vec<NodeId>)>,
    schema_url: Seq<char>,
) -> Option<Seq<char>> {
    match text::without_prefix(schema_url, "/_schema/"@) {
        None => None,
        Some(rest) => {
            let parts = filled_among(text::split_of(rest, '/'));
            if parts == seq!["index"@] {
                Some("/"@)
            } else if parts.len() == 2 && parts[1] == "index"@ {
                let collection = "/"@ + parts[0] + "/"@;
                if table::has_key(urls, collection) {
                    Some(collection)
                } else {
                    None
                }
            } else if parts.len() == 2 && parts[1] == "item"@ {
                let collection = "/"@ + parts[0] + "/"@;
                let items = order::sorted_texts(item_urls(store, roots_of(stems, parts[0])));
                if table::has_key(urls, collection) {
                    Some(collection)
                } else if items.len() > 0 {
                    Some(items[0])
                } else {
                    None
                }
            } else {
                None
            }
        },
    }
}

/// The URLs that lead to items, in the order of the table.
pub open spec fn item_keys(store: NodeStore, urls: Seq<(Seq<char>, NodeId)>) -> Seq<Seq<char>>
    decreases urls.len(),
{
    if urls.len() == 0 {
        seq![]
    } else if is_item(store, urls.last().1) {
        item_keys(store, urls.drop_last()).push(urls.last().0)
    } else {
        item_keys(store, urls.drop_last())
    }
}

/// The first URL that leads to the given node.
pub open spec fn url_to(urls: Seq<(Seq<char>, NodeId)>, id: NodeId) -> Option<Seq<char>>
    decreases urls.len(),
{
    if urls.len() == 0 {
        None
    } else if urls[0].1 == id {
        Some(urls[0].0)
    } else {
        url_to(urls.skip(1), id)
    }
}

/// The page that a node is shown or kept at.
pub open spec fn page_of_node(
    urls: Seq<(Seq<char>, NodeId)>,
    semantics: Seq<(Seq<char>, NodeId)>,
    id: NodeId,
) -> Option<Seq<char>> {
    match url_to(urls, id) {
        Some(url) => Some(url),
        None => url_to(semantics, id),
    }
}

/// The page of the site that the address at a node leads to.
pub open spec fn known_href(
    store: NodeStore,
    urls: Seq<(Seq<char>, NodeId)>,
    id: NodeId,
) -> Option<Seq<char>> {
    match node_store::attr_text(store, id, "href"@) {
        Some(href) => if table::has_key(urls, href) {
            Some(href)
        } else {
            None
        },
        None => None,
    }
}

/// Whether a node that a page refers to leads to another page.
pub open spec fn reference_leads(c: Conductor, id: NodeId, target: Seq<char>) -> bool {
    ||| page_of_node(c.url_to_root@, c.url_to_semantic@, id) == Some(target)
    ||| known_href(c.store, c.url_to_root@, id) == Some(target)
}

/// Whether what is shown of a page links it to another page: by a reference, or by
/// a part with an address other than its own.
pub open spec fn shown_edge(c: Conductor, k: int, edge: (Seq<char>, Seq<char>)) -> bool {
    let entry = c.url_to_semantic@[k];
    let edges = node_store::edges_at(c.store, entry.1);
    &&& edge.0 == entry.0
    &&& {
        ||| exists|i: int|
            0 <= i < node_store::reference_ends(edges).len() && reference_leads(
                c,
                #[trigger] node_store::reference_ends(edges)[i],
                edge.1,
            )
        ||| exists|i: int|
            0 <= i < node_store::part_ends(edges).len() && known_href(
                c.store,
                c.url_to_root@,
                #[trigger] node_store::part_ends(edges)[i],
            ) == Some(edge.1) && edge.1 != entry.0
    }
}

/// Whether a link expression in a document links its page to another page.
pub open spec fn written_edge(c: Conductor, k: int, edge: (Seq<char>, Seq<char>)) -> bool {
    let entry = c.url_to_root@[k];
    edge.0 == entry.0 && node_store::targets_below(
        c.store,
        entry.1,
        c.store.nodes@.len(),
    ).contains(edge.1)
}

/// Whether one page links to another.
pub open spec fn is_page_edge(c: Conductor, edge: (Seq<char>, Seq<char>)) -> bool {
    ||| exists|k: int| 0 <= k < c.url_to_semantic@.len() && #[trigger] shown_edge(c, k, edge)
    ||| exists|k: int| 0 <= k < c.url_to_root@.len() && #[trigger] written_edge(c, k, edge)
}

impl Conductor {
    /// The state of a site of which nothing is known yet. Events for files that
    /// the conductor wrote are suppressed for five seconds.
    pub fn new(site_dir: &str) -> (r: Conductor)
        ensures
            r.site_dir@ == site_dir@,
            r.schemas@.len() == 0,
            r.doc_sources@.len() == 0,
            r.suggestions@.len() == 0,
            r.ned_suggestions@.len() == 0,
            r.build_errors@.len() == 0,
            r.store.nodes@.len() == 0,
            r.url_to_root@.len() == 0,
            r.url_to_semantic@.len() == 0,
            r.stem_to_roots@.len() == 0,
            r.path_to_doc_root@.len() == 0,
            r.dirty_docs@ == Map::<Seq<Seq<char>>, Seq<char>>::empty(),
            r.self_writes@.dom() =~= Set::empty(),
            r.self_writes.window() == 5_000_000_000,
            r.dep_graph@ == Map::<Seq<Seq<char>>, Set<Seq<Seq<char>>>>::empty(),
    {
        Conductor {
            site_dir: site_dir.to_owned(),
            schemas: Table::new(),
            doc_sources: Table::new(),
            suggestions: Table::new(),
            ned_suggestions: Table::new(),
            build_errors: Table::new(),
            store: NodeStore::new(),
            url_to_root: Table::new(),
            url_to_semantic: Table::new(),
            stem_to_roots: Table::new(),
            path_to_doc_root: Table::new(),
            dirty_docs: DirtyDocs::new(),
            self_writes: SelfWriteTracker::new(5_000_000_000),
            dep_graph: DependencyGraph::new(),
        }
    }

    /// Where the site lies.
    pub fn site_dir(&self) -> (r: &str)
        ensures
            r@ == self.site_dir@,
    {
        self.site_dir.as_str()
    }

    /// The documents as nodes.
    pub fn node_store(&self) -> (r: &NodeStore)
        ensures
            *r == self.store,
    {
        &self.store
    }

    /// The documents that were changed as nodes since they were last saved.
    pub fn dirty_docs(&self) -> (r: &DirtyDocs)
        ensures
            *r == self.dirty_docs,
    {
        &self.dirty_docs
    }

    /// Get cached schema source for a stem.
    pub fn schema_source(&self, stem: &str) -> (r: Option<String>)
        ensures
            text::opt_text(r) == source_of(self.schemas@, stem@),
    {
        match self.schemas.get(&stem.to_owned()) {
            Some(entry) => Some(entry.source.clone()),
            None => None,
        }
    }

    /// Look up a document root by URL path.
    pub fn document_by_url(&self, url: &str) -> (r: Option<NodeId>)
        ensures
            r == table::found(self.url_to_root@, url@),
    {
        match self.url_to_root.get(&url.to_owned()) {
            Some(id) => Some(*id),
            None => None,
        }
    }

    /// Look up what is shown of a document by URL path.
    pub fn semantic_content_by_url(&self, url: &str) -> (r: Option<NodeId>)
        ensures
            r == table::found(self.url_to_semantic@, url@),
    {
        match self.url_to_semantic.get(&url.to_owned()) {
            Some(id) => Some(*id),
            None => None,
        }
    }

    /// Look up a document root by content file path, relative to the site.
    pub fn doc_root_for_path(&self, content_path: &SitePath) -> (r: Option<NodeId>)
        ensures
            r == table::found(self.path_to_doc_root@, content_path@),
    {
        match self.path_to_doc_root.get(content_path) {
            Some(id) => Some(*id),
            None => None,
        }
    }

    /// Get all document roots for a given schema stem.
    pub fn documents_for_stem(&self, stem: &str) -> (r: Vec<NodeId>)
        ensures
            r@ == roots_of(self.stem_to_roots@, stem@),
    {
        match self.stem_to_roots.get(&stem.to_owned()) {
            Some(roots) => copy_ids(roots),
            None => Vec::new(),
        }
    }

    /// Resolve the canonical schema URL for a given content page URL.
    ///
    /// Canonicalizes the URL (strips trailing `index.html`/`index.htm`, tries
    /// with/without trailing slash), looks up the page, reads its stem and kind,
    /// and constructs the `/_schema/<stem>/<index|item>` URL.
    ///
    /// Returns `None` if the page is not known.
    pub fn schema_url_for_page(&self, page_url: &str) -> (r: Option<String>)
        ensures
            text::opt_text(r) == match root_at(self.url_to_root@, page_url@) {
                Some(root) => schema_url_of(self.store, root),
                None => None,
            },
    {
        proof {
            reveal_strlit("index.html");
            reveal_strlit("index.htm");
        }
        let stripped = trim_end_text(page_url, "index.html");
        let stripped = trim_end_text(stripped.as_str(), "index.htm");
        let base = trim_end_matches(stripped.as_str(), '/');
        let with_slash = together(base.as_str(), "/");
        let mut root = self.document_by_url(with_slash.as_str());
        if root.is_none() {
            root = self.document_by_url(base.as_str());
        }
        if root.is_none() {
            root = self.document_by_url(page_url);
        }
        match root {
            None => None,
            Some(root) => {
                let stem = find_attr_text(&self.store, root, "stem");
                let kind = find_attr_text(&self.store, root, "page-kind");
                match (stem, kind) {
                    (Some(stem), Some(kind)) => {
                        let segment = if same(kind.as_str(), "collection") {
                            "index"
                        } else {
                            "item"
                        };
                        if stem.as_str().is_empty() {
                            Some(together("/_schema/", segment))
                        } else {
                            let front = all_together("/_schema/", stem.as_str(), "/");
                            Some(together(front.as_str(), segment))
                        }
                    },
                    _ => None,
                }
            },
        }
    }

    /// The URLs of the items among the documents of a stem.
    pub fn item_urls_for_stem(&self, stem: &str) -> (r: Vec<String>)
        ensures
            text::texts(r@) == item_urls(self.store, roots_of(self.stem_to_roots@, stem@)),
    {
        let roots = self.documents_for_stem(stem);
        let mut out: Vec<String> = Vec::new();
        let mut i: usize = 0;
        proof {
            assert(roots@.take(0) =~= seq![]);
            assert(text::texts(out@) =~= item_urls(self.store, roots@.take(0)));
        }
        while i < roots.len()
            invariant
                i <= roots.len(),
                text::texts(out@) == item_urls(self.store, roots@.take(i as int)),
            decreases roots.len() - i,
        {
            proof {
                assert(roots@.take(i + 1).drop_last() =~= roots@.take(i as int));
                assert(roots@.take(i + 1).last() == roots@[i as int]);
            }
            let ghost before = out@;
            if root_is_item(&self.store, roots[i]) {
                if let Some(url) = find_attr_text(&self.store, roots[i], "url") {
                    out.push(url);
                    proof {
                        assert(text::texts(out@) =~= text::texts(before).push(url@));
                    }
                }
            }
            i += 1;
        }
        proof {
            assert(roots@.take(i as int) =~= roots@);
        }
        out
    }

    /// Resolve a best-effort representative content page URL for a given schema
    /// URL:
    /// - for the index of the root, `/`;
    /// - for the index of a stem, the page of the collection, if there is one;
    /// - for the items of a stem, the page of the collection, or the first item
    ///   by its URL.
    ///
    /// Returns `None` for malformed or unknown schema URLs.
    pub fn page_url_for_schema(&self, schema_url: &str) -> (r: Option<String>)
        ensures
            text::opt_text(r) == page_for_schema(
                self.store,
                self.url_to_root@,
                self.stem_to_roots@,
                schema_url@,
            ),
    {
        match strip_prefix(schema_url, "/_schema/") {
            None => None,
            Some(rest) => {
                let all = split(rest.as_str(), '/');
                let parts = filled(&all);
                let ghost views = filled_among(text::split_of(rest@, '/'));
                proof {
                    assert(views == text::texts(parts@));
                    assert forall|k: int| 0 <= k < parts@.len() implies #[trigger] views[k]
                        == parts@[k]@ by {}
                }
                if parts.len() == 1 {
                    if same(parts[0].as_str(), "index") {
                        proof {
                            assert(views =~= seq!["index"@]);
                        }
                        return Some("/".to_owned());
                    }
                    proof {
                        if views == seq!["index"@] {
                            assert(views[0] == "index"@);
                        }
                    }
                    return None;
                }
                if parts.len() != 2 {
                    return None;
                }
                let collection = all_together("/", parts[0].as_str(), "/");
                if same(parts[1].as_str(), "index") {
                    if self.url_to_root.contains_key(&collection) {
                        Some(collection)
                    } else {
                        None
                    }
                } else if same(parts[1].as_str(), "item") {
                    if self.url_to_root.contains_key(&collection) {
                        return Some(collection);
                    }
                    let items = self.item_urls_for_stem(parts[0].as_str());
                    let sorted = sort_texts(&items);
                    proof {
                        assert(text::texts(sorted@).len() == sorted@.len());
                    }
                    if sorted.len() > 0 {
                        proof {
                            assert(text::texts(sorted@)[0] == sorted@[0]@);
                        }
                        Some(sorted[0].clone())
                    } else {
                        None
                    }
                } else {
                    None
                }
            },
        }
    }

    /// List all content item URL paths, sorted.
    pub fn list_content_urls(&self) -> (r: Vec<String>)
        ensures
            text::texts(r@) == order::sorted_texts(item_keys(self.store, self.url_to_root@)),
    {
        let ghost all = self.url_to_root@;
        let mut out: Vec<String> = Vec::new();
        let mut i: usize = 0;
        proof {
            assert(all.take(0) =~= seq![]);
            assert(text::texts(out@) =~= item_keys(self.store, all.take(0)));
        }
        while i < self.url_to_root.len()
            invariant
                i <= self.url_to_root@.len(),
                all == self.url_to_root@,
                text::texts(out@) == item_keys(self.store, all.take(i as int)),
            decreases self.url_to_root@.len() - i,
        {
            let entry = self.url_to_root.entry(i);
            proof {
                assert(all.take(i + 1).drop_last() =~= all.take(i as int));
                assert(all.take(i + 1).last() == (entry.0@, entry.1));
            }
            let ghost before = out@;
            if root_is_item(&self.store, entry.1) {
                out.push(entry.0.clone());
                proof {
                    assert(text::texts(out@) =~= text::texts(before).push(entry.0@));
                }
            }
            i += 1;
        }
        proof {
            assert(all.take(i as int) =~= all);
        }
        sort_texts(&out)
    }

    /// Get a snapshot of the documents by URL.
    pub fn url_to_root_index(&self) -> (r: Vec<(String, NodeId)>)
        ensures
            table::entry_views(r@) == self.url_to_root@,
    {
        let mut out: Vec<(String, NodeId)> = Vec::new();
        let mut i: usize = 0;
        while i < self.url_to_root.len()
            invariant
                i <= self.url_to_root@.len(),
                out@.len() == i,
                forall|k: int|
                    0 <= k < i ==> (#[trigger] out@[k]).0@ == self.url_to_root@[k].0
                        && out@[k].1 == self.url_to_root@[k].1,
            decreases self.url_to_root@.len() - i,
        {
            let entry = self.url_to_root.entry(i);
            out.push((entry.0.clone(), entry.1));
            i += 1;
        }
        proof {
            assert(table::entry_views(out@) =~= self.url_to_root@);
        }
        out
    }
}

/// A copy of a list of node numbers.
pub fn copy_ids(ids: &Vec<NodeId>) -> (r: Vec<NodeId>)
    ensures
        r@ == ids@,
{
    let mut out: Vec<NodeId> = Vec::new();
    let mut i: usize = 0;
    while i < ids.len()
        invariant
            i <= ids.len(),
            out@ == ids@.take(i as int),
        decreases ids.len() - i,
    {
        out.push(ids[i]);
        proof {
            assert(ids@.take(i + 1) =~= ids@.take(i as int).push(ids@[i as int]));
        }
        i += 1;
    }
    proof {
        assert(ids@.take(i as int) =~= ids@);
    }
    out
}

/// Whether a document is the page of an item.
pub fn root_is_item(store: &NodeStore, root: NodeId) -> (r: bool)
    ensures
        r == is_item(*store, root),
{
    match find_attr_text(store, root, "page-kind") {
        Some(kind) => same(kind.as_str(), "item"),
        None => false,
    }
}

/// The strings among the given ones that are not empty, in order.
pub fn filled(parts: &Vec<String>) -> (r: Vec<String>)
    ensures
        text::texts(r@) == filled_among(text::texts(parts@)),
{
    let ghost all = text::texts(parts@);
    let mut out: Vec<String> = Vec::new();
    let mut i: usize = 0;
    proof {
        assert(all.take(0) =~= seq![]);
        assert(text::texts(out@) =~= filled_among(all.take(0)));
    }
    while i < parts.len()
        invariant
            i <= parts.len(),
            all == text::texts(parts@),
            text::texts(out@) == filled_among(all.take(i as int)),
        decreases parts.len() - i,
    {
        proof {
            assert(all.take(i + 1).drop_last() =~= all.take(i as int));
            assert(all.take(i + 1).last() == parts@[i as int]@);
        }
        if !parts[i].as_str().is_empty() {
            let ghost before = out@;
            out.push(parts[i].clone());
            proof {
                assert(text::texts(out@) =~= text::texts(before).push(parts@[i as int]@));
            }
        }
        i += 1;
    }
    proof {
        assert(all.take(i as int) =~= all);
    }
    out
}

/// Whether a list of links holds those that what is shown of the first pages
/// makes, and no others.
spec fn has_shown_edges(c: Conductor, list: Seq<(Seq<char>, Seq<char>)>, n: int) -> bool {
    &&& forall|e: (Seq<char>, Seq<char>)| #[trigger]
        list.contains(e) ==> is_page_edge(c, e)
    &&& forall|k: int, e: (Seq<char>, Seq<char>)|
        0 <= k < n && #[trigger] shown_edge(c, k, e) ==> list.contains(e)
}

/// Whether a list of links holds those that the first documents make, and no
/// others.
spec fn has_written_edges(c: Conductor, list: Seq<(Seq<char>, Seq<char>)>, n: int) -> bool {
    &&& forall|e: (Seq<char>, Seq<char>)| #[trigger]
        list.contains(e) ==> is_page_edge(c, e)
    &&& forall|k: int, e: (Seq<char>, Seq<char>)|
        0 <= k < n && #[trigger] written_edge(c, k, e) ==> list.contains(e)
}

/// What a list holds it still holds with one more item.
proof fn lemma_push_contains<A>(s: Seq<A>, x: A)
    ensures
        forall|y: A| #[trigger] s.push(x).contains(y) <==> s.contains(y) || y == x,
{
    assert forall|y: A| #[trigger] s.push(x).contains(y) <==> s.contains(y) || y == x by {
        if s.push(x).contains(y) {
            let i = choose|i: int| 0 <= i < s.push(x).len() && s.push(x)[i] == y;
            if i < s.len() {
                assert(s[i] == y);
            }
        }
        if s.contains(y) {
            let i = choose|i: int| 0 <= i < s.len() && s[i] == y;
            assert(s.push(x)[i] == y);
        }
        if y == x {
            assert(s.push(x)[s.len() as int] == y);
        }
    }
}

/// The first URL that leads to the given node.
fn find_url_to(urls: &Table<String, NodeId>, id: NodeId) -> (r: Option<String>)
    ensures
        text::opt_text(r) == url_to(urls@, id),
{
    let mut i: usize = 0;
    proof {
        assert(urls@.skip(0) =~= urls@);
    }
    while i < urls.len()
        invariant
            i <= urls@.len(),
            url_to(urls@.skip(i as int), id) == url_to(urls@, id),
        decreases urls@.len() - i,
    {
        let entry = urls.entry(i);
        proof {
            assert(urls@.skip(i as int)[0] == (entry.0@, entry.1));
            assert(urls@.skip(i as int).skip(1) =~= urls@.skip(i + 1));
        }
        if entry.1 == id {
            return Some(entry.0.clone());
        }
        i += 1;
    }
    None
}

/// Add a link to a list.
fn push_edge(edges: &mut Vec<PageEdge>, source: &String, target: String)
    ensures
        ranked::views(final(edges)@) == ranked::views(old(edges)@).push((source@, target@)),
{
    let ghost before = edges@;
    edges.push(PageEdge { source: source.clone(), target });
    proof {
        assert(ranked::views(edges@) =~= ranked::views(before).push((source@, target@)));
    }
}

impl Conductor {
    /// The page of the site that the address at a node leads to.
    fn find_known_href(&self, id: NodeId) -> (r: Option<String>)
        ensures
            text::opt_text(r) == known_href(self.store, self.url_to_root@, id),
    {
        match find_attr_text(&self.store, id, "href") {
            Some(href) => if self.url_to_root.contains_key(&href) {
                Some(href)
            } else {
                None
            },
            None => None,
        }
    }

    /// Add the links that what is shown of a page makes.
    fn add_shown_edges(&self, k: usize, edges: &mut Vec<PageEdge>)
        requires
            k < self.url_to_semantic@.len(),
            has_shown_edges(*self, ranked::views(old(edges)@), k as int),
        ensures
            has_shown_edges(*self, ranked::views(final(edges)@), k + 1),
    {
        let source = &self.url_to_semantic.entry(k).0;
        let sem = self.url_to_semantic.entry(k).1;
        let ghost entry = self.url_to_semantic@[k as int];
        let ghost own = node_store::edges_at(self.store, sem);
        let refs = self.store.references(sem);
        let mut i: usize = 0;
        while i < refs.len()
            invariant
                i <= refs.len(),
                k < self.url_to_semantic@.len(),
                entry == self.url_to_semantic@[k as int],
                entry == (source@, sem),
                own == node_store::edges_at(self.store, entry.1),
                refs@ == node_store::reference_ends(own),
                has_shown_edges(*self, ranked::views(edges@), k as int),
                forall|j: int, target: Seq<char>|
                    0 <= j < i && #[trigger] reference_leads(
                        *self,
                        node_store::reference_ends(own)[j],
                        target,
                    ) ==> ranked::views(edges@).contains((entry.0, target)),
            decreases refs.len() - i,
        {
            let id = refs[i];
            let mut page = find_url_to(&self.url_to_root, id);
            if page.is_none() {
                page = find_url_to(&self.url_to_semantic, id);
            }
            proof {
                assert(node_store::reference_ends(own)[i as int] == id);
            }
            if let Some(url) = page {
                proof {
                    lemma_push_contains(ranked::views(edges@), (entry.0, url@));
                    assert(reference_leads(*self, node_store::reference_ends(own)[i as int], url@));
                    assert(shown_edge(*self, k as int, (entry.0, url@)));
                }
                push_edge(edges, source, url);
            }
            if let Some(href) = self.find_known_href(id) {
                proof {
                    lemma_push_contains(ranked::views(edges@), (entry.0, href@));
                    assert(reference_leads(*self, node_store::reference_ends(own)[i as int], href@));
                    assert(shown_edge(*self, k as int, (entry.0, href@)));
                }
                push_edge(edges, source, href);
            }
            i += 1;
        }
        let parts = self.store.consists_of(sem);
        i = 0;
        while i < parts.len()
            invariant
                i <= parts.len(),
                k < self.url_to_semantic@.len(),
                entry == self.url_to_semantic@[k as int],
                entry == (source@, sem),
                own == node_store::edges_at(self.store, entry.1),
                parts@ == node_store::part_ends(own),
                has_shown_edges(*self, ranked::views(edges@), k as int),
                forall|j: int, target: Seq<char>|
                    0 <= j < node_store::reference_ends(own).len() && #[trigger] reference_leads(
                        *self,
                        node_store::reference_ends(own)[j],
                        target,
                    ) ==> ranked::views(edges@).contains((entry.0, target)),
                forall|j: int|
                    0 <= j < i ==> part_is_listed(
                        *self,
                        ranked::views(edges@),
                        entry.0,
                        #[trigger] node_store::part_ends(own)[j],
                    ),
            decreases parts.len() - i,
        {
            let id = parts[i];
            proof {
                assert(node_store::part_ends(own)[i as int] == id);
            }
            if let Some(href) = self.find_known_href(id) {
                if !same(href.as_str(), source.as_str()) {
                    proof {
                        lemma_push_contains(ranked::views(edges@), (entry.0, href@));
                        assert(shown_edge(*self, k as int, (entry.0, href@)));
                    }
                    push_edge(edges, source, href);
                }
            }
            i += 1;
        }
        proof {
            let list = ranked::views(edges@);
            assert forall|j: int, e: (Seq<char>, Seq<char>)|
                0 <= j < k + 1 && #[trigger] shown_edge(*self, j, e) implies list.contains(e) by {
                if j == k {
                    if exists|m: int|
                        0 <= m < node_store::reference_ends(own).len() && reference_leads(
                            *self,
                            #[trigger] node_store::reference_ends(own)[m],
                            e.1,
                        ) {
                        let m = choose|m: int|
                            0 <= m < node_store::reference_ends(own).len() && reference_leads(
                                *self,
                                #[trigger] node_store::reference_ends(own)[m],
                                e.1,
                            );
                        assert(list.contains((entry.0, e.1)));
                    } else {
                        let m = choose|m: int|
                            0 <= m < node_store::part_ends(own).len() && known_href(
                                self.store,
                                self.url_to_root@,
                                #[trigger] node_store::part_ends(own)[m],
                            ) == Some(e.1) && e.1 != entry.0;
                        assert(part_is_listed(
                            *self,
                            list,
                            entry.0,
                            node_store::part_ends(own)[m],
                        ));
                    }
                    assert(e == (entry.0, e.1));
                }
            }
        }
    }

    /// All links between pages, sorted, each once: those that what is shown of
    /// the pages makes, and those of the link expressions in their documents.
    pub fn collect_all_edges(&self) -> (r: Vec<PageEdge>)
        ensures
            ranked::in_rank::<PageEdge>(ranked::views(r@)),
            forall|e: (Seq<char>, Seq<char>)| #[trigger]
                ranked::views(r@).contains(e) <==> is_page_edge(*self, e),
    {
        let mut edges: Vec<PageEdge> = Vec::new();
        let mut k: usize = 0;
        while k < self.url_to_semantic.len()
            invariant
                k <= self.url_to_semantic@.len(),
                has_shown_edges(*self, ranked::views(edges@), k as int),
            decreases self.url_to_semantic@.len() - k,
        {
            self.add_shown_edges(k, &mut edges);
            k += 1;
        }
        let n: usize = k;
        k = 0;
        while k < self.url_to_root.len()
            invariant
                k <= self.url_to_root@.len(),
                self.url_to_root@.len() == self.url_to_root@.len(),
                n == self.url_to_semantic@.len(),
                has_shown_edges(*self, ranked::views(edges@), n as int),
                has_written_edges(*self, ranked::views(edges@), k as int),
            decreases self.url_to_root@.len() - k,
        {
            let url = &self.url_to_root.entry(k).0;
            let targets = link_targets(&self.store, self.url_to_root.entry(k).1);
            let ghost entry = self.url_to_root@[k as int];
            let ghost all = text::texts(targets@);
            let mut i: usize = 0;
            while i < targets.len()
                invariant
                    i <= targets.len(),
                    k < self.url_to_root@.len(),
                    entry == self.url_to_root@[k as int],
                    entry.0 == url@,
                    all == text::texts(targets@),
                    all == node_store::targets_below(
                        self.store,
                        entry.1,
                        self.store.nodes@.len(),
                    ),
                    has_shown_edges(*self, ranked::views(edges@), n as int),
                    has_written_edges(*self, ranked::views(edges@), k as int),
                    forall|j: int|
                        0 <= j < i ==> ranked::views(edges@).contains((entry.0, #[trigger] all[j])),
                decreases targets.len() - i,
            {
                proof {
                    lemma_push_contains(ranked::views(edges@), (entry.0, targets@[i as int]@));
                    assert(all[i as int] == targets@[i as int]@);
                    assert(written_edge(*self, k as int, (entry.0, targets@[i as int]@)));
                }
                push_edge(&mut edges, url, targets[i].clone());
                i += 1;
            }
            proof {
                let list = ranked::views(edges@);
                assert forall|j: int, e: (Seq<char>, Seq<char>)|
                    0 <= j < k + 1 && #[trigger] written_edge(
                        *self,
                        j,
                        e,
                    ) implies list.contains(e) by {
                    if j == k {
                        let m = choose|m: int| 0 <= m < all.len() && all[m] == e.1;
                        assert(list.contains((entry.0, all[m])));
                        assert(e == (entry.0, e.1));
                    }
                }
            }
            k += 1;
        }
        let ghost raw = ranked::views(edges@);
        let out = ranked_set(edges);
        proof {
            assert forall|e: (Seq<char>, Seq<char>)| #[trigger]
                ranked::views(out@).contains(e) <==> is_page_edge(*self, e) by {
                assert(ranked::views(out@).to_set().contains(e) <==> raw.to_set().contains(e));
                if is_page_edge(*self, e) {
                    assert(raw.contains(e));
                }
            }
        }
        out
    }

    /// Return all edges pointing TO the given URL path, sorted, each once.
    pub fn query_edges_to(&self, target_url: &str) -> (r: Vec<PageEdge>)
        ensures
            ranked::in_rank::<PageEdge>(ranked::views(r@)),
            forall|e: (Seq<char>, Seq<char>)| #[trigger]
                ranked::views(r@).contains(e) <==> is_page_edge(*self, e) && e.1 == target_url@,
    {
        let edges = self.collect_all_edges();
        pick_edges(edges, target_url, true)
    }

    /// Return all edges originating FROM the given URL path, sorted, each once.
    pub fn query_edges_from(&self, source_url: &str) -> (r: Vec<PageEdge>)
        ensures
            ranked::in_rank::<PageEdge>(ranked::views(r@)),
            forall|e: (Seq<char>, Seq<char>)| #[trigger]
                ranked::views(r@).contains(e) <==> is_page_edge(*self, e) && e.0 == source_url@,
    {
        let edges = self.collect_all_edges();
        pick_edges(edges, source_url, false)
    }
}

/// Whether a part of a page that leads to another page is among the links.
spec fn part_is_listed(
    c: Conductor,
    list: Seq<(Seq<char>, Seq<char>)>,
    source: Seq<char>,
    id: NodeId,
) -> bool {
    match known_href(c.store, c.url_to_root@, id) {
        Some(href) => href != source ==> list.contains((source, href)),
        None => true,
    }
}

/// The end of a link.
spec fn edge_end(e: (Seq<char>, Seq<char>), target: bool) -> Seq<char> {
    if target {
        e.1
    } else {
        e.0
    }
}

/// The links of a sorted list that end at the given page: as their target, or as
/// their source.
fn pick_edges(edges: Vec<PageEdge>, url: &str, target: bool) -> (r: Vec<PageEdge>)
    requires
        ranked::in_rank::<PageEdge>(ranked::views(edges@)),
    ensures
        ranked::in_rank::<PageEdge>(ranked::views(r@)),
        forall|e: (Seq<char>, Seq<char>)| #[trigger]
            ranked::views(r@).contains(e) <==> ranked::views(edges@).contains(e) && edge_end(
                e,
                target,
            ) == url@,
{
    let ghost all = ranked::views(edges@);
    let mut kept: Vec<PageEdge> = Vec::new();
    let mut i: usize = 0;
    while i < edges.len()
        invariant
            i <= edges.len(),
            all == ranked::views(edges@),
            forall|e: (Seq<char>, Seq<char>)| #[trigger]
                ranked::views(kept@).contains(e) ==> all.contains(e) && edge_end(e, target) == url@,
            forall|j: int|
                0 <= j < i && edge_end(#[trigger] all[j], target) == url@ ==> ranked::views(
                    kept@,
                ).contains(all[j]),
        decreases edges.len() - i,
    {
        let edge = &edges[i];
        proof {
            assert(all[i as int] == edge@);
            assert(all.contains(edge@));
        }
        let end = if target {
            edge.target.as_str()
        } else {
            edge.source.as_str()
        };
        if same(end, url) {
            proof {
                lemma_push_contains(ranked::views(kept@), (edge.source@, edge.target@));
            }
            push_edge(&mut kept, &edge.source, edge.target.clone());
        }
        i += 1;
    }
    let ghost picked = ranked::views(kept@);
    let out = ranked_set(kept);
    proof {
        assert forall|e: (Seq<char>, Seq<char>)| #[trigger]
            ranked::views(out@).contains(e) <==> all.contains(e) && edge_end(e, target)
                == url@ by {
            assert(ranked::views(out@).to_set().contains(e) <==> picked.to_set().contains(e));
            if all.contains(e) && edge_end(e, target) == url@ {
                let j = choose|j: int| 0 <= j < all.len() && all[j] == e;
                assert(picked.contains(all[j]));
            }
        }
    }
    out
}

/// A link is among those to its target exactly where it is among those from its
/// source.
pub proof fn law_edges_agree(
    c: Conductor,
    to: Seq<(Seq<char>, Seq<char>)>,
    from: Seq<(Seq<char>, Seq<char>)>,
    source: Seq<char>,
    target: Seq<char>,
)
    requires
        forall|e: (Seq<char>, Seq<char>)| #[trigger]
            to.contains(e) <==> is_page_edge(c, e) && e.1 == target,
        forall|e: (Seq<char>, Seq<char>)| #[trigger]
            from.contains(e) <==> is_page_edge(c, e) && e.0 == source,
    ensures
        to.contains((source, target)) <==> from.contains((source, target)),
{
}

/// What a link option holds: stem, slug, title and URL.
pub struct LinkOptionView {
    pub stem: Seq<char>,
    pub slug: Seq<char>,
    pub title: Seq<char>,
    pub url: Seq<char>,
}

impl View for LinkOption {
    type V = LinkOptionView;

    open spec fn view(&self) -> LinkOptionView {
        LinkOptionView {
            stem: self.stem@,
            slug: self.slug@,
            title: self.title@,
            url: self.url@,
        }
    }
}

/// The slugs of a list of link options.
pub open spec fn slugs_of(options: Seq<LinkOptionView>) -> Seq<Seq<char>> {
    options.map_values(|o: LinkOptionView| o.slug)
}

/// The link option that a document makes, where it is the page of an item.
pub open spec fn option_of(store: NodeStore, stem: Seq<char>, root: NodeId) -> Option<
    LinkOptionView,
> {
    match node_store::attr_text(store, root, "url"@) {
        Some(url) => if is_item(store, root) {
            let slug = site::last_segment(text::trim_end_char(url, '/'));
            let title = match node_store::document_title(store, root) {
                Some(title) => title,
                None => slug,
            };
            Some(LinkOptionView { stem, slug, title, url })
        } else {
            None
        },
        None => None,
    }
}

/// The link options that documents make, sorted by slug. Those with the same slug
/// keep the order of the documents.
pub open spec fn options_of(store: NodeStore, stem: Seq<char>, roots: Seq<NodeId>) -> Seq<
    LinkOptionView,
>
    decreases roots.len(),
{
    if roots.len() == 0 {
        seq![]
    } else {
        let before = options_of(store, stem, roots.drop_last());
        match option_of(store, stem, roots.last()) {
            Some(option) => before.insert(order::place_among(slugs_of(before), option.slug), option),
            None => before,
        }
    }
}

/// The link options of a stem are in the order of their slugs.
pub proof fn law_link_options_are_sorted(store: NodeStore, stem: Seq<char>, roots: Seq<NodeId>)
    ensures
        order::is_sorted(slugs_of(options_of(store, stem, roots))),
    decreases roots.len(),
{
    if roots.len() > 0 {
        let before = options_of(store, stem, roots.drop_last());
        law_link_options_are_sorted(store, stem, roots.drop_last());
        if let Some(option) = option_of(store, stem, roots.last()) {
            let at = order::place_among(slugs_of(before), option.slug);
            order::lemma_place_among(slugs_of(before), option.slug);
            order::lemma_insert_keeps_order(slugs_of(before), option.slug);
            assert(slugs_of(before.insert(at, option)) =~= slugs_of(before).insert(at, option.slug));
        }
    }
}

/// Put an option into a list that is sorted by slug.
fn insert_option(out: &mut Vec<LinkOption>, option: LinkOption)
    ensures
        ranked::views(final(out)@) == ranked::views(old(out)@).insert(
            order::place_among(slugs_of(ranked::views(old(out)@)), option.slug@),
            option@,
        ),
{
    let ghost before = ranked::views(out@);
    let ghost slugs = slugs_of(before);
    let ghost view = option@;
    let mut at: usize = out.len();
    proof {
        assert(slugs.take(at as int) =~= slugs);
    }
    while at > 0 && !order::less_or_same(out[at - 1].slug.as_str(), option.slug.as_str())
        invariant
            at <= out.len(),
            slugs == slugs_of(ranked::views(out@)),
            order::place_among(slugs.take(at as int), option.slug@) == order::place_among(
                slugs,
                option.slug@,
            ),
        decreases at,
    {
        proof {
            assert(slugs.take(at as int).last() == out@[at - 1].slug@);
            assert(slugs.take(at as int).drop_last() =~= slugs.take(at - 1));
        }
        at -= 1;
    }
    proof {
        if at > 0 {
            assert(slugs.take(at as int).last() == out@[at - 1].slug@);
        }
        assert(at == order::place_among(slugs, view.slug));
    }
    out.insert(at, option);
    proof {
        assert(ranked::views(out@) =~= before.insert(at as int, view));
    }
}

/// The stem that a link pattern leads to: the first segment of its path that is
/// no placeholder. The pattern of another site leads to none.
pub open spec fn pattern_stem(pattern: Seq<char>) -> Option<Seq<char>> {
    if text::begins_with(pattern, "http://"@) || text::begins_with(pattern, "https://"@) {
        None
    } else {
        let path = content_editor::before_first(content_editor::before_first(pattern, '#'), '?');
        first_plain(text::split_of(path, '/'))
    }
}

/// Whether a segment is neither empty nor a placeholder.
pub open spec fn is_plain(segment: Seq<char>) -> bool {
    segment.len() > 0 && !text::has_text(segment, "<"@) && !text::has_text(segment, ">"@)
}

/// The first segment that is neither empty nor a placeholder.
pub open spec fn first_plain(segments: Seq<Seq<char>>) -> Option<Seq<char>>
    decreases segments.len(),
{
    if segments.len() == 0 {
        None
    } else if is_plain(segments[0]) {
        Some(segments[0])
    } else {
        first_plain(segments.skip(1))
    }
}

/// The stem that a slot of a schema leads to.
pub open spec fn link_stem(
    schemas: Seq<(Seq<char>, SchemaEntry)>,
    stem: Seq<char>,
    slot: Seq<char>,
) -> Option<Seq<char>> {
    match grammar_of(schemas, stem) {
        None => None,
        Some(grammar) => {
            let at = slot_editor::grammar_index(grammar.preamble@, slot);
            if at >= grammar.preamble@.len() {
                None
            } else {
                match grammar.preamble@[at].element {
                    Element::Link { pattern } => pattern_stem(pattern@),
                    Element::Image { pattern } => pattern_stem(pattern@),
                    _ => None,
                }
            }
        },
    }
}

/// The stem that a link pattern leads to.
pub fn stem_of_pattern(pattern: &str) -> (r: Option<String>)
    ensures
        text::opt_text(r) == pattern_stem(pattern@),
{
    if starts_with(pattern, "http://") || starts_with(pattern, "https://") {
        return None;
    }
    let front = text_before(pattern, '#');
    let path = text_before(front.as_str(), '?');
    let segments = split(path.as_str(), '/');
    let ghost all = text::split_of(path@, '/');
    let mut i: usize = 0;
    proof {
        assert(all.skip(0) =~= all);
        assert(all.len() == segments@.len());
    }
    while i < segments.len()
        invariant
            i <= segments.len(),
            all == text::texts(segments@),
            pattern_stem(pattern@) == first_plain(all),
            first_plain(all.skip(i as int)) == first_plain(all),
        decreases segments.len() - i,
    {
        let segment = segments[i].as_str();
        proof {
            assert(all.skip(i as int)[0] == segments@[i as int]@);
            assert(all.skip(i as int).skip(1) =~= all.skip(i + 1));
        }
        if !segment.is_empty() && !contains(segment, "<") && !contains(segment, ">") {
            return Some(segment.to_owned());
        }
        i += 1;
    }
    None
}

/// The keys of the schemas of items, in the order of the table.
pub open spec fn item_schema_keys(schemas: Seq<(Seq<char>, SchemaEntry)>) -> Seq<Seq<char>>
    decreases schemas.len(),
{
    if schemas.len() == 0 {
        seq![]
    } else if text::has_text(schemas.last().0, "/"@) {
        item_schema_keys(schemas.drop_last())
    } else {
        item_schema_keys(schemas.drop_last()).push(schemas.last().0)
    }
}

/// The key of the schema that a document is shown by: that of the collection, that
/// of the items where there is one of its own, or the stem.
pub open spec fn shown_key(
    schemas: Seq<(Seq<char>, SchemaEntry)>,
    stem: Seq<char>,
    is_collection: bool,
) -> Seq<char> {
    if is_collection {
        site::schema_key(stem, "index"@)
    } else if table::has_key(schemas, stem + "/item"@) {
        stem + "/item"@
    } else {
        stem
    }
}

/// What is needed to show a document as data.
#[derive(Debug, PartialEq, Eq)]
pub struct GraphPlan {
    pub stem: String,
    pub url: String,
    /// The key of the schema, which need not be there.
    pub grammar_key: String,
}

/// The title of the link to a page: its own, or the last segment of its URL.
pub fn link_title(title: Option<&str>, url: &str) -> (r: String)
    ensures
        r@ == (match title {
            Some(title) => title@,
            None => site::last_segment(url@),
        }),
{
    match title {
        Some(title) => title.to_owned(),
        None => segment_behind(url),
    }
}

/// The page of an item: its stem, its URL and its document.
#[derive(Debug, PartialEq, Eq)]
pub struct ItemPage {
    pub stem: String,
    pub url: String,
    pub root: NodeId,
}

/// What the page of an item holds.
pub struct ItemPageView {
    pub stem: Seq<char>,
    pub url: Seq<char>,
    pub root: NodeId,
}

impl View for ItemPage {
    type V = ItemPageView;

    open spec fn view(&self) -> ItemPageView {
        ItemPageView { stem: self.stem@, url: self.url@, root: self.root }
    }
}

/// The pages of the items among the given documents of a stem, in order.
pub open spec fn item_pages(store: NodeStore, stem: Seq<char>, roots: Seq<NodeId>) -> Seq<
    ItemPageView,
>
    decreases roots.len(),
{
    if roots.len() == 0 {
        seq![]
    } else {
        let before = item_pages(store, stem, roots.drop_last());
        match node_store::attr_text(store, roots.last(), "url"@) {
            Some(url) => if is_item(store, roots.last()) {
                before.push(ItemPageView { stem, url, root: roots.last() })
            } else {
                before
            },
            None => before,
        }
    }
}

/// The pages of the items of all stems, stem by stem.
pub open spec fn all_item_pages(store: NodeStore, stems: Seq<(Seq<char>, Vec<NodeId>)>) -> Seq<
    ItemPageView,
>
    decreases stems.len(),
{
    if stems.len() == 0 {
        seq![]
    } else {
        all_item_pages(store, stems.drop_last()) + item_pages(
            store,
            stems.last().0,
            stems.last().1@,
        )
    }
}

/// Add the pages of the items among the given documents of a stem.
fn add_item_pages(store: &NodeStore, stem: &String, roots: &Vec<NodeId>, out: &mut Vec<ItemPage>)
    ensures
        ranked::views(final(out)@) == ranked::views(old(out)@) + item_pages(*store, stem@, roots@),
{
    let ghost start = ranked::views(out@);
    let mut i: usize = 0;
    proof {
        assert(roots@.take(0) =~= seq![]);
        assert(start =~= start + item_pages(*store, stem@, roots@.take(0)));
    }
    while i < roots.len()
        invariant
            i <= roots.len(),
            ranked::views(out@) == start + item_pages(*store, stem@, roots@.take(i as int)),
        decreases roots.len() - i,
    {
        let root = roots[i];
        proof {
            assert(roots@.take(i + 1).drop_last() =~= roots@.take(i as int));
            assert(roots@.take(i + 1).last() == root);
        }
        let ghost before = out@;
        if root_is_item(store, root) {
            if let Some(url) = find_attr_text(store, root, "url") {
                let page = ItemPage { stem: stem.clone(), url, root };
                let ghost view = page@;
                out.push(page);
                proof {
                    assert(ranked::views(out@) =~= ranked::views(before).push(view));
                    assert(ranked::views(out@) =~= start + item_pages(
                        *store,
                        stem@,
                        roots@.take(i + 1),
                    ));
                }
            }
        }
        i += 1;
    }
    proof {
        assert(roots@.take(i as int) =~= roots@);
    }
}

impl Conductor {
    /// List all link completion options for a given schema stem, sorted by slug.
    /// The title of an item is that in its preamble, or its slug.
    pub fn list_link_options(&self, stem: &str) -> (r: Vec<LinkOption>)
        ensures
            ranked::views(r@) == options_of(
                self.store,
                stem@,
                roots_of(self.stem_to_roots@, stem@),
            ),
    {
        let roots = self.documents_for_stem(stem);
        let mut out: Vec<LinkOption> = Vec::new();
        let mut i: usize = 0;
        proof {
            assert(roots@.take(0) =~= seq![]);
            assert(ranked::views(out@) =~= options_of(self.store, stem@, roots@.take(0)));
        }
        while i < roots.len()
            invariant
                i <= roots.len(),
                ranked::views(out@) == options_of(self.store, stem@, roots@.take(i as int)),
            decreases roots.len() - i,
        {
            let root = roots[i];
            proof {
                assert(roots@.take(i + 1).drop_last() =~= roots@.take(i as int));
                assert(roots@.take(i + 1).last() == root);
            }
            if root_is_item(&self.store, root) {
                if let Some(url) = find_attr_text(&self.store, root, "url") {
                    let bare = trim_end_matches(url.as_str(), '/');
                    let slug = segment_behind(bare.as_str());
                    let title = match find_document_title(&self.store, root) {
                        Some(title) => title,
                        None => slug.clone(),
                    };
                    insert_option(
                        &mut out,
                        LinkOption { stem: stem.to_owned(), slug, title, url },
                    );
                }
            }
            i += 1;
        }
        proof {
            assert(roots@.take(i as int) =~= roots@);
        }
        out
    }

    /// For a slot on a source schema, derive the target collection stem by
    /// inspecting the slot's link pattern. Returns `None` if the slot is no link
    /// slot or the target cannot be resolved.
    pub fn resolve_link_target_stem(&self, source_stem: &str, slot: &str) -> (r: Option<String>)
        ensures
            text::opt_text(r) == link_stem(self.schemas@, source_stem@, slot@),
    {
        match self.schemas.get(&source_stem.to_owned()) {
            None => None,
            Some(entry) => match &entry.grammar {
                Err(_) => None,
                Ok(grammar) => {
                    let at = find_grammar_slot(grammar, slot);
                    if at >= grammar.preamble.len() {
                        return None;
                    }
                    match &grammar.preamble[at].element {
                        Element::Link { pattern } => stem_of_pattern(pattern.as_str()),
                        Element::Image { pattern } => stem_of_pattern(pattern.as_str()),
                        _ => None,
                    }
                },
            },
        }
    }

    /// List all schema stems known to the conductor, sorted; collection schemas
    /// are left out.
    pub fn list_schemas(&self) -> (r: Vec<String>)
        ensures
            text::texts(r@) == order::sorted_texts(item_schema_keys(self.schemas@)),
    {
        let ghost all = self.schemas@;
        let mut out: Vec<String> = Vec::new();
        let mut i: usize = 0;
        proof {
            assert(all.take(0) =~= seq![]);
            assert(text::texts(out@) =~= item_schema_keys(all.take(0)));
        }
        while i < self.schemas.len()
            invariant
                i <= self.schemas@.len(),
                all == self.schemas@,
                text::texts(out@) == item_schema_keys(all.take(i as int)),
            decreases self.schemas@.len() - i,
        {
            let key = &self.schemas.entry(i).0;
            proof {
                assert(all.take(i + 1).drop_last() =~= all.take(i as int));
                assert(all.take(i + 1).last().0 == key@);
            }
            if !contains(key.as_str(), "/") {
                let ghost before = out@;
                out.push(key.clone());
                proof {
                    assert(text::texts(out@) =~= text::texts(before).push(key@));
                }
            }
            i += 1;
        }
        proof {
            assert(all.take(i as int) =~= all);
        }
        sort_texts(&out)
    }

    /// What is needed to show a document as data: its stem and URL, and the key
    /// of the schema that it is shown by. A document without a stem or a URL
    /// cannot be shown.
    pub fn graph_plan(&self, root: NodeId) -> (r: Option<GraphPlan>)
        ensures
            match (node_store::attr_text(self.store, root, "stem"@), node_store::attr_text(
                self.store,
                root,
                "url"@,
            )) {
                (Some(stem), Some(url)) => r matches Some(plan) && plan.stem@ == stem && plan.url@
                    == url && plan.grammar_key@ == shown_key(
                    self.schemas@,
                    stem,
                    node_store::attr_text(self.store, root, "page-kind"@) == Some("collection"@),
                ),
                _ => r is None,
            },
    {
        let stem = match find_attr_text(&self.store, root, "stem") {
            Some(stem) => stem,
            None => {
                return None;
            },
        };
        let url = match find_attr_text(&self.store, root, "url") {
            Some(url) => url,
            None => {
                return None;
            },
        };
        let is_collection = match find_attr_text(&self.store, root, "page-kind") {
            Some(kind) => same(kind.as_str(), "collection"),
            None => false,
        };
        let grammar_key = self.key_shown_by(stem.as_str(), is_collection);
        Some(GraphPlan { stem, url, grammar_key })
    }

    /// The key of the schema that a document is shown by.
    pub fn key_shown_by(&self, stem: &str, is_collection: bool) -> (r: String)
        ensures
            r@ == shown_key(self.schemas@, stem@, is_collection),
    {
        if is_collection {
            site::schema_cache_key(stem, "index")
        } else {
            let item_key = together(stem, "/item");
            if self.schemas.contains_key(&item_key) {
                item_key
            } else {
                stem.to_owned()
            }
        }
    }

    /// The pages of the items of a stem.
    pub fn query_items_for_stem(&self, stem: &str) -> (r: Vec<ItemPage>)
        ensures
            ranked::views(r@) == item_pages(
                self.store,
                stem@,
                roots_of(self.stem_to_roots@, stem@),
            ),
    {
        self.query_items_from_store(stem)
    }

    /// The pages of the items of a stem, as they stand in the store.
    pub fn query_items_from_store(&self, stem: &str) -> (r: Vec<ItemPage>)
        ensures
            ranked::views(r@) == item_pages(
                self.store,
                stem@,
                roots_of(self.stem_to_roots@, stem@),
            ),
    {
        let roots = self.documents_for_stem(stem);
        let mut out: Vec<ItemPage> = Vec::new();
        add_item_pages(&self.store, &stem.to_owned(), &roots, &mut out);
        proof {
            assert(ranked::views(out@) =~= item_pages(self.store, stem@, roots@));
        }
        out
    }

    /// The pages of the items of all stems.
    pub fn all_items(&self) -> (r: Vec<ItemPage>)
        ensures
            ranked::views(r@) == all_item_pages(self.store, self.stem_to_roots@),
    {
        let ghost all = self.stem_to_roots@;
        let mut out: Vec<ItemPage> = Vec::new();
        let mut i: usize = 0;
        proof {
            assert(all.take(0) =~= seq![]);
            assert(ranked::views(out@) =~= all_item_pages(self.store, all.take(0)));
        }
        while i < self.stem_to_roots.len()
            invariant
                i <= self.stem_to_roots@.len(),
                all == self.stem_to_roots@,
                ranked::views(out@) == all_item_pages(self.store, all.take(i as int)),
            decreases self.stem_to_roots@.len() - i,
        {
            let entry = self.stem_to_roots.entry(i);
            proof {
                assert(all.take(i + 1).drop_last() =~= all.take(i as int));
                assert(all.take(i + 1).last() == (entry.0@, entry.1));
            }
            add_item_pages(&self.store, &entry.0, &entry.1, &mut out);
            i += 1;
        }
        proof {
            assert(all.take(i as int) =~= all);
        }
        out
    }
}

/// A text without a slash is its only segment.
proof fn lemma_one_segment(s: Seq<char>)
    requires
        !s.contains('/'),
    ensures
        text::split_of(s, '/') == seq![s],
{
    text::lemma_first_index(s, '/');
    let n = text::first_index(s, '/');
    if n < s.len() {
        assert(s[n] == '/');
    }
}

/// Two texts without a slash are the segments of what a slash joins them to.
proof fn lemma_two_segments(a: Seq<char>, b: Seq<char>)
    requires
        !a.contains('/'),
        !b.contains('/'),
    ensures
        text::split_of(a + "/"@ + b, '/') == seq![a, b],
{
    reveal_strlit("/");
    let all = a + "/"@ + b;
    let n = a.len() as int;
    assert(all[n] == '/');
    assert forall|k: int| 0 <= k < n implies all[k] != '/' by {
        assert(all[k] == a[k]);
        assert(a.contains(a[k]));
    }
    text::lemma_first_index_is(all, '/', n);
    assert(all.take(n) =~= a);
    assert(all.skip(n + 1) =~= b);
    lemma_one_segment(b);
    assert(seq![a] + seq![b] =~= seq![a, b]);
}

/// The page that is shown for the schema of a page: that of its collection, if there
/// is one, or that of the first of the items. So the schema of a collection leads
/// back to the page of the collection, and that of the root to the root.
pub proof fn law_schema_leads_back_to_its_page(
    store: NodeStore,
    urls: Seq<(Seq<char>, NodeId)>,
    stems: Seq<(Seq<char>, Vec<NodeId>)>,
    root: NodeId,
    stem: Seq<char>,
    kind: Seq<char>,
)
    requires
        node_store::attr_text(store, root, "stem"@) == Some(stem),
        node_store::attr_text(store, root, "page-kind"@) == Some(kind),
        !stem.contains('/'),
    ensures
        schema_url_of(store, root) is Some,
        ({
            let page = page_for_schema(store, urls, stems, schema_url_of(store, root)->0);
            let collection = "/"@ + stem + "/"@;
            let items = order::sorted_texts(item_urls(store, roots_of(stems, stem)));
            if stem.len() == 0 {
                page == (if kind == "collection"@ {
                    Some("/"@)
                } else {
                    None
                })
            } else if table::has_key(urls, collection) {
                page == Some(collection)
            } else if kind == "collection"@ || items.len() == 0 {
                page is None
            } else {
                page == Some(items[0])
            }
        }),
{
    reveal_strlit("/_schema/");
    reveal_strlit("index");
    reveal_strlit("item");
    reveal_strlit("/");
    let segment = if kind == "collection"@ {
        "index"@
    } else {
        "item"@
    };
    assert(!segment.contains('/')) by {
        if segment.contains('/') {
            let k = choose|k: int| 0 <= k < segment.len() && segment[k] == '/';
            assert(segment[k] == '/');
        }
    }
    assert("index"@.len() == 5 && "item"@.len() == 4);
    let prefix = "/_schema/"@;
    let url = schema_url_of(store, root)->0;
    let rest = if stem.len() == 0 {
        segment
    } else {
        stem + "/"@ + segment
    };
    assert(url =~= prefix + rest);
    assert(url.take(prefix.len() as int) =~= prefix);
    assert(url.skip(prefix.len() as int) =~= rest);
    if stem.len() == 0 {
        lemma_one_segment(segment);
        let one = seq![segment];
        assert(one.drop_last() =~= seq![]);
        assert(filled_among(one) =~= one) by {
            assert(filled_among(one.drop_last()) =~= seq![]);
        }
        if kind == "collection"@ {
            assert(filled_among(one) =~= seq!["index"@]);
        } else {
            assert(filled_among(one)[0] != "index"@);
        }
    } else {
        lemma_two_segments(stem, segment);
        let two = seq![stem, segment];
        assert(two.drop_last() =~= seq![stem]);
        assert(seq![stem].drop_last() =~= seq![]);
        assert(filled_among(two) =~= two) by {
            assert(filled_among(seq![stem].drop_last()) =~= seq![]);
            assert(filled_among(seq![stem]) =~= seq![stem]);
        }
        assert(filled_among(two).len() == 2);
        assert(seq!["index"@].len() == 1);
    }
}

/// The items of roots are those of the first and then those of the others.
pub proof fn law_items_keep_the_order_of_roots(
    store: NodeStore,
    stem: Seq<char>,
    a: Seq<NodeId>,
    b: Seq<NodeId>,
)
    ensures
        item_urls(store, a + b) == item_urls(store, a) + item_urls(store, b),
        item_pages(store, stem, a + b) == item_pages(store, stem, a) + item_pages(store, stem, b),
    decreases b.len(),
{
    if b.len() == 0 {
        assert(a + b =~= a);
        assert(item_urls(store, a) + item_urls(store, b) =~= item_urls(store, a));
        assert(item_pages(store, stem, a) + item_pages(store, stem, b) =~= item_pages(
            store,
            stem,
            a,
        ));
    } else {
        law_items_keep_the_order_of_roots(store, stem, a, b.drop_last());
        assert((a + b).drop_last() =~= a + b.drop_last());
        assert((a + b).last() == b.last());
        assert(item_urls(store, a + b) =~= item_urls(store, a) + item_urls(store, b));
        assert(item_pages(store, stem, a + b) =~= item_pages(store, stem, a) + item_pages(
            store,
            stem,
            b,
        ));
    }
}

/// A root is an item where its attributes say so and give it a URL, and otherwise none.
pub proof fn law_item_of_one_root(store: NodeStore, stem: Seq<char>, root: NodeId, url: Seq<char>)
    ensures
        node_store::attr_text(store, root, "page-kind"@) == Some("item"@) && node_store::attr_text(
            store,
            root,
            "url"@,
        ) == Some(url) ==> item_urls(store, seq![root]) == seq![url] && item_pages(
            store,
            stem,
            seq![root],
        ) == seq![ItemPageView { stem, url, root }],
        node_store::attr_text(store, root, "page-kind"@) != Some("item"@) ==> item_urls(
            store,
            seq![root],
        ).len() == 0 && item_pages(store, stem, seq![root]).len() == 0,
        node_store::attr_text(store, root, "url"@) is None ==> item_urls(store, seq![root]).len()
            == 0 && item_pages(store, stem, seq![root]).len() == 0,
{
    let one = seq![root];
    assert(one.drop_last() =~= seq![]);
    assert(item_urls(store, one.drop_last()) =~= seq![]);
    assert(item_pages(store, stem, one.drop_last()) =~= seq![]);
    if node_store::attr_text(store, root, "page-kind"@) == Some("item"@) && node_store::attr_text(
        store,
        root,
        "url"@,
    ) == Some(url) {
        assert(item_urls(store, one) =~= seq![url]);
        assert(item_pages(store, stem, one) =~= seq![ItemPageView { stem, url, root }]);
    }
}

/// The items of all stems are those of each stem, stem by stem.
pub proof fn law_all_items_are_those_of_the_stems(
    store: NodeStore,
    a: Seq<(Seq<char>, Vec<NodeId>)>,
    b: Seq<(Seq<char>, Vec<NodeId>)>,
    stem: Seq<char>,
    roots: Vec<NodeId>,
)
    ensures
        all_item_pages(store, a + b) == all_item_pages(store, a) + all_item_pages(store, b),
        all_item_pages(store, seq![(stem, roots)]) == item_pages(store, stem, roots@),
    decreases b.len(),
{
    let one = seq![(stem, roots)];
    assert(one.drop_last() =~= seq![]);
    assert(all_item_pages(store, one.drop_last()) =~= seq![]);
    assert(all_item_pages(store, one) =~= item_pages(store, stem, roots@));
    if b.len() == 0 {
        assert(a + b =~= a);
        assert(all_item_pages(store, a) + all_item_pages(store, b) =~= all_item_pages(store, a));
    } else {
        law_all_items_are_those_of_the_stems(store, a, b.drop_last(), stem, roots);
        assert((a + b).drop_last() =~= a + b.drop_last());
        assert((a + b).last() == b.last());
        assert(all_item_pages(store, a + b) =~= all_item_pages(store, a) + all_item_pages(
            store,
            b,
        ));
    }
}

/// The URLs of content are those under which items are entered.
pub proof fn law_content_urls_are_those_of_items(
    store: NodeStore,
    urls: Seq<(Seq<char>, NodeId)>,
    url: Seq<char>,
)
    ensures
        item_keys(store, urls).contains(url) <==> exists|k: int|
            0 <= k < urls.len() && (#[trigger] urls[k]).0 == url && node_store::attr_text(
                store,
                urls[k].1,
                "page-kind"@,
            ) == Some("item"@),
        item_keys(store, urls).len() <= urls.len(),
    decreases urls.len(),
{
    if urls.len() > 0 {
        let front = urls.drop_last();
        let before = item_keys(store, front);
        let all = item_keys(store, urls);
        law_content_urls_are_those_of_items(store, front, url);
        let last = urls.len() - 1;
        assert(urls[last] == urls.last());
        if before.contains(url) {
            let k = choose|k: int|
                0 <= k < front.len() && (#[trigger] front[k]).0 == url && node_store::attr_text(
                    store,
                    front[k].1,
                    "page-kind"@,
                ) == Some("item"@);
            assert(urls[k] == front[k]);
            let i = choose|i: int| 0 <= i < before.len() && before[i] == url;
            assert(all[i] == url);
        }
        if is_item(store, urls.last().1) {
            assert(all[before.len() as int] == urls.last().0);
            if all.contains(url) && !before.contains(url) {
                let i = choose|i: int| 0 <= i < all.len() && all[i] == url;
                if i < before.len() {
                    assert(before[i] == url);
                }
                assert(urls[last].0 == url);
            }
        }
        if exists|k: int|
            0 <= k < urls.len() && (#[trigger] urls[k]).0 == url && node_store::attr_text(
                store,
                urls[k].1,
                "page-kind"@,
            ) == Some("item"@) {
            let k = choose|k: int|
                0 <= k < urls.len() && (#[trigger] urls[k]).0 == url && node_store::attr_text(
                    store,
                    urls[k].1,
                    "page-kind"@,
                ) == Some("item"@);
            if k < last {
                assert(front[k] == urls[k]);
            }
        }
    }
}

/// The schemas that are listed are those whose keys have no slash.
pub proof fn law_listed_schemas_are_those_of_items(
    schemas: Seq<(Seq<char>, SchemaEntry)>,
    key: Seq<char>,
)
    ensures
        item_schema_keys(schemas).contains(key) <==> !key.contains('/') && exists|k: int|
            0 <= k < schemas.len() && (#[trigger] schemas[k]).0 == key,
    decreases schemas.len(),
{
    if schemas.len() > 0 {
        let front = schemas.drop_last();
        let before = item_schema_keys(front);
        let all = item_schema_keys(schemas);
        law_listed_schemas_are_those_of_items(front, key);
        let last = schemas.len() - 1;
        assert(schemas[last] == schemas.last());
        lemma_has_slash(schemas.last().0);
        if before.contains(key) {
            let k = choose|k: int| 0 <= k < front.len() && (#[trigger] front[k]).0 == key;
            assert(schemas[k] == front[k]);
            let i = choose|i: int| 0 <= i < before.len() && before[i] == key;
            assert(all[i] == key);
        }
        if !text::has_text(schemas.last().0, "/"@) {
            assert(all[before.len() as int] == schemas.last().0);
            if all.contains(key) && !before.contains(key) {
                let i = choose|i: int| 0 <= i < all.len() && all[i] == key;
                if i < before.len() {
                    assert(before[i] == key);
                }
                assert(schemas[last].0 == key);
            }
        }
        if exists|k: int| 0 <= k < schemas.len() && (#[trigger] schemas[k]).0 == key {
            let k = choose|k: int| 0 <= k < schemas.len() && (#[trigger] schemas[k]).0 == key;
            if k < last {
                assert(front[k] == schemas[k]);
            }
        }
    }
}

/// A text has a slash in it or not.
proof fn lemma_has_slash(s: Seq<char>)
    ensures
        text::has_text(s, "/"@) <==> s.contains('/'),
{
    reveal_strlit("/");
    if text::has_text(s, "/"@) {
        let i = choose|i: int| text::occurs_at(s, "/"@, i);
        assert(s.subrange(i, i + 1)[0] == '/');
        assert(s[i] == '/');
    }
    if s.contains('/') {
        let i = choose|i: int| 0 <= i < s.len() && s[i] == '/';
        assert(s.subrange(i, i + 1) =~= "/"@);
        assert(text::occurs_at(s, "/"@, i));
    }
}

/// The parts of a schema URL that count are those that are not empty.
pub proof fn law_empty_parts_do_not_count(parts: Seq<Seq<char>>)
    ensures
        filled_among(parts) == parts.filter(|p: Seq<char>| p.len() > 0),
    decreases parts.len(),
{
    reveal(Seq::filter);
    if parts.len() > 0 {
        law_empty_parts_do_not_count(parts.drop_last());
    } else {
        assert(filled_among(parts) =~= parts);
    }
}

/// The page of a node is that of the first entry that leads to it.
pub proof fn law_first_entry_leads_to_a_node(
    urls: Seq<(Seq<char>, NodeId)>,
    id: NodeId,
    k: int,
)
    requires
        0 <= k <= urls.len(),
        forall|j: int| 0 <= j < k ==> (#[trigger] urls[j]).1 != id,
    ensures
        k < urls.len() && urls[k].1 == id ==> url_to(urls, id) == Some(urls[k].0),
        k == urls.len() ==> url_to(urls, id) is None,
    decreases k,
{
    if k > 0 {
        let rest = urls.skip(1);
        assert(urls[0].1 != id);
        assert forall|j: int| 0 <= j < k - 1 implies (#[trigger] rest[j]).1 != id by {
            assert(rest[j] == urls[j + 1]);
        }
        law_first_entry_leads_to_a_node(rest, id, k - 1);
        if k < urls.len() {
            assert(rest[k - 1] == urls[k]);
        }
    }
}

/// A page is found by its URL with or without the slash at the end, and by that of its
/// index file.
pub proof fn law_ways_to_write_a_page_url(
    urls: Seq<(Seq<char>, NodeId)>,
    base: Seq<char>,
    root: NodeId,
)
    requires
        table::found(urls, base + seq!['/']) == Some(root),
        base.len() == 0 || base.last() != '/',
        !text::finishes_with(base, "index.html"@),
        !text::finishes_with(base, "index.htm"@),
    ensures
        root_at(urls, base) == Some(root),
        root_at(urls, base + seq!['/']) == Some(root),
        root_at(urls, base + seq!['/'] + "index.html"@) == Some(root),
        root_at(urls, base + seq!['/'] + "index.htm"@) == Some(root),
{
    reveal_strlit("/");
    reveal_strlit("index.html");
    reveal_strlit("index.htm");
    assert("/"@ =~= seq!['/']);
    let slashed = base + seq!['/'];
    let html = slashed + "index.html"@;
    let htm = slashed + "index.htm"@;
    assert(!text::finishes_with(slashed, "index.html"@)) by {
        if text::finishes_with(slashed, "index.html"@) {
            assert(slashed.skip(slashed.len() - 10)[9] == 'l');
        }
    }
    assert(!text::finishes_with(slashed, "index.htm"@)) by {
        if text::finishes_with(slashed, "index.htm"@) {
            assert(slashed.skip(slashed.len() - 9)[8] == 'm');
        }
    }
    assert(!text::finishes_with(htm, "index.html"@)) by {
        if text::finishes_with(htm, "index.html"@) {
            assert(htm.skip(htm.len() - 10)[9] == 'l');
        }
    }
    assert(html.skip(html.len() - 10) =~= "index.html"@);
    assert(html.take(html.len() - 10) =~= slashed);
    assert(htm.skip(htm.len() - 9) =~= "index.htm"@);
    assert(htm.take(htm.len() - 9) =~= slashed);
    assert(without_suffixes(slashed, "index.html"@) == slashed);
    assert(without_suffixes(slashed, "index.htm"@) == slashed);
    text::law_trimming_takes_copies(seq!['/'], base, '/');
    text::law_trimming_takes_copies(seq![], base, '/');
    assert(base + Seq::<char>::empty() =~= base);
    assert(bare_url(base) == base);
    assert(bare_url(slashed) == base);
    assert(bare_url(html) == base);
    assert(bare_url(htm) == base);
}

/// An item is a link option: its slug is the last segment of its URL, its title that of
/// its document, or else the slug.
pub proof fn law_link_option_of_an_item(
    store: NodeStore,
    stem: Seq<char>,
    root: NodeId,
    before: Seq<char>,
    slug: Seq<char>,
)
    requires
        site::is_plain_name(slug),
        node_store::attr_text(store, root, "url"@) == Some(before + seq!['/'] + slug),
    ensures
        node_store::attr_text(store, root, "page-kind"@) == Some("item"@) ==> {
            &&& option_of(store, stem, root) is Some
            &&& option_of(store, stem, root)->0.stem == stem
            &&& option_of(store, stem, root)->0.slug == slug
            &&& option_of(store, stem, root)->0.url == before + seq!['/'] + slug
            &&& option_of(store, stem, root)->0.title == match node_store::document_title(
                store,
                root,
            ) {
                Some(title) => title,
                None => slug,
            }
        },
        node_store::attr_text(store, root, "page-kind"@) != Some("item"@) ==> option_of(
            store,
            stem,
            root,
        ) is None,
{
    let url = before + seq!['/'] + slug;
    assert(url.last() == slug.last());
    assert(slug.contains(slug.last()));
    text::law_trimming_takes_copies(seq![], url, '/');
    assert(url + Seq::<char>::empty() =~= url);
    text::law_pieces_of_two_texts(before, slug, '/');
    text::lemma_split_only(slug, '/');
    assert(text::split_of(url, '/').last() == slug);
}

/// The link options of a stem are those of its items, all of them and no others.
pub proof fn law_link_options_are_those_of_the_roots(
    store: NodeStore,
    stem: Seq<char>,
    roots: Seq<NodeId>,
    option: LinkOptionView,
)
    ensures
        options_of(store, stem, roots).contains(option) <==> exists|i: int|
            0 <= i < roots.len() && option_of(store, stem, #[trigger] roots[i]) == Some(option),
    decreases roots.len(),
{
    if roots.len() > 0 {
        let front = roots.drop_last();
        let before = options_of(store, stem, front);
        law_link_options_are_those_of_the_roots(store, stem, front, option);
        let last = roots.len() - 1;
        assert(roots[last] == roots.last());
        if exists|i: int|
            0 <= i < front.len() && option_of(store, stem, #[trigger] front[i]) == Some(option) {
            let i = choose|i: int|
                0 <= i < front.len() && option_of(store, stem, #[trigger] front[i]) == Some(option);
            assert(roots[i] == front[i]);
        }
        if exists|i: int|
            0 <= i < roots.len() && option_of(store, stem, #[trigger] roots[i]) == Some(option) {
            let i = choose|i: int|
                0 <= i < roots.len() && option_of(store, stem, #[trigger] roots[i]) == Some(option);
            if i < last {
                assert(front[i] == roots[i]);
            }
        }
        if let Some(new) = option_of(store, stem, roots.last()) {
            let at = order::place_among(slugs_of(before), new.slug);
            order::lemma_place_among(slugs_of(before), new.slug);
            lemma_option_inserted(before, at, new, option);
        }
    }
}

/// A list holds what is put into it and what it held.
proof fn lemma_option_inserted(
    before: Seq<LinkOptionView>,
    at: int,
    new: LinkOptionView,
    option: LinkOptionView,
)
    requires
        0 <= at <= before.len(),
    ensures
        before.insert(at, new).contains(option) <==> before.contains(option) || option == new,
{
    let all = before.insert(at, new);
    assert(all[at] == new);
    if before.contains(option) {
        let i = choose|i: int| 0 <= i < before.len() && before[i] == option;
        if i < at {
            assert(all[i] == option);
        } else {
            assert(all[i + 1] == option);
        }
    }
    if all.contains(option) {
        let i = choose|i: int| 0 <= i < all.len() && all[i] == option;
        if i < at {
            assert(before[i] == option);
        } else if i > at {
            assert(before[i - 1] == option);
        }
    }
}

/// The stem that a link pattern leads to is its first segment without angle brackets; a
/// pattern for another site leads to none.
pub proof fn law_stem_of_a_link_pattern(stem: Seq<char>, tail: Seq<char>, pattern: Seq<char>)
    requires
        site::is_plain_name(stem),
        !stem.contains('<'),
        !stem.contains('>'),
        !stem.contains('#'),
        !stem.contains('?'),
        !tail.contains('#'),
        !tail.contains('?'),
    ensures
        pattern_stem(seq!['/'] + stem + seq!['/'] + tail) == Some(stem),
        text::begins_with(pattern, "http://"@) || text::begins_with(pattern, "https://"@)
            ==> pattern_stem(pattern) is None,
{
    reveal_strlit("http://");
    reveal_strlit("https://");
    let p = seq!['/'] + stem + seq!['/'] + tail;
    assert(p[0] == '/');
    if text::begins_with(p, "http://"@) {
        assert(p.take(7)[0] == 'h');
    }
    if text::begins_with(p, "https://"@) {
        assert(p.take(8)[0] == 'h');
    }
    assert(!p.contains('#') && !p.contains('?')) by {
        if p.contains('#') || p.contains('?') {
            let k = if p.contains('#') {
                choose|k: int| 0 <= k < p.len() && p[k] == '#'
            } else {
                choose|k: int| 0 <= k < p.len() && p[k] == '?'
            };
            if 1 <= k < 1 + stem.len() {
                assert(stem[k - 1] == p[k]);
                assert(stem.contains(p[k]));
            } else if k > 1 + stem.len() {
                assert(tail[k - 2 - stem.len()] == p[k]);
                assert(tail.contains(p[k]));
            }
        }
    }
    lemma_nothing_before(p, '#');
    lemma_nothing_before(p, '?');
    let behind = stem + seq!['/'] + tail;
    assert(p =~= Seq::<char>::empty() + seq!['/'] + behind);
    text::law_pieces_of_two_texts(seq![], behind, '/');
    text::lemma_split_only(seq![], '/');
    text::lemma_split_first(stem, tail, '/');
    let segments = text::split_of(p, '/');
    assert(segments =~= seq![Seq::<char>::empty(), stem] + text::split_of(tail, '/'));
    assert(segments[0].len() == 0);
    assert(segments.skip(1)[0] == stem);
    lemma_has_no_bracket(stem);
    assert(is_plain(stem));
    assert(first_plain(segments.skip(1)) == Some(stem));
}

/// A text without a character stands before it whole.
proof fn lemma_nothing_before(s: Seq<char>, c: char)
    requires
        !s.contains(c),
    ensures
        content_editor::before_first(s, c) == s,
{
    assert forall|k: int| 0 <= k < s.len() implies s[k] != c by {
        assert(s.contains(s[k]));
    }
    text::lemma_first_index_is(s, c, s.len() as int);
    assert(s.take(s.len() as int) =~= s);
}

/// A text without angle brackets has neither of them in it.
proof fn lemma_has_no_bracket(s: Seq<char>)
    requires
        !s.contains('<'),
        !s.contains('>'),
    ensures
        !text::has_text(s, "<"@),
        !text::has_text(s, ">"@),
{
    reveal_strlit("<");
    reveal_strlit(">");
    if text::has_text(s, "<"@) {
        let i = choose|i: int| text::occurs_at(s, "<"@, i);
        assert(s.subrange(i, i + 1)[0] == '<');
        assert(s[i] == '<');
    }
    if text::has_text(s, ">"@) {
        let i = choose|i: int| text::occurs_at(s, ">"@, i);
        assert(s.subrange(i, i + 1)[0] == '>');
        assert(s[i] == '>');
    }
}

/// There is an edge from a page to each path that its document refers to, to each page
/// that its semantic content refers to, and to each known page, other than itself, that a
/// part of it links to.
pub proof fn law_references_are_edges(
    c: Conductor,
    url: Seq<char>,
    id: NodeId,
    k: int,
    end: NodeId,
    target: Seq<char>,
)
    ensures
        0 <= k < c.url_to_root@.len() && c.url_to_root@[k] == (url, id)
            && node_store::targets_below(c.store, id, c.store.nodes@.len()).contains(target)
            ==> is_page_edge(c, (url, target)),
        0 <= k < c.url_to_semantic@.len() && c.url_to_semantic@[k] == (url, id)
            && node_store::reference_ends(node_store::edges_at(c.store, id)).contains(end)
            && url_to(c.url_to_root@, end) == Some(target) ==> is_page_edge(c, (url, target)),
        0 <= k < c.url_to_semantic@.len() && c.url_to_semantic@[k] == (url, id)
            && node_store::reference_ends(node_store::edges_at(c.store, id)).contains(end)
            && node_store::attr_text(c.store, end, "href"@) == Some(target) && table::has_key(
            c.url_to_root@,
            target,
        ) ==> is_page_edge(c, (url, target)),
        0 <= k < c.url_to_semantic@.len() && c.url_to_semantic@[k] == (url, id)
            && node_store::part_ends(node_store::edges_at(c.store, id)).contains(end)
            && node_store::attr_text(c.store, end, "href"@) == Some(target) && table::has_key(
            c.url_to_root@,
            target,
        ) && target != url ==> is_page_edge(c, (url, target)),
{
    let edge = (url, target);
    let edges = node_store::edges_at(c.store, id);
    if 0 <= k < c.url_to_root@.len() && c.url_to_root@[k] == (url, id)
        && node_store::targets_below(c.store, id, c.store.nodes@.len()).contains(target) {
        assert(written_edge(c, k, edge));
    }
    if 0 <= k < c.url_to_semantic@.len() && c.url_to_semantic@[k] == (url, id) {
        let ends = node_store::reference_ends(edges);
        if ends.contains(end) {
            let i = choose|i: int| 0 <= i < ends.len() && ends[i] == end;
            if reference_leads(c, end, target) {
                assert(reference_leads(c, node_store::reference_ends(edges)[i], edge.1));
                assert(shown_edge(c, k, edge));
            }
        }
        let parts = node_store::part_ends(edges);
        if parts.contains(end) && known_href(c.store, c.url_to_root@, end) == Some(target) && target
            != url {
            let i = choose|i: int| 0 <= i < parts.len() && parts[i] == end;
            assert(known_href(c.store, c.url_to_root@, node_store::part_ends(edges)[i]) == Some(
                edge.1,
            ));
            assert(shown_edge(c, k, edge));
        }
    }
}

/// Every edge starts from a page that is known.
pub proof fn law_edges_start_from_known_pages(c: Conductor, edge: (Seq<char>, Seq<char>))
    requires
        is_page_edge(c, edge),
    ensures
        (exists|k: int| 0 <= k < c.url_to_root@.len() && (#[trigger] c.url_to_root@[k]).0 == edge.0)
            || exists|k: int|
            0 <= k < c.url_to_semantic@.len() && (#[trigger] c.url_to_semantic@[k]).0 == edge.0,
{
    if exists|k: int| 0 <= k < c.url_to_semantic@.len() && #[trigger] shown_edge(c, k, edge) {
        let k = choose|k: int|
            0 <= k < c.url_to_semantic@.len() && #[trigger] shown_edge(c, k, edge);
        assert(c.url_to_semantic@[k].0 == edge.0);
    } else {
        let k = choose|k: int| 0 <= k < c.url_to_root@.len() && #[trigger] written_edge(c, k, edge);
        assert(c.url_to_root@[k].0 == edge.0);
    }
}

/// An item goes by the item schema of its stem where there is one, and else by that of
/// the stem; a collection by the index schema.
pub proof fn law_schema_that_a_page_goes_by(
    schemas: Seq<(Seq<char>, SchemaEntry)>,
    stem: Seq<char>,
)
    ensures
        table::has_key(schemas, stem + "/item"@) ==> shown_key(schemas, stem, false) == stem
            + "/item"@,
        !table::has_key(schemas, stem + "/item"@) ==> shown_key(schemas, stem, false) == stem,
        stem.len() > 0 ==> shown_key(schemas, stem, true) == stem + "/index"@,
        stem.len() == 0 ==> shown_key(schemas, stem, true) == "index"@,
{
}

/// The link target of a slot is found by the pattern of its own link or image, and other
/// slots have none.
pub proof fn law_link_target_of_a_slot(
    schemas: Seq<(Seq<char>, SchemaEntry)>,
    stem: Seq<char>,
    slot: Seq<char>,
    k: int,
)
    requires
        grammar_of(schemas, stem) is Some,
        slot_editor::is_first_named(grammar_of(schemas, stem)->0.preamble@, slot, k),
    ensures
        match grammar_of(schemas, stem)->0.preamble@[k].element {
            Element::Link { pattern } => link_stem(schemas, stem, slot) == pattern_stem(pattern@),
            Element::Image { pattern } => link_stem(schemas, stem, slot) == pattern_stem(pattern@),
            _ => link_stem(schemas, stem, slot) is None,
        },
{
    slot_editor::lemma_grammar_index_is(grammar_of(schemas, stem)->0.preamble@, slot, k);
}

/// Edges are ranked by the page that they start from, and edges from one page by the page
/// that they lead to.
pub proof fn law_edges_are_ranked_by_their_start(
    a: (Seq<char>, Seq<char>),
    b: (Seq<char>, Seq<char>),
)
    ensures
        a.0 != b.0 ==> PageEdge::ranks(a, b) == order::text_le(a.0, b.0),
        a.0 == b.0 ==> PageEdge::ranks(a, b) == order::text_le(a.1, b.1),
{
}

/// The source and the grammar of a schema are those that were entered under its key.
pub proof fn law_schemas_are_found_by_key(
    schemas: Seq<(Seq<char>, SchemaEntry)>,
    key: Seq<char>,
    entry: SchemaEntry,
)
    ensures
        source_of(table::with_entry(schemas, key, entry), key) == Some(entry.source@),
        entry.grammar is Ok ==> grammar_of(table::with_entry(schemas, key, entry), key) == Some(
            entry.grammar->Ok_0,
        ),
        entry.grammar is Err ==> grammar_of(table::with_entry(schemas, key, entry), key) is None,
{
    table::law_entry_is_found(schemas, key, entry);
}

} // verus!
