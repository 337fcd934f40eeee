//! How the state of a site is filled from its schemas and its content.

use vstd::prelude::*;

use crate::conductor;
use crate::conductor::{copy_ids, Conductor, SchemaEntry};
use crate::document::{Document, DocumentView};
use crate::markdown;
use crate::node_store;
use crate::node_store::{Edge, Node, NodeEntry, NodeId, NodeStore};
use crate::parser;
use crate::path;
use crate::path::SitePath;
use crate::rebuild;
use crate::rebuild::DocumentMeta;
use crate::schema::Grammar;
use crate::site;
use crate::site::{all_together, schema_cache_key, together, url_for_stem_slug};
use crate::slot_assignment;
use crate::slot_assignment::parse_and_assign;
use crate::table;
use crate::table::Table;
use crate::text;
use crate::text::same;

verus! {

/// The schemas of a stem: that of its items and that of its collection.
#[derive(Debug)]
pub struct StemSchemas {
    pub stem: String,
    pub item: Option<SchemaEntry>,
    pub collection: Option<SchemaEntry>,
}

/// The schemas by their keys, with those of a stem.
pub open spec fn with_schemas(
    entries: Seq<(Seq<char>, SchemaEntry)>,
    schemas: StemSchemas,
) -> Seq<(Seq<char>, SchemaEntry)> {
    let with_item = match schemas.item {
        Some(entry) => table::with_entry(entries, schemas.stem@, entry),
        None => entries,
    };
    match schemas.collection {
        Some(entry) => table::with_entry(
            with_item,
            site::schema_key(schemas.stem@, "index"@),
            entry,
        ),
        None => with_item,
    }
}

/// The schemas of the given stems by their keys.
pub open spec fn schema_table(stems: Seq<StemSchemas>) -> Seq<(Seq<char>, SchemaEntry)>
    decreases stems.len(),
{
    if stems.len() == 0 {
        seq![]
    } else {
        with_schemas(schema_table(stems.drop_last()), stems.last())
    }
}

impl Conductor {
    /// Replace the schemas by those of the given stems.
    pub fn refresh_schema_cache(&mut self, stems: Vec<StemSchemas>)
        ensures
            final(self).schemas@ == schema_table(stems@),
            *final(self) == (Conductor { schemas: final(self).schemas, ..*old(self) }),
    {
        let ghost all = stems@;
        let mut rest = stems;
        let mut schemas: Table<String, SchemaEntry> = Table::new();
        let ghost mut done: int = 0;
        proof {
            assert(all.take(0) =~= seq![]);
            assert(all.skip(0) =~= all);
        }
        while rest.len() > 0
            invariant
                0 <= done <= all.len(),
                rest@ == all.skip(done),
                schemas@ == schema_table(all.take(done)),
            decreases rest.len(),
        {
            let ghost first = rest@[0];
            let next = rest.remove(0);
            proof {
                assert(all[done] == first);
                assert(all.take(done + 1).drop_last() =~= all.take(done));
                assert(all.take(done + 1).last() == first);
                assert(rest@ =~= all.skip(done + 1));
                done = done + 1;
            }
            let key = schema_cache_key(next.stem.as_str(), "index");
            if let Some(entry) = next.item {
                schemas.insert(next.stem, entry);
            }
            if let Some(entry) = next.collection {
                schemas.insert(key, entry);
            }
        }
        proof {
            assert(all.take(done) =~= all);
        }
        self.schemas = schemas;
    }
}

/// A content file of an item: its slug, and its text where it could be read.
#[derive(Debug, PartialEq, Eq)]
pub struct ItemSource {
    pub slug: String,
    pub text: Option<String>,
}

/// The content of a stem: its items, and the text of its collection page.
#[derive(Debug, PartialEq, Eq)]
pub struct StemContents {
    pub stem: String,
    pub items: Vec<ItemSource>,
    pub collection: Option<String>,
}

/// A document that is to be put into the store.
#[derive(Debug)]
pub struct PlannedDocument {
    pub meta: DocumentMeta,
    /// The key of the schema that it was read by.
    pub grammar_key: String,
    pub document: Document,
}

/// The mathematical counterpart of [`PlannedDocument`].
#[verifier::ext_equal]
pub struct PlannedView {
    pub url: Seq<char>,
    pub stem: Seq<char>,
    pub file: Seq<char>,
    pub page_kind: Seq<char>,
    pub grammar_key: Seq<char>,
    pub document: DocumentView,
}

impl View for PlannedDocument {
    type V = PlannedView;

    open spec fn view(&self) -> PlannedView {
        PlannedView {
            url: self.meta.url@,
            stem: self.meta.stem@,
            file: self.meta.file@,
            page_kind: self.meta.page_kind@,
            grammar_key: self.grammar_key@,
            document: self.document@,
        }
    }
}

/// The views of a list of planned documents.
pub open spec fn planned_views(plans: Seq<PlannedDocument>) -> Seq<PlannedView> {
    plans.map_values(|p: PlannedDocument| p@)
}

/// A text as a document of the given grammar.
pub open spec fn document_of(src: Seq<char>, grammar: Grammar) -> DocumentView {
    slot_assignment::assigned(parser::elements_of(src, markdown::markdown_events(src)), grammar)
}

/// The key of the schema that a page is read by: its own, or the stem, whichever
/// could be read.
pub open spec fn readable_key(
    schemas: Seq<(Seq<char>, SchemaEntry)>,
    own: Seq<char>,
    stem: Seq<char>,
) -> Option<Seq<char>> {
    if conductor::grammar_of(schemas, own) is Some {
        Some(own)
    } else if conductor::grammar_of(schemas, stem) is Some {
        Some(stem)
    } else {
        None
    }
}

/// The plan for an item.
pub open spec fn item_plan(
    schemas: Seq<(Seq<char>, SchemaEntry)>,
    stem: Seq<char>,
    slug: Seq<char>,
    src: Seq<char>,
) -> Option<PlannedView> {
    match readable_key(schemas, stem + "/item"@, stem) {
        Some(key) => Some(
            PlannedView {
                url: "/"@ + stem + "/"@ + slug,
                stem,
                file: "content/"@ + stem + "/"@ + slug + ".md"@,
                page_kind: "item"@,
                grammar_key: key,
                document: document_of(src, conductor::grammar_of(schemas, key)->0),
            },
        ),
        None => None,
    }
}

/// The plan for the page of a collection.
pub open spec fn collection_plan(
    schemas: Seq<(Seq<char>, SchemaEntry)>,
    stem: Seq<char>,
    src: Seq<char>,
) -> Option<PlannedView> {
    match readable_key(schemas, site::schema_key(stem, "index"@), stem) {
        Some(key) => Some(
            PlannedView {
                url: site::page_url(stem, "index"@),
                stem,
                file: site::page_file(stem, "index"@),
                page_kind: "collection"@,
                grammar_key: key,
                document: document_of(src, conductor::grammar_of(schemas, key)->0),
            },
        ),
        None => None,
    }
}

/// The plans for items of a stem, in order. Those that could not be read are
/// passed over.
pub open spec fn item_plans(
    schemas: Seq<(Seq<char>, SchemaEntry)>,
    stem: Seq<char>,
    items: Seq<ItemSource>,
) -> Seq<PlannedView>
    decreases items.len(),
{
    if items.len() == 0 {
        seq![]
    } else {
        let before = item_plans(schemas, stem, items.drop_last());
        match items.last().text {
            Some(src) => match item_plan(schemas, stem, items.last().slug@, src@) {
                Some(plan) => before.push(plan),
                None => before,
            },
            None => before,
        }
    }
}

/// The plans for a stem: its items, and the page of its collection.
pub open spec fn stem_plans(
    schemas: Seq<(Seq<char>, SchemaEntry)>,
    contents: StemContents,
) -> Seq<PlannedView> {
    let items = item_plans(schemas, contents.stem@, contents.items@);
    match contents.collection {
        Some(src) => match collection_plan(schemas, contents.stem@, src@) {
            Some(plan) => items.push(plan),
            None => items,
        },
        None => items,
    }
}

/// The plans for the content of a site, stem by stem.
pub open spec fn site_plans(
    schemas: Seq<(Seq<char>, SchemaEntry)>,
    stems: Seq<StemContents>,
) -> Seq<PlannedView>
    decreases stems.len(),
{
    if stems.len() == 0 {
        seq![]
    } else {
        site_plans(schemas, stems.drop_last()) + stem_plans(schemas, stems.last())
    }
}

impl Conductor {
    /// The key of a schema that could be read, and its grammar.
    fn readable<'a>(&'a self, own: String, stem: &str) -> (r: Option<(String, &'a Grammar)>)
        ensures
            match r {
                Some((key, grammar)) => readable_key(self.schemas@, own@, stem@) == Some(key@)
                    && conductor::grammar_of(self.schemas@, key@) == Some(*grammar),
                None => readable_key(self.schemas@, own@, stem@) is None,
            },
    {
        if let Some(entry) = self.schemas.get(&own) {
            if let Ok(grammar) = &entry.grammar {
                return Some((own, grammar));
            }
        }
        let stem = stem.to_owned();
        if let Some(entry) = self.schemas.get(&stem) {
            if let Ok(grammar) = &entry.grammar {
                return Some((stem, grammar));
            }
        }
        None
    }

    /// Add the plan for an item.
    fn plan_item(&self, stem: &str, slug: &str, src: &str, out: &mut Vec<PlannedDocument>)
        ensures
            planned_views(final(out)@) == match item_plan(self.schemas@, stem@, slug@, src@) {
                Some(plan) => planned_views(old(out)@).push(plan),
                None => planned_views(old(out)@),
            },
    {
        let own = together(stem, "/item");
        if let Some((grammar_key, grammar)) = self.readable(own, stem) {
            if let Ok(document) = parse_and_assign(src, grammar) {
                let front = all_together("/", stem, "/");
                let url = together(front.as_str(), slug);
                let dir = all_together("content/", stem, "/");
                let file = all_together(dir.as_str(), slug, ".md");
                let meta = DocumentMeta {
                    url,
                    stem: stem.to_owned(),
                    file,
                    page_kind: "item".to_owned(),
                };
                let plan = PlannedDocument { meta, grammar_key, document };
                let ghost before = out@;
                let ghost view = plan@;
                out.push(plan);
                proof {
                    assert(planned_views(out@) =~= planned_views(before).push(view));
                }
            }
        }
    }

    /// Add the plan for the page of a collection.
    fn plan_collection(&self, stem: &str, src: &str, out: &mut Vec<PlannedDocument>)
        ensures
            planned_views(final(out)@) == match collection_plan(self.schemas@, stem@, src@) {
                Some(plan) => planned_views(old(out)@).push(plan),
                None => planned_views(old(out)@),
            },
    {
        let own = schema_cache_key(stem, "index");
        if let Some((grammar_key, grammar)) = self.readable(own, stem) {
            if let Ok(document) = parse_and_assign(src, grammar) {
                let meta = DocumentMeta {
                    url: url_for_stem_slug(stem, "index"),
                    stem: stem.to_owned(),
                    file: site::content_file_path(stem, "index"),
                    page_kind: "collection".to_owned(),
                };
                let plan = PlannedDocument { meta, grammar_key, document };
                let ghost before = out@;
                let ghost view = plan@;
                out.push(plan);
                proof {
                    assert(planned_views(out@) =~= planned_views(before).push(view));
                }
            }
        }
    }

    /// The documents that the content of a site is made of, stem by stem: the
    /// items, then the page of the collection. Content that no schema could be
    /// read for is passed over.
    pub fn plan_documents(&self, stems: &Vec<StemContents>) -> (r: Vec<PlannedDocument>)
        ensures
            planned_views(r@) == site_plans(self.schemas@, stems@),
    {
        let mut out: Vec<PlannedDocument> = Vec::new();
        let mut i: usize = 0;
        proof {
            assert(stems@.take(0) =~= seq![]);
            assert(planned_views(out@) =~= seq![]);
        }
        while i < stems.len()
            invariant
                i <= stems.len(),
                planned_views(out@) == site_plans(self.schemas@, stems@.take(i as int)),
            decreases stems.len() - i,
        {
            let contents = &stems[i];
            let ghost start = planned_views(out@);
            proof {
                assert(stems@.take(i + 1).drop_last() =~= stems@.take(i as int));
                assert(stems@.take(i + 1).last() == *contents);
                assert(contents.items@.take(0) =~= seq![]);
                assert(start =~= start + item_plans(
                    self.schemas@,
                    contents.stem@,
                    contents.items@.take(0),
                ));
            }
            let mut j: usize = 0;
            while j < contents.items.len()
                invariant
                    j <= contents.items.len(),
                    planned_views(out@) == start + item_plans(
                        self.schemas@,
                        contents.stem@,
                        contents.items@.take(j as int),
                    ),
                decreases contents.items.len() - j,
            {
                let item = &contents.items[j];
                proof {
                    assert(contents.items@.take(j + 1).drop_last() =~= contents.items@.take(
                        j as int,
                    ));
                    assert(contents.items@.take(j + 1).last() == *item);
                }
                if let Some(src) = &item.text {
                    self.plan_item(
                        contents.stem.as_str(),
                        item.slug.as_str(),
                        src.as_str(),
                        &mut out,
                    );
                }
                proof {
                    assert(planned_views(out@) =~= start + item_plans(
                        self.schemas@,
                        contents.stem@,
                        contents.items@.take(j + 1),
                    ));
                }
                j += 1;
            }
            proof {
                assert(contents.items@.take(j as int) =~= contents.items@);
            }
            if let Some(src) = &contents.collection {
                self.plan_collection(contents.stem.as_str(), src.as_str(), &mut out);
            }
            proof {
                assert(planned_views(out@) =~= start + stem_plans(self.schemas@, *contents));
            }
            i += 1;
        }
        proof {
            assert(stems@.take(i as int) =~= stems@);
        }
        out
    }
}

/// The places of the documents among the first that are pages of collections, or
/// of those that are not.
pub open spec fn places_of_kind(plans: Seq<PlannedView>, collections: bool, n: int) -> Seq<usize>
    decreases n,
{
    if n <= 0 {
        seq![]
    } else if (plans[n - 1].page_kind == "collection"@) == collections {
        places_of_kind(plans, collections, n - 1).push((n - 1) as usize)
    } else {
        places_of_kind(plans, collections, n - 1)
    }
}

/// The order in which it is worked out what is shown of the documents: items come
/// before collections, so that the links of a collection find what is shown of
/// its items.
pub open spec fn linking_order_of(plans: Seq<PlannedView>) -> Seq<usize> {
    places_of_kind(plans, false, plans.len() as int) + places_of_kind(
        plans,
        true,
        plans.len() as int,
    )
}

/// Add the places of the documents of a kind.
fn add_places(plans: &Vec<PlannedDocument>, collections: bool, out: &mut Vec<usize>)
    ensures
        final(out)@ == old(out)@ + places_of_kind(
            planned_views(plans@),
            collections,
            plans@.len() as int,
        ),
{
    let ghost start = out@;
    let ghost all = planned_views(plans@);
    let mut i: usize = 0;
    proof {
        assert(start =~= start + places_of_kind(all, collections, 0));
    }
    while i < plans.len()
        invariant
            i <= plans.len(),
            all == planned_views(plans@),
            out@ == start + places_of_kind(all, collections, i as int),
        decreases plans.len() - i,
    {
        proof {
            assert(all[i as int] == plans@[i as int]@);
        }
        let is_collection = same(plans[i].meta.page_kind.as_str(), "collection");
        if is_collection == collections {
            let ghost before = out@;
            out.push(i);
            proof {
                assert(out@ =~= start + places_of_kind(all, collections, i + 1));
            }
        }
        i += 1;
    }
}

/// The order in which it is worked out what is shown of the documents.
pub fn linking_order(plans: &Vec<PlannedDocument>) -> (r: Vec<usize>)
    ensures
        r@ == linking_order_of(planned_views(plans@)),
{
    let mut out: Vec<usize> = Vec::new();
    add_places(plans, false, &mut out);
    add_places(plans, true, &mut out);
    proof {
        assert(out@ =~= linking_order_of(planned_views(plans@)));
    }
    out
}

/// The places of a kind lie within the documents, and are of that kind.
proof fn lemma_places(plans: Seq<PlannedView>, collections: bool, n: int)
    requires
        0 <= n <= plans.len(),
        n <= usize::MAX,
    ensures
        forall|k: int|
            0 <= k < places_of_kind(plans, collections, n).len() ==> (
            #[trigger] places_of_kind(plans, collections, n)[k]) < n && (plans[places_of_kind(
                plans,
                collections,
                n,
            )[k] as int].page_kind == "collection"@) == collections,
        forall|i: int|
            0 <= i < n && (plans[i].page_kind == "collection"@) == collections
                ==> places_of_kind(plans, collections, n).contains(#[trigger] (i as usize)),
    decreases n,
{
    if n > 0 {
        lemma_places(plans, collections, n - 1);
        let before = places_of_kind(plans, collections, n - 1);
        let all = places_of_kind(plans, collections, n);
        assert forall|k: int| 0 <= k < all.len() implies (#[trigger] all[k]) < n && (
        plans[all[k] as int].page_kind == "collection"@) == collections by {
            if k < before.len() {
                assert(all[k] == before[k]);
            }
        }
        assert forall|i: int|
            0 <= i < n && (plans[i].page_kind == "collection"@) == collections implies all.contains(
            #[trigger] (i as usize),
        ) by {
            if i < n - 1 {
                assert(before.contains(i as usize));
                let k = choose|k: int| 0 <= k < before.len() && before[k] == i as usize;
                assert(all[k] == i as usize);
            } else {
                assert(all[before.len() as int] == i as usize);
            }
        }
    }
}

/// Every document has its place in the order.
pub proof fn law_every_document_is_linked(plans: Seq<PlannedView>, i: int)
    requires
        plans.len() <= usize::MAX,
        0 <= i < plans.len(),
    ensures
        linking_order_of(plans).contains(i as usize),
{
    let n = plans.len() as int;
    let items = places_of_kind(plans, false, n);
    let pages = places_of_kind(plans, true, n);
    let all = linking_order_of(plans);
    lemma_places(plans, false, n);
    lemma_places(plans, true, n);
    if plans[i].page_kind == "collection"@ {
        let k = choose|k: int| 0 <= k < pages.len() && pages[k] == i as usize;
        assert(all[items.len() + k] == i as usize);
    } else {
        let k = choose|k: int| 0 <= k < items.len() && items[k] == i as usize;
        assert(all[k] == i as usize);
    }
}

/// An item comes before each page of a collection.
pub proof fn law_items_come_first(plans: Seq<PlannedView>, a: int, b: int)
    requires
        plans.len() <= usize::MAX,
        0 <= a < linking_order_of(plans).len(),
        0 <= b < linking_order_of(plans).len(),
        linking_order_of(plans)[a] < plans.len() && plans[linking_order_of(plans)[a] as int].page_kind
            != "collection"@,
        linking_order_of(plans)[b] < plans.len() && plans[linking_order_of(plans)[b] as int].page_kind
            == "collection"@,
    ensures
        a < b,
{
    let n = plans.len() as int;
    let items = places_of_kind(plans, false, n);
    let pages = places_of_kind(plans, true, n);
    let all = linking_order_of(plans);
    lemma_places(plans, false, n);
    lemma_places(plans, true, n);
    if a >= items.len() {
        assert(all[a] == pages[a - items.len()]);
    }
    if b < items.len() {
        assert(all[b] == items[b]);
    }
}

/// The documents by URL, once the first of the planned ones were put into the
/// store.
pub open spec fn urls_of(plans: Seq<PlannedView>, roots: Seq<NodeId>, n: int) -> Seq<
    (Seq<char>, NodeId),
>
    decreases n,
{
    if n <= 0 {
        seq![]
    } else {
        table::with_entry(urls_of(plans, roots, n - 1), plans[n - 1].url, roots[n - 1])
    }
}

/// The documents by file, once the first of the planned ones were put into the
/// store.
pub open spec fn files_of(plans: Seq<PlannedView>, roots: Seq<NodeId>, n: int) -> Seq<
    (Seq<Seq<char>>, NodeId),
>
    decreases n,
{
    if n <= 0 {
        seq![]
    } else {
        table::with_entry(
            files_of(plans, roots, n - 1),
            path::components_of(plans[n - 1].file),
            roots[n - 1],
        )
    }
}

/// The entries with one more document for a stem.
pub open spec fn with_stem_root(
    entries: Seq<(Seq<char>, Seq<NodeId>)>,
    stem: Seq<char>,
    root: NodeId,
) -> Seq<(Seq<char>, Seq<NodeId>)> {
    table::with_entry(
        entries,
        stem,
        match table::found(entries, stem) {
            Some(roots) => roots.push(root),
            None => seq![root],
        },
    )
}

/// The documents by stem, once the first of the planned ones were put into the
/// store.
pub open spec fn stems_of(plans: Seq<PlannedView>, roots: Seq<NodeId>, n: int) -> Seq<
    (Seq<char>, Seq<NodeId>),
>
    decreases n,
{
    if n <= 0 {
        seq![]
    } else {
        with_stem_root(stems_of(plans, roots, n - 1), plans[n - 1].stem, roots[n - 1])
    }
}

/// What is shown by URL, once it was worked out for the first documents in the
/// given order.
pub open spec fn shown_by(
    plans: Seq<PlannedView>,
    order: Seq<usize>,
    semantics: Seq<NodeId>,
    n: int,
) -> Seq<(Seq<char>, NodeId)>
    decreases n,
{
    if n <= 0 {
        seq![]
    } else if order[n - 1] < plans.len() {
        table::with_entry(
            shown_by(plans, order, semantics, n - 1),
            plans[order[n - 1] as int].url,
            semantics[n - 1],
        )
    } else {
        shown_by(plans, order, semantics, n - 1)
    }
}

/// The smaller of two lengths.
pub open spec fn shorter(a: nat, b: nat) -> int {
    if a < b {
        a as int
    } else {
        b as int
    }
}

/// Add a document to those of a stem.
fn push_stem_root(stems: &mut Table<String, Vec<NodeId>>, stem: &String, root: NodeId)
    ensures
        rebuild::seen_roots(final(stems)@) == with_stem_root(
            rebuild::seen_roots(old(stems)@),
            stem@,
            root,
        ),
{
    let mut roots = match stems.get(stem) {
        Some(roots) => copy_ids(roots),
        None => Vec::new(),
    };
    let ghost before = roots@;
    roots.push(root);
    proof {
        table::lemma_seen_found(stems@, rebuild::ids_view(), stem@);
        table::lemma_seen_entry(stems@, rebuild::ids_view(), stem@, roots);
        assert(before.push(root) =~= seq![root] || before.len() > 0);
    }
    stems.insert(stem.clone(), roots);
}

/// Whether the indexes of a state are those of the given documents.
pub open spec fn is_indexed(
    c: Conductor,
    plans: Seq<PlannedView>,
    roots: Seq<NodeId>,
    order: Seq<usize>,
    semantics: Seq<NodeId>,
) -> bool {
    let n = shorter(plans.len(), roots.len());
    let m = shorter(order.len(), semantics.len());
    &&& c.url_to_root@ == urls_of(plans, roots, n)
    &&& c.path_to_doc_root@ == files_of(plans, roots, n)
    &&& rebuild::seen_roots(c.stem_to_roots@) == stems_of(plans, roots, n)
    &&& c.url_to_semantic@ == shown_by(plans, order, semantics, m)
}

impl Conductor {
    /// Replace the store and the indexes by those of the given documents: the
    /// documents stand in the order of the plans, what is shown of them in the
    /// given order.
    pub fn index_documents(
        &mut self,
        store: NodeStore,
        plans: &Vec<PlannedDocument>,
        roots: &Vec<NodeId>,
        order: &Vec<usize>,
        semantics: &Vec<NodeId>,
    )
        ensures
            is_indexed(
                *final(self),
                planned_views(plans@),
                roots@,
                order@,
                semantics@,
            ),
            *final(self) == (Conductor {
                store,
                url_to_root: final(self).url_to_root,
                url_to_semantic: final(self).url_to_semantic,
                stem_to_roots: final(self).stem_to_roots,
                path_to_doc_root: final(self).path_to_doc_root,
                ..*old(self)
            }),
    {
        let ghost all = planned_views(plans@);
        let mut urls: Table<String, NodeId> = Table::new();
        let mut files: Table<SitePath, NodeId> = Table::new();
        let mut stems: Table<String, Vec<NodeId>> = Table::new();
        let mut i: usize = 0;
        proof {
            assert(rebuild::seen_roots(stems@) =~= seq![]);
            assert(all.len() == plans@.len());
        }
        while i < plans.len() && i < roots.len()
            invariant
                i <= plans.len(),
                i <= roots.len(),
                all == planned_views(plans@),
                urls@ == urls_of(all, roots@, i as int),
                files@ == files_of(all, roots@, i as int),
                rebuild::seen_roots(stems@) == stems_of(all, roots@, i as int),
            decreases plans.len() - i,
        {
            let meta = &plans[i].meta;
            proof {
                assert(all[i as int] == plans@[i as int]@);
            }
            urls.insert(meta.url.clone(), roots[i]);
            files.insert(SitePath::new(meta.file.as_str()), roots[i]);
            push_stem_root(&mut stems, &meta.stem, roots[i]);
            i += 1;
        }
        let mut shown: Table<String, NodeId> = Table::new();
        let mut k: usize = 0;
        while k < order.len() && k < semantics.len()
            invariant
                k <= order.len(),
                k <= semantics.len(),
                all == planned_views(plans@),
                shown@ == shown_by(all, order@, semantics@, k as int),
            decreases order.len() - k,
        {
            let at = order[k];
            if at < plans.len() {
                proof {
                    assert(all[at as int] == plans@[at as int]@);
                }
                shown.insert(plans[at].meta.url.clone(), semantics[k]);
            }
            k += 1;
        }
        self.store = store;
        self.url_to_root = urls;
        self.path_to_doc_root = files;
        self.stem_to_roots = stems;
        self.url_to_semantic = shown;
    }
}

/// Whether a node is an attribute edge with the given name that leads to the given
/// node.
pub open spec fn is_attribute(edge: Edge, name: Seq<char>, value: NodeId) -> bool {
    edge matches Edge::Attribute { name: n, value: v } && n@ == name && v == value
}

/// An attribute with the given name that leads to the given node.
fn attribute(name: &str, value: NodeId) -> (r: Edge)
    ensures
        is_attribute(r, name@, value),
{
    Edge::Attribute { name: name.to_owned(), value }
}

/// Whether a document is empty and stands for the root of the site: it has an empty
/// preamble and an empty body, no separator, no stem and no file.
pub open spec fn is_bare_root(store: NodeStore, root: NodeId) -> bool {
    &&& node_store::is_element(store, root, "document"@)
    &&& node_store::attr_text(store, root, "url"@) == Some("/"@)
    &&& node_store::attr_text(store, root, "stem"@) == Some(""@)
    &&& node_store::attr_text(store, root, "file"@) == Some(""@)
    &&& node_store::attr_text(store, root, "page-kind"@) == Some("collection"@)
    &&& node_store::children_of(store, root).len() == 2
    &&& node_store::is_element(store, node_store::children_of(store, root)[0], "preamble"@)
    &&& node_store::children_of(store, node_store::children_of(store, root)[0]).len() == 0
    &&& node_store::is_element(store, node_store::children_of(store, root)[1], "body"@)
    &&& node_store::children_of(store, node_store::children_of(store, root)[1]).len() == 0
    &&& exists|k: int|
        0 <= k < node_store::edges_at(store, root).len() && says_no_separator(
            store,
            #[trigger] node_store::edges_at(store, root)[k],
        )
}

/// Whether an edge says that a document has no separator.
pub open spec fn says_no_separator(store: NodeStore, edge: Edge) -> bool {
    edge matches Edge::Attribute { name, value } && name@ == "has-separator"@
        && node_store::node_at(store, value) == Some(Node::Boolean(false))
}

/// Whether a node shows the root of the site without any content.
pub open spec fn is_bare_semantic(store: NodeStore, semantic: NodeId) -> bool {
    &&& node_store::is_element(store, semantic, "semantic-content"@)
    &&& node_store::attr_text(store, semantic, "stem"@) == Some(""@)
    &&& node_store::attr_text(store, semantic, "page-kind"@) == Some("collection"@)
    &&& node_store::attr_text(store, semantic, "url"@) == Some("/"@)
}

/// The text of an attribute is that of the first edge with its name.
proof fn lemma_attr_at(store: NodeStore, edges: Seq<Edge>, name: Seq<char>, k: int, value: NodeId)
    requires
        0 <= k < edges.len(),
        is_attribute(edges[k], name, value),
        node_store::text_at(store, value) is Some,
        forall|j: int|
            0 <= j < k ==> !((#[trigger] edges[j]) matches Edge::Attribute { name: n, .. } && n@
                == name),
    ensures
        node_store::attr_among(store, edges, name) == node_store::text_at(store, value),
    decreases k,
{
    if k > 0 {
        let rest = edges.skip(1);
        assert forall|j: int| 0 <= j < k - 1 implies !((#[trigger] rest[j]) matches Edge::Attribute {
            name: n,
            ..
        } && n@ == name) by {
            assert(rest[j] == edges[j + 1]);
        }
        assert(rest[k - 1] == edges[k]);
        assert(!(edges[0] matches Edge::Attribute { name: n, .. } && n@ == name));
        lemma_attr_at(store, rest, name, k - 1, value);
    }
}

/// Attributes lead to no children.
proof fn lemma_no_children(edges: Seq<Edge>)
    requires
        forall|j: int| 0 <= j < edges.len() ==> (#[trigger] edges[j]) is Attribute,
    ensures
        node_store::child_ends(edges) =~= Seq::<NodeId>::empty(),
    decreases edges.len(),
{
    if edges.len() > 0 {
        assert(edges[edges.len() - 1] is Attribute);
        assert forall|j: int| 0 <= j < edges.drop_last().len() implies (
        #[trigger] edges.drop_last()[j]) is Attribute by {
            assert(edges.drop_last()[j] == edges[j]);
        }
        lemma_no_children(edges.drop_last());
    }
}

/// The names of the attributes of a bare root differ.
proof fn lemma_names_differ()
    ensures
        "url"@ != "stem"@,
        "url"@ != "file"@,
        "url"@ != "page-kind"@,
        "stem"@ != "file"@,
        "stem"@ != "page-kind"@,
        "file"@ != "page-kind"@,
{
    reveal_strlit("url");
    reveal_strlit("stem");
    reveal_strlit("file");
    reveal_strlit("page-kind");
    assert("url"@.len() == 3 && "stem"@.len() == 4 && "file"@.len() == 4 && "page-kind"@.len()
        == 9);
    assert("stem"@[0] == 's');
    assert("file"@[0] == 'f');
}

/// Put an empty document for the root of the site into a store, and what is shown
/// of it.
fn add_bare_root(store: &mut NodeStore) -> (r: (NodeId, NodeId))
    ensures
        final(store).nodes@.len() > old(store).nodes@.len(),
        final(store).nodes@.take(old(store).nodes@.len() as int) == old(store).nodes@,
        is_bare_root(*final(store), r.0),
        is_bare_semantic(*final(store), r.1),
        old(store).nodes@.len() <= r.0.0 < final(store).nodes@.len(),
        old(store).nodes@.len() <= r.1.0 < final(store).nodes@.len(),
{
    let ghost before = store.nodes@;
    let slash = store.add_node(Node::Text("/".to_owned()));
    let nothing = store.add_node(Node::Text("".to_owned()));
    let kind = store.add_node(Node::Text("collection".to_owned()));
    let separator = store.add_node(Node::Boolean(false));
    let preamble = store.add_node(Node::Element("preamble".to_owned()));
    let body = store.add_node(Node::Element("body".to_owned()));
    let ghost leaves = store.nodes@;
    let mut edges: Vec<Edge> = Vec::new();
    edges.push(attribute("url", slash));
    edges.push(attribute("stem", nothing));
    edges.push(attribute("file", nothing));
    edges.push(attribute("page-kind", kind));
    edges.push(attribute("has-separator", separator));
    let ghost attributes = edges@;
    edges.push(Edge::Child(preamble));
    let ghost with_first = edges@;
    edges.push(Edge::Child(body));
    let ghost own = edges@;
    let root = NodeId(store.nodes.len());
    store.nodes.push(NodeEntry { node: Node::Element("document".to_owned()), edges });
    let mut shown: Vec<Edge> = Vec::new();
    shown.push(attribute("stem", nothing));
    shown.push(attribute("page-kind", kind));
    shown.push(attribute("url", slash));
    let ghost visible = shown@;
    let semantic = NodeId(store.nodes.len());
    store.nodes.push(
        NodeEntry { node: Node::Element("semantic-content".to_owned()), edges: shown },
    );
    proof {
        let n = before.len() as int;
        let all = store.nodes@;
        assert(leaves.len() == n + 6);
        let l5 = leaves.drop_last();
        let l4 = l5.drop_last();
        let l3 = l4.drop_last();
        let l2 = l3.drop_last();
        let l1 = l2.drop_last();
        assert(l1.drop_last() =~= before);
        assert(all[n] == leaves[n] && leaves[n] == l1.last());
        assert(all[n + 1] == leaves[n + 1] && leaves[n + 1] == l2.last());
        assert(all[n + 2] == leaves[n + 2] && leaves[n + 2] == l3.last());
        assert(all[n + 3] == leaves[n + 3] && leaves[n + 3] == l4.last());
        assert(all[n + 4] == leaves[n + 4] && leaves[n + 4] == l5.last());
        assert(all[n + 5] == leaves[n + 5] && leaves[n + 5] == leaves.last());
        assert forall|i: int| 0 <= i < n implies #[trigger] all[i] == before[i] by {
            assert(l1.drop_last()[i] == leaves[i]);
        }
        assert(all.take(n) =~= before);
        assert(node_store::text_at(*store, slash) == Some("/"@));
        assert(node_store::text_at(*store, nothing) == Some(""@));
        assert(node_store::text_at(*store, kind) == Some("collection"@));
        lemma_names_differ();
        assert(node_store::edges_at(*store, root) == own);
        lemma_attr_at(*store, own, "url"@, 0, slash);
        lemma_attr_at(*store, own, "stem"@, 1, nothing);
        lemma_attr_at(*store, own, "file"@, 2, nothing);
        lemma_attr_at(*store, own, "page-kind"@, 3, kind);
        lemma_no_children(attributes);
        assert(with_first.drop_last() =~= attributes);
        assert(own.drop_last() =~= with_first);
        assert(node_store::child_ends(with_first) =~= seq![preamble]);
        assert(node_store::child_ends(own) =~= seq![preamble, body]);
        assert(node_store::edges_at(*store, preamble) =~= Seq::<Edge>::empty());
        assert(node_store::edges_at(*store, body) =~= Seq::<Edge>::empty());
        assert(says_no_separator(*store, node_store::edges_at(*store, root)[4]));
        assert(node_store::edges_at(*store, semantic) == visible);
        lemma_attr_at(*store, visible, "stem"@, 0, nothing);
        lemma_attr_at(*store, visible, "page-kind"@, 1, kind);
        lemma_attr_at(*store, visible, "url"@, 2, slash);
    }
    (root, semantic)
}

/// Whether a site gets an empty page for its root: no content is there for it, but
/// a template is.
pub open spec fn needs_bare_root(c: Conductor, has_root_template: bool) -> bool {
    has_root_template && !table::has_key(c.url_to_root@, "/"@)
}

/// Whether an empty page was put in for the root of the site, where it needs one.
pub open spec fn is_rooted(before: Conductor, has_root_template: bool, after: Conductor) -> bool {
    if needs_bare_root(before, has_root_template) {
        let n = before.store.nodes@.len() as int;
        &&& after.store.nodes@.len() > n
        &&& after.store.nodes@.take(n) == before.store.nodes@
        &&& table::found(after.url_to_root@, "/"@) matches Some(root) && n <= root.0
            && is_bare_root(after.store, root) && after.url_to_root@ == table::with_entry(
            before.url_to_root@,
            "/"@,
            root,
        ) && rebuild::seen_roots(after.stem_to_roots@) == with_stem_root(
            rebuild::seen_roots(before.stem_to_roots@),
            ""@,
            root,
        )
        &&& table::found(after.url_to_semantic@, "/"@) matches Some(semantic) && n <= semantic.0
            && is_bare_semantic(after.store, semantic) && after.url_to_semantic@
            == table::with_entry(before.url_to_semantic@, "/"@, semantic)
        &&& after == (Conductor {
            store: after.store,
            url_to_root: after.url_to_root,
            url_to_semantic: after.url_to_semantic,
            stem_to_roots: after.stem_to_roots,
            ..before
        })
    } else {
        after == before
    }
}

impl Conductor {
    /// Put in an empty page for the root of the site, where no content is there
    /// for it, but a template is.
    pub fn add_fallback_root(&mut self, has_root_template: bool)
        ensures
            is_rooted(*old(self), has_root_template, *final(self)),
    {
        let slash = "/".to_owned();
        if !has_root_template || self.url_to_root.contains_key(&slash) {
            return;
        }
        let (root, semantic) = add_bare_root(&mut self.store);
        proof {
            table::law_entry_is_found(self.url_to_root@, "/"@, root);
            table::law_entry_is_found(self.url_to_semantic@, "/"@, semantic);
        }
        self.url_to_root.insert("/".to_owned(), root);
        push_stem_root(&mut self.stem_to_roots, &"".to_owned(), root);
        self.url_to_semantic.insert("/".to_owned(), semantic);
    }
}

/// Whether the documents have different URLs, and lie in different files.
pub open spec fn are_apart(plans: Seq<PlannedView>) -> bool {
    &&& forall|i: int, j: int|
        0 <= i < j < plans.len() ==> (#[trigger] plans[i]).url != (#[trigger] plans[j]).url
    &&& forall|i: int, j: int|
        0 <= i < j < plans.len() ==> path::components_of((#[trigger] plans[i]).file)
            != path::components_of((#[trigger] plans[j]).file)
}

/// A document that was put into the store is found by its URL and by its file, and
/// stands once among those of its stem.
proof fn lemma_loaded(plans: Seq<PlannedView>, roots: Seq<NodeId>, n: int, k: int)
    requires
        are_apart(plans),
        roots.no_duplicates(),
        0 <= k < n <= plans.len(),
        n <= roots.len(),
    ensures
        table::found(urls_of(plans, roots, n), plans[k].url) == Some(roots[k]),
        table::found(files_of(plans, roots, n), path::components_of(plans[k].file)) == Some(
            roots[k],
        ),
        table::found(stems_of(plans, roots, n), plans[k].stem) matches Some(list)
            && list.contains(roots[k]) && list.no_duplicates(),
    decreases n,
{
    let last = plans[n - 1];
    let root = roots[n - 1];
    let urls = urls_of(plans, roots, n - 1);
    let files = files_of(plans, roots, n - 1);
    let stems = stems_of(plans, roots, n - 1);
    let value = match table::found(stems, last.stem) {
        Some(list) => list.push(root),
        None => seq![root],
    };
    table::law_entry_is_found(stems, last.stem, value);
    if k == n - 1 {
        table::law_entry_is_found(urls, last.url, root);
        table::law_entry_is_found(files, path::components_of(last.file), root);
        assert(value.last() == root);
        assert(value.contains(root)) by {
            assert(value[value.len() - 1] == root);
        }
        lemma_stem_lists(plans, roots, n - 1, last.stem);
        lemma_new_root(plans, roots, n, last.stem);
    } else {
        lemma_loaded(plans, roots, n - 1, k);
        assert(plans[k].url != last.url);
        table::law_entry_keeps_others(urls, last.url, root, plans[k].url);
        assert(path::components_of(plans[k].file) != path::components_of(last.file));
        table::law_entry_keeps_others(
            files,
            path::components_of(last.file),
            root,
            path::components_of(plans[k].file),
        );
        if plans[k].stem == last.stem {
            let list = table::found(stems, last.stem)->0;
            let i = choose|i: int| 0 <= i < list.len() && list[i] == roots[k];
            assert(value[i] == roots[k]);
            lemma_stem_lists(plans, roots, n - 1, last.stem);
            lemma_new_root(plans, roots, n, last.stem);
        } else {
            table::law_entry_keeps_others(stems, last.stem, value, plans[k].stem);
        }
    }
}

/// The documents of a stem are among the first that were put into the store.
proof fn lemma_stem_lists(plans: Seq<PlannedView>, roots: Seq<NodeId>, n: int, stem: Seq<char>)
    requires
        roots.no_duplicates(),
        0 <= n <= plans.len(),
        n <= roots.len(),
    ensures
        table::found(stems_of(plans, roots, n), stem) matches Some(list) ==> (
        list.no_duplicates() && forall|i: int|
            0 <= i < list.len() ==> roots.take(n).contains(#[trigger] list[i])),
    decreases n,
{
    if n > 0 {
        lemma_stem_lists(plans, roots, n - 1, stem);
        let last = plans[n - 1];
        let root = roots[n - 1];
        let stems = stems_of(plans, roots, n - 1);
        let value = match table::found(stems, last.stem) {
            Some(list) => list.push(root),
            None => seq![root],
        };
        let known = roots.take(n - 1);
        let now = roots.take(n);
        assert forall|id: NodeId| known.contains(id) implies now.contains(id) by {
            let i = choose|i: int| 0 <= i < known.len() && known[i] == id;
            assert(now[i] == id);
        }
        assert(now[n - 1] == root);
        if stem == last.stem {
            table::law_entry_is_found(stems, stem, value);
            lemma_new_root(plans, roots, n, stem);
            assert forall|i: int| 0 <= i < value.len() implies now.contains(#[trigger] value[i]) by {
                if table::found(stems, stem) is Some && i < value.len() - 1 {
                    assert(value[i] == table::found(stems, stem)->0[i]);
                }
            }
        } else {
            table::law_entry_keeps_others(stems, last.stem, value, stem);
        }
    } else {
        assert(table::found(stems_of(plans, roots, n), stem) is None) by {
            table::lemma_place_of(stems_of(plans, roots, n), stem);
        }
    }
}

/// A document that is new is not among those of its stem yet.
proof fn lemma_new_root(plans: Seq<PlannedView>, roots: Seq<NodeId>, n: int, stem: Seq<char>)
    requires
        roots.no_duplicates(),
        0 < n <= plans.len(),
        n <= roots.len(),
        table::found(stems_of(plans, roots, n - 1), stem) matches Some(list) ==> (
        list.no_duplicates() && forall|i: int|
            0 <= i < list.len() ==> roots.take(n - 1).contains(#[trigger] list[i])),
    ensures
        ({
            let value = match table::found(stems_of(plans, roots, n - 1), stem) {
                Some(list) => list.push(roots[n - 1]),
                None => seq![roots[n - 1]],
            };
            value.no_duplicates()
        }),
{
    if let Some(list) = table::found(stems_of(plans, roots, n - 1), stem) {
        let root = roots[n - 1];
        let value = list.push(root);
        let known = roots.take(n - 1);
        assert forall|i: int| 0 <= i < list.len() implies list[i] != root by {
            assert(known.contains(list[i]));
            let j = choose|j: int| 0 <= j < known.len() && known[j] == list[i];
            assert(roots[j] == list[i]);
        }
        assert forall|i: int, j: int|
            0 <= i < value.len() && 0 <= j < value.len() && i != j implies value[i] != value[j] by {
            if i < list.len() && j < list.len() {
                assert(list[i] != list[j]);
            }
        }
    }
}

/// Once a site was loaded, the URL and the file of a document lead to the same
/// document, and it stands once among those of its stem. The documents have
/// different URLs and files, and are different nodes.
pub proof fn law_loaded_document_is_found(
    c: Conductor,
    plans: Seq<PlannedView>,
    roots: Seq<NodeId>,
    order: Seq<usize>,
    semantics: Seq<NodeId>,
    k: int,
)
    requires
        is_indexed(c, plans, roots, order, semantics),
        are_apart(plans),
        roots.no_duplicates(),
        0 <= k < shorter(plans.len(), roots.len()),
    ensures
        table::found(c.url_to_root@, plans[k].url) == Some(roots[k]),
        table::found(c.path_to_doc_root@, path::components_of(plans[k].file)) == Some(roots[k]),
        table::found(rebuild::seen_roots(c.stem_to_roots@), plans[k].stem) matches Some(list)
            && list.contains(roots[k]) && list.no_duplicates() && forall|i: int|
            0 <= i < list.len() ==> roots.contains(#[trigger] list[i]),
{
    let n = shorter(plans.len(), roots.len());
    lemma_loaded(plans, roots, n, k);
    lemma_stem_lists(plans, roots, n, plans[k].stem);
    let list = table::found(rebuild::seen_roots(c.stem_to_roots@), plans[k].stem)->0;
    assert forall|i: int| 0 <= i < list.len() implies roots.contains(#[trigger] list[i]) by {
        let first = roots.take(n);
        assert(first.contains(list[i]));
        let at = choose|at: int| 0 <= at < first.len() && first[at] == list[i];
        assert(roots[at] == list[i]);
    }
}

/// The same documents have the same keys in the indexes, and each stem has as many of
/// them, whatever nodes they are.
proof fn lemma_same_counts(
    plans: Seq<PlannedView>,
    first: Seq<NodeId>,
    second: Seq<NodeId>,
    n: int,
)
    requires
        0 <= n <= plans.len(),
    ensures
        table::keys_of(urls_of(plans, first, n)) == table::keys_of(urls_of(plans, second, n)),
        table::keys_of(files_of(plans, first, n)) == table::keys_of(files_of(plans, second, n)),
        table::keys_of(stems_of(plans, first, n)) == table::keys_of(stems_of(plans, second, n)),
        forall|i: int|
            0 <= i < stems_of(plans, first, n).len() ==> (#[trigger] stems_of(
                plans,
                first,
                n,
            )[i]).1.len() == stems_of(plans, second, n)[i].1.len(),
    decreases n,
{
    if n > 0 {
        lemma_same_counts(plans, first, second, n - 1);
        let last = plans[n - 1];
        let file = path::components_of(last.file);
        table::lemma_same_keys(
            urls_of(plans, first, n - 1),
            urls_of(plans, second, n - 1),
            last.url,
            first[n - 1],
            second[n - 1],
        );
        table::lemma_same_keys(
            files_of(plans, first, n - 1),
            files_of(plans, second, n - 1),
            file,
            first[n - 1],
            second[n - 1],
        );
        let a = stems_of(plans, first, n - 1);
        let b = stems_of(plans, second, n - 1);
        let x = match table::found(a, last.stem) {
            Some(roots) => roots.push(first[n - 1]),
            None => seq![first[n - 1]],
        };
        let y = match table::found(b, last.stem) {
            Some(roots) => roots.push(second[n - 1]),
            None => seq![second[n - 1]],
        };
        table::lemma_same_keys(a, b, last.stem, x, y);
        table::lemma_place_of(a, last.stem);
        let at = table::place_of(a, last.stem);
        assert(a.len() == b.len()) by {
            assert(table::keys_of(a).len() == table::keys_of(b).len());
        }
        assert(x.len() == y.len());
        let after = stems_of(plans, first, n);
        assert forall|i: int| 0 <= i < after.len() implies (#[trigger] after[i]).1.len()
            == stems_of(plans, second, n)[i].1.len() by {
            if i < a.len() {
                assert(a[i].1.len() == b[i].1.len());
            }
        }
    } else {
        assert(table::keys_of(urls_of(plans, first, n)) =~= table::keys_of(
            urls_of(plans, second, n),
        ));
        assert(table::keys_of(files_of(plans, first, n)) =~= table::keys_of(
            files_of(plans, second, n),
        ));
        assert(table::keys_of(stems_of(plans, first, n)) =~= table::keys_of(
            stems_of(plans, second, n),
        ));
    }
}

/// Loading the same documents again gives the same URLs and files, and as many
/// documents of each stem.
pub proof fn law_second_load_has_the_same_counts(
    first: Conductor,
    second: Conductor,
    plans: Seq<PlannedView>,
    first_roots: Seq<NodeId>,
    second_roots: Seq<NodeId>,
    first_semantics: Seq<NodeId>,
    second_semantics: Seq<NodeId>,
    first_order: Seq<usize>,
    second_order: Seq<usize>,
)
    requires
        is_indexed(first, plans, first_roots, first_order, first_semantics),
        is_indexed(second, plans, second_roots, second_order, second_semantics),
        first_roots.len() == second_roots.len(),
    ensures
        table::keys_of(first.url_to_root@) == table::keys_of(second.url_to_root@),
        first.url_to_root@.len() == second.url_to_root@.len(),
        table::keys_of(first.path_to_doc_root@) == table::keys_of(second.path_to_doc_root@),
        first.path_to_doc_root@.len() == second.path_to_doc_root@.len(),
        table::keys_of(first.stem_to_roots@) == table::keys_of(second.stem_to_roots@),
        first.stem_to_roots@.len() == second.stem_to_roots@.len(),
        forall|i: int|
            0 <= i < first.stem_to_roots@.len() ==> (#[trigger] first.stem_to_roots@[i]).1@.len()
                == second.stem_to_roots@[i].1@.len(),
{
    let n = shorter(plans.len(), first_roots.len());
    lemma_same_counts(plans, first_roots, second_roots, n);
    let a = rebuild::seen_roots(first.stem_to_roots@);
    let b = rebuild::seen_roots(second.stem_to_roots@);
    assert(first.url_to_root@.len() == table::keys_of(first.url_to_root@).len());
    assert(second.url_to_root@.len() == table::keys_of(second.url_to_root@).len());
    assert(first.path_to_doc_root@.len() == table::keys_of(first.path_to_doc_root@).len());
    assert(second.path_to_doc_root@.len() == table::keys_of(second.path_to_doc_root@).len());
    assert(table::keys_of(first.stem_to_roots@) =~= table::keys_of(a));
    assert(table::keys_of(second.stem_to_roots@) =~= table::keys_of(b));
    assert(first.stem_to_roots@.len() == table::keys_of(first.stem_to_roots@).len());
    assert(second.stem_to_roots@.len() == table::keys_of(second.stem_to_roots@).len());
    assert forall|i: int| 0 <= i < first.stem_to_roots@.len() implies (
    #[trigger] first.stem_to_roots@[i]).1@.len() == second.stem_to_roots@[i].1@.len() by {
        assert(a[i].1.len() == stems_of(plans, first_roots, n)[i].1.len());
        assert(a[i].1 == first.stem_to_roots@[i].1@);
        assert(b[i].1 == second.stem_to_roots@[i].1@);
    }
}

/// Whether a text is the name of a file or a directory.
pub open spec fn is_name(text: Seq<char>) -> bool {
    !text.contains('/') && text != "."@
}

/// Whether contents are named as those of a site are: each stem is there once, and so
/// is each slug of a stem. The page of a collection is no item.
pub open spec fn are_named(stems: Seq<StemContents>) -> bool {
    &&& forall|i: int| 0 <= i < stems.len() ==> is_name((#[trigger] stems[i]).stem@)
    &&& forall|i: int, j: int|
        0 <= i < j < stems.len() ==> (#[trigger] stems[i]).stem@ != (#[trigger] stems[j]).stem@
    &&& forall|i: int| 0 <= i < stems.len() ==> have_slugs((#[trigger] stems[i]).items@)
}

/// Whether items have slugs of their own, and none is that of a collection.
pub open spec fn have_slugs(items: Seq<ItemSource>) -> bool {
    &&& forall|j: int|
        0 <= j < items.len() ==> !(#[trigger] items[j]).slug@.contains('/') && items[j].slug@.len()
            > 0 && items[j].slug@ != "index"@
    &&& forall|j: int, k: int|
        0 <= j < k < items.len() ==> (#[trigger] items[j]).slug@ != (#[trigger] items[k]).slug@
}

/// What begins with a text without a slash, and goes on behind one, has that text as
/// its first segment.
proof fn lemma_first_segment(a: Seq<char>, b: Seq<char>)
    requires
        !a.contains('/'),
    ensures
        text::split_of(a + "/"@ + b, '/') == seq![a] + text::split_of(b, '/'),
{
    reveal_strlit("/");
    let all = a + "/"@ + b;
    let n = a.len() as int;
    assert(all[n] == '/');
    assert forall|k: int| 0 <= k < n implies all[k] != '/' by {
        assert(all[k] == a[k]);
        assert(a.contains(a[k]));
    }
    text::lemma_first_index_is(all, '/', n);
    assert(all.take(n) =~= a);
    assert(all.skip(n + 1) =~= b);
}

/// A text without a slash is its only segment.
proof fn lemma_only_segment(s: Seq<char>)
    requires
        !s.contains('/'),
    ensures
        text::split_of(s, '/') == seq![s],
{
    text::lemma_first_index(s, '/');
    let n = text::first_index(s, '/');
    if n < s.len() {
        assert(s[n] == '/');
    }
}

/// Where the page of a stem and a slug is, by its segments. The slug of a collection
/// is empty.
spec fn url_at(stem: Seq<char>, slug: Seq<char>) -> Seq<char> {
    if stem.len() == 0 && slug.len() == 0 {
        "/"@
    } else {
        "/"@ + stem + "/"@ + slug
    }
}

/// The name of the file with the given slug. The slug of a collection is empty.
spec fn name_at(slug: Seq<char>) -> Seq<char> {
    if slug.len() == 0 {
        "index"@ + ".md"@
    } else {
        slug + ".md"@
    }
}

/// The components of the file with the given stem and slug.
spec fn parts_at(stem: Seq<char>, slug: Seq<char>) -> Seq<Seq<char>> {
    if stem.len() == 0 {
        seq!["content"@, name_at(slug)]
    } else {
        seq!["content"@, stem, name_at(slug)]
    }
}

/// Pages of different stems or slugs have different URLs.
proof fn lemma_urls_differ(a: (Seq<char>, Seq<char>), b: (Seq<char>, Seq<char>))
    requires
        !a.0.contains('/'),
        !a.1.contains('/'),
        !b.0.contains('/'),
        !b.1.contains('/'),
        a != b,
    ensures
        url_at(a.0, a.1) != url_at(b.0, b.1),
{
    lemma_url_segments(a.0, a.1);
    lemma_url_segments(b.0, b.1);
    let x = text::split_of(url_at(a.0, a.1), '/');
    let y = text::split_of(url_at(b.0, b.1), '/');
    if url_at(a.0, a.1) == url_at(b.0, b.1) {
        assert(x.len() == y.len());
        if x.len() == 3 {
            assert(x[1] == y[1] && x[2] == y[2]);
        } else {
            assert(a.0 =~= b.0 && a.1 =~= b.1);
        }
    }
}

/// The segments of the URL of a page.
proof fn lemma_url_segments(stem: Seq<char>, slug: Seq<char>)
    requires
        !stem.contains('/'),
        !slug.contains('/'),
    ensures
        text::split_of(url_at(stem, slug), '/') == (if stem.len() == 0 && slug.len() == 0 {
            seq![seq![], seq![]]
        } else {
            seq![seq![], stem, slug]
        }),
{
    reveal_strlit("/");
    let none: Seq<char> = seq![];
    assert(!none.contains('/'));
    lemma_only_segment(slug);
    if stem.len() == 0 && slug.len() == 0 {
        assert(url_at(stem, slug) =~= none + "/"@ + none);
        lemma_only_segment(none);
        lemma_first_segment(none, none);
        assert(seq![none] + seq![none] =~= seq![none, none]);
    } else {
        assert(url_at(stem, slug) =~= none + "/"@ + (stem + "/"@ + slug));
        lemma_first_segment(none, stem + "/"@ + slug);
        lemma_first_segment(stem, slug);
        assert(seq![none] + (seq![stem] + seq![slug]) =~= seq![none, stem, slug]);
    }
}

/// Pages of different stems or slugs lie in different files.
proof fn lemma_files_differ(a: (Seq<char>, Seq<char>), b: (Seq<char>, Seq<char>))
    requires
        a.1 != "index"@,
        b.1 != "index"@,
        a != b,
    ensures
        parts_at(a.0, a.1) != parts_at(b.0, b.1),
{
    let x = parts_at(a.0, a.1);
    let y = parts_at(b.0, b.1);
    if x == y {
        assert(x.last() == name_at(a.1));
        assert(y.last() == name_at(b.1));
        assert(x.len() == y.len());
        if a.0.len() > 0 {
            assert(x[1] == a.0 && y[1] == b.0);
        } else {
            assert(a.0 =~= b.0);
        }
        let m = name_at(a.1);
        let k = name_at(b.1);
        let n = m.len() - ".md"@.len();
        assert(m.take(n) =~= k.take(n));
        let p = if a.1.len() == 0 {
            "index"@
        } else {
            a.1
        };
        let q = if b.1.len() == 0 {
            "index"@
        } else {
            b.1
        };
        assert(m.take(n) =~= p);
        assert(k.take(n) =~= q);
        if a.1.len() == 0 && b.1.len() == 0 {
            assert(a.1 =~= b.1);
        }
    }
}

/// The components of the file of a page, from how the file is written.
proof fn lemma_file_parts(stem: Seq<char>, slug: Seq<char>, file: Seq<char>)
    requires
        is_name(stem),
        !slug.contains('/'),
        file == "content/"@ + stem + "/"@ + name_at(slug) || (stem.len() == 0 && file == "content/"@
            + name_at(slug)),
    ensures
        path::components_of(file) == parts_at(stem, slug),
{
    reveal_strlit("/");
    reveal_strlit("content/");
    reveal_strlit("content");
    reveal_strlit(".md");
    reveal_strlit("index");
    reveal_strlit(".");
    let name = name_at(slug);
    assert(!name.contains('/')) by {
        if name.contains('/') {
            let i = choose|i: int| 0 <= i < name.len() && name[i] == '/';
            if slug.len() > 0 && i < slug.len() {
                assert(slug[i] == '/');
            }
        }
    }
    assert(!"content"@.contains('/')) by {
        if "content"@.contains('/') {
            let i = choose|i: int| 0 <= i < "content"@.len() && "content"@[i] == '/';
            assert("content"@[i] == '/');
        }
    }
    lemma_only_segment(name);
    assert(name.len() >= 3 && name != "."@);
    assert(file[0] == 'c');
    assert(!text::begins_with(file, "/"@)) by {
        if text::begins_with(file, "/"@) {
            assert(file.take(1)[0] == "/"@[0]);
        }
    }
    let segments = text::split_of(file, '/');
    if file == "content/"@ + stem + "/"@ + name {
        assert(file =~= "content"@ + "/"@ + (stem + "/"@ + name));
        lemma_first_segment("content"@, stem + "/"@ + name);
        lemma_first_segment(stem, name);
        assert(segments =~= seq!["content"@, stem, name]);
        reveal_with_fuel(path::components_among, 4);
        assert("content"@ != "."@);
        let names = path::components_among(segments, 3);
        if stem.len() == 0 {
            assert(names =~= seq!["content"@, name]);
        } else {
            assert(names =~= seq!["content"@, stem, name]);
        }
    } else {
        assert(file =~= "content"@ + "/"@ + name);
        lemma_first_segment("content"@, name);
        assert(segments =~= seq!["content"@, name]);
        reveal_with_fuel(path::components_among, 3);
        assert("content"@ != "."@);
        assert(path::components_among(segments, 2) =~= seq!["content"@, name]);
    }
}

/// The stem and the slug of each planned item.
spec fn item_homes(
    schemas: Seq<(Seq<char>, SchemaEntry)>,
    stem: Seq<char>,
    items: Seq<ItemSource>,
) -> Seq<(Seq<char>, Seq<char>)>
    decreases items.len(),
{
    if items.len() == 0 {
        seq![]
    } else {
        let before = item_homes(schemas, stem, items.drop_last());
        match items.last().text {
            Some(src) => match item_plan(schemas, stem, items.last().slug@, src@) {
                Some(_) => before.push((stem, items.last().slug@)),
                None => before,
            },
            None => before,
        }
    }
}

/// The stem and the slug of each planned page of a stem. The slug of the collection is
/// empty.
spec fn stem_homes(
    schemas: Seq<(Seq<char>, SchemaEntry)>,
    contents: StemContents,
) -> Seq<(Seq<char>, Seq<char>)> {
    let items = item_homes(schemas, contents.stem@, contents.items@);
    match contents.collection {
        Some(src) => match collection_plan(schemas, contents.stem@, src@) {
            Some(_) => items.push((contents.stem@, seq![])),
            None => items,
        },
        None => items,
    }
}

/// The stem and the slug of each planned page of a site.
spec fn site_homes(
    schemas: Seq<(Seq<char>, SchemaEntry)>,
    stems: Seq<StemContents>,
) -> Seq<(Seq<char>, Seq<char>)>
    decreases stems.len(),
{
    if stems.len() == 0 {
        seq![]
    } else {
        site_homes(schemas, stems.drop_last()) + stem_homes(schemas, stems.last())
    }
}

/// Whether a page is planned where its stem and its slug say.
spec fn is_at(plan: PlannedView, home: (Seq<char>, Seq<char>)) -> bool {
    &&& plan.stem == home.0
    &&& plan.url == url_at(home.0, home.1)
    &&& path::components_of(plan.file) == parts_at(home.0, home.1)
    &&& !home.0.contains('/')
    &&& !home.1.contains('/')
    &&& home.1 != "index"@
}

/// Whether the pages are planned where the stems and slugs say, no two at one place.
spec fn are_at(plans: Seq<PlannedView>, homes: Seq<(Seq<char>, Seq<char>)>) -> bool {
    &&& plans.len() == homes.len()
    &&& forall|k: int| 0 <= k < plans.len() ==> is_at(#[trigger] plans[k], homes[k])
    &&& homes.no_duplicates()
}

/// Pages that are planned at different places are apart.
proof fn lemma_apart(plans: Seq<PlannedView>, homes: Seq<(Seq<char>, Seq<char>)>)
    requires
        are_at(plans, homes),
    ensures
        are_apart(plans),
{
    assert forall|i: int, j: int| 0 <= i < j < plans.len() implies (#[trigger] plans[i]).url != (
    #[trigger] plans[j]).url && path::components_of(plans[i].file) != path::components_of(
        plans[j].file,
    ) by {
        assert(is_at(plans[i], homes[i]) && is_at(plans[j], homes[j]));
        assert(homes[i] != homes[j]);
        lemma_urls_differ(homes[i], homes[j]);
        lemma_files_differ(homes[i], homes[j]);
    }
}

/// One more page at a new place leaves the pages at different places.
proof fn lemma_at_push(
    plans: Seq<PlannedView>,
    homes: Seq<(Seq<char>, Seq<char>)>,
    plan: PlannedView,
    home: (Seq<char>, Seq<char>),
)
    requires
        are_at(plans, homes),
        is_at(plan, home),
        !homes.contains(home),
    ensures
        are_at(plans.push(plan), homes.push(home)),
{
    let all = homes.push(home);
    assert forall|i: int, j: int| 0 <= i < all.len() && 0 <= j < all.len() && i != j implies all[i]
        != all[j] by {
        if i == homes.len() {
            assert(homes.contains(homes[j]));
        } else if j == homes.len() {
            assert(homes.contains(homes[i]));
        }
    }
    assert forall|k: int| 0 <= k < plans.push(plan).len() implies is_at(
        #[trigger] plans.push(plan)[k],
        all[k],
    ) by {
        if k < plans.len() {
            assert(is_at(plans[k], homes[k]));
        }
    }
}

/// The items of a stem are planned at different places, each that of one of them.
proof fn lemma_items_at(
    schemas: Seq<(Seq<char>, SchemaEntry)>,
    stem: Seq<char>,
    items: Seq<ItemSource>,
)
    requires
        is_name(stem),
        have_slugs(items),
    ensures
        are_at(item_plans(schemas, stem, items), item_homes(schemas, stem, items)),
        forall|home: (Seq<char>, Seq<char>)| #[trigger]
            item_homes(schemas, stem, items).contains(home) ==> home.0 == stem && home.1.len() > 0
                && exists|j: int| 0 <= j < items.len() && (#[trigger] items[j]).slug@ == home.1,
    decreases items.len(),
{
    if items.len() > 0 {
        let front = items.drop_last();
        let last = items.last();
        assert(items[items.len() - 1] == last);
        assert forall|j: int| 0 <= j < front.len() implies !(#[trigger] front[j]).slug@.contains('/')
            && front[j].slug@.len() > 0 && front[j].slug@ != "index"@ by {
            assert(front[j] == items[j]);
        }
        assert forall|j: int, k: int| 0 <= j < k < front.len() implies (#[trigger] front[j]).slug@
            != (#[trigger] front[k]).slug@ by {
            assert(items[j].slug@ != items[k].slug@);
        }
        lemma_items_at(schemas, stem, front);
        let plans = item_plans(schemas, stem, front);
        let homes = item_homes(schemas, stem, front);
        let home = (stem, last.slug@);
        assert(!homes.contains(home)) by {
            if homes.contains(home) {
                let j = choose|j: int|
                    0 <= j < front.len() && (#[trigger] front[j]).slug@ == home.1;
                assert(items[j].slug@ != items[items.len() - 1].slug@);
            }
        }
        let all = item_homes(schemas, stem, items);
        if let Some(src) = last.text {
            if let Some(plan) = item_plan(schemas, stem, last.slug@, src@) {
                assert(plan.file =~= "content/"@ + stem + "/"@ + name_at(last.slug@));
                lemma_file_parts(stem, last.slug@, plan.file);
                assert(is_at(plan, home));
                lemma_at_push(plans, homes, plan, home);
            }
        }
        assert forall|h: (Seq<char>, Seq<char>)| #[trigger] all.contains(h) implies h.0 == stem
            && h.1.len() > 0 && exists|j: int|
            0 <= j < items.len() && (#[trigger] items[j]).slug@ == h.1 by {
            let k = choose|k: int| 0 <= k < all.len() && all[k] == h;
            if k < homes.len() {
                assert(homes[k] == h);
                assert(homes.contains(h));
                let j = choose|j: int| 0 <= j < front.len() && (#[trigger] front[j]).slug@ == h.1;
                assert(items[j].slug@ == h.1);
            }
        }
    } else {
        assert(item_homes(schemas, stem, items).no_duplicates());
    }
}

/// The pages of a stem are planned at different places.
proof fn lemma_stem_at(schemas: Seq<(Seq<char>, SchemaEntry)>, contents: StemContents)
    requires
        is_name(contents.stem@),
        have_slugs(contents.items@),
    ensures
        are_at(stem_plans(schemas, contents), stem_homes(schemas, contents)),
        forall|home: (Seq<char>, Seq<char>)| #[trigger]
            stem_homes(schemas, contents).contains(home) ==> home.0 == contents.stem@,
{
    reveal_strlit("index");
    reveal_strlit("/");
    let stem = contents.stem@;
    lemma_items_at(schemas, stem, contents.items@);
    let plans = item_plans(schemas, stem, contents.items@);
    let homes = item_homes(schemas, stem, contents.items@);
    let none: Seq<char> = seq![];
    let home = (stem, none);
    assert(!homes.contains(home));
    if let Some(src) = contents.collection {
        if let Some(plan) = collection_plan(schemas, stem, src@) {
            if stem.len() == 0 {
                assert(plan.file =~= "content/"@ + name_at(none));
            } else {
                assert(plan.file =~= "content/"@ + stem + "/"@ + name_at(none));
            }
            lemma_file_parts(stem, none, plan.file);
            assert(plan.url =~= url_at(stem, none));
            assert("index"@.len() == 5);
            assert(is_at(plan, home));
            lemma_at_push(plans, homes, plan, home);
        }
    }
    let all = stem_homes(schemas, contents);
    assert forall|h: (Seq<char>, Seq<char>)| #[trigger] all.contains(h) implies h.0 == stem by {
        let k = choose|k: int| 0 <= k < all.len() && all[k] == h;
        if k < homes.len() {
            assert(homes[k] == h);
            assert(homes.contains(h));
        }
    }
}

/// The pages of a site are planned at different places.
proof fn lemma_site_at(schemas: Seq<(Seq<char>, SchemaEntry)>, stems: Seq<StemContents>)
    requires
        are_named(stems),
    ensures
        are_at(site_plans(schemas, stems), site_homes(schemas, stems)),
        forall|home: (Seq<char>, Seq<char>)| #[trigger]
            site_homes(schemas, stems).contains(home) ==> exists|i: int|
                0 <= i < stems.len() && (#[trigger] stems[i]).stem@ == home.0,
    decreases stems.len(),
{
    if stems.len() > 0 {
        let front = stems.drop_last();
        let last = stems.last();
        assert(stems[stems.len() - 1] == last);
        assert(are_named(front)) by {
            assert forall|i: int| 0 <= i < front.len() implies is_name((#[trigger] front[i]).stem@)
                && have_slugs(front[i].items@) by {
                assert(front[i] == stems[i]);
            }
            assert forall|i: int, j: int| 0 <= i < j < front.len() implies (
            #[trigger] front[i]).stem@ != (#[trigger] front[j]).stem@ by {
                assert(stems[i].stem@ != stems[j].stem@);
            }
        }
        lemma_site_at(schemas, front);
        lemma_stem_at(schemas, last);
        let plans = site_plans(schemas, front);
        let homes = site_homes(schemas, front);
        let more = stem_plans(schemas, last);
        let more_homes = stem_homes(schemas, last);
        let all = homes + more_homes;
        assert forall|i: int, j: int|
            0 <= i < all.len() && 0 <= j < all.len() && i != j implies all[i] != all[j] by {
            let a = if i < j {
                i
            } else {
                j
            };
            let b = if i < j {
                j
            } else {
                i
            };
            if b < homes.len() {
                assert(homes[a] != homes[b]);
            } else if a >= homes.len() {
                assert(more_homes[a - homes.len()] != more_homes[b - homes.len()]);
            } else {
                assert(homes.contains(homes[a]));
                assert(more_homes.contains(more_homes[b - homes.len()]));
                let k = choose|k: int|
                    0 <= k < front.len() && (#[trigger] front[k]).stem@ == homes[a].0;
                assert(stems[k].stem@ != stems[stems.len() - 1].stem@);
            }
        }
        assert forall|k: int| 0 <= k < (plans + more).len() implies is_at(
            #[trigger] (plans + more)[k],
            all[k],
        ) by {
            if k < plans.len() {
                assert(is_at(plans[k], homes[k]));
            } else {
                assert(is_at(more[k - plans.len()], more_homes[k - plans.len()]));
            }
        }
        assert forall|h: (Seq<char>, Seq<char>)| #[trigger] all.contains(h) implies exists|i: int|
            0 <= i < stems.len() && (#[trigger] stems[i]).stem@ == h.0 by {
            let k = choose|k: int| 0 <= k < all.len() && all[k] == h;
            if k < homes.len() {
                assert(homes[k] == h);
                assert(homes.contains(h));
                let i = choose|i: int| 0 <= i < front.len() && (#[trigger] front[i]).stem@ == h.0;
                assert(stems[i].stem@ == h.0);
            } else {
                assert(more_homes[k - homes.len()] == h);
                assert(more_homes.contains(h));
                assert(stems[stems.len() - 1].stem@ == h.0);
            }
        }
    } else {
        assert(site_homes(schemas, stems).no_duplicates());
    }
}

/// The documents of a site whose contents are named as they are on disk have different
/// URLs, and lie in different files.
pub proof fn law_planned_documents_are_apart(
    schemas: Seq<(Seq<char>, SchemaEntry)>,
    stems: Seq<StemContents>,
)
    requires
        are_named(stems),
    ensures
        are_apart(site_plans(schemas, stems)),
{
    lemma_site_at(schemas, stems);
    lemma_apart(site_plans(schemas, stems), site_homes(schemas, stems));
}

/// An item that was read is planned.
proof fn lemma_item_is_planned(
    schemas: Seq<(Seq<char>, SchemaEntry)>,
    stem: Seq<char>,
    items: Seq<ItemSource>,
    j: int,
)
    requires
        0 <= j < items.len(),
        items[j].text is Some,
        item_plan(schemas, stem, items[j].slug@, items[j].text->0@) is Some,
    ensures
        item_plans(schemas, stem, items).contains(
            item_plan(schemas, stem, items[j].slug@, items[j].text->0@)->0,
        ),
    decreases items.len(),
{
    let plan = item_plan(schemas, stem, items[j].slug@, items[j].text->0@)->0;
    let front = items.drop_last();
    let all = item_plans(schemas, stem, items);
    let before = item_plans(schemas, stem, front);
    if j == front.len() {
        assert(all[before.len() as int] == plan);
    } else {
        assert(front[j] == items[j]);
        lemma_item_is_planned(schemas, stem, front, j);
        let k = choose|k: int| 0 <= k < before.len() && before[k] == plan;
        assert(all[k] == plan);
    }
}

/// What is planned for a stem is planned for the site.
proof fn lemma_stem_is_planned(
    schemas: Seq<(Seq<char>, SchemaEntry)>,
    stems: Seq<StemContents>,
    i: int,
    plan: PlannedView,
)
    requires
        0 <= i < stems.len(),
        stem_plans(schemas, stems[i]).contains(plan),
    ensures
        site_plans(schemas, stems).contains(plan),
    decreases stems.len(),
{
    let front = stems.drop_last();
    let all = site_plans(schemas, stems);
    let before = site_plans(schemas, front);
    if i == front.len() {
        let last = stem_plans(schemas, stems.last());
        let k = choose|k: int| 0 <= k < last.len() && last[k] == plan;
        assert(all[before.len() + k] == plan);
    } else {
        assert(front[i] == stems[i]);
        lemma_stem_is_planned(schemas, front, i, plan);
        let k = choose|k: int| 0 <= k < before.len() && before[k] == plan;
        assert(all[k] == plan);
    }
}

/// Every item that can be read, and whose stem has a schema that could be, is
/// planned at its URL and in its file.
pub proof fn law_item_is_planned(
    schemas: Seq<(Seq<char>, SchemaEntry)>,
    stems: Seq<StemContents>,
    i: int,
    j: int,
) -> (k: int)
    requires
        0 <= i < stems.len(),
        0 <= j < stems[i].items@.len(),
        stems[i].items@[j].text is Some,
        readable_key(schemas, stems[i].stem@ + "/item"@, stems[i].stem@) is Some,
    ensures
        0 <= k < site_plans(schemas, stems).len(),
        ({
            let plan = site_plans(schemas, stems)[k];
            let slug = stems[i].items@[j].slug@;
            &&& plan.stem == stems[i].stem@
            &&& plan.url == "/"@ + stems[i].stem@ + "/"@ + slug
            &&& plan.file == "content/"@ + stems[i].stem@ + "/"@ + slug + ".md"@
        }),
{
    let stem = stems[i].stem@;
    let item = stems[i].items@[j];
    let plan = item_plan(schemas, stem, item.slug@, item.text->0@)->0;
    lemma_item_is_planned(schemas, stem, stems[i].items@, j);
    let items = item_plans(schemas, stem, stems[i].items@);
    let at = choose|at: int| 0 <= at < items.len() && items[at] == plan;
    assert(stem_plans(schemas, stems[i])[at] == plan);
    lemma_stem_is_planned(schemas, stems, i, plan);
    let all = site_plans(schemas, stems);
    choose|k: int| 0 <= k < all.len() && all[k] == plan
}

/// Whether two tables have the same stems, each with as many documents.
pub open spec fn same_counts(
    a: Seq<(Seq<char>, Seq<NodeId>)>,
    b: Seq<(Seq<char>, Seq<NodeId>)>,
) -> bool {
    &&& table::keys_of(a) == table::keys_of(b)
    &&& forall|i: int| 0 <= i < a.len() ==> (#[trigger] a[i]).1.len() == b[i].1.len()
}

/// In tables with the same counts a stem has as many documents in both.
pub proof fn lemma_same_count_of(
    a: Seq<(Seq<char>, Seq<NodeId>)>,
    b: Seq<(Seq<char>, Seq<NodeId>)>,
    stem: Seq<char>,
)
    requires
        same_counts(a, b),
    ensures
        match (table::found(a, stem), table::found(b, stem)) {
            (Some(x), Some(y)) => x.len() == y.len(),
            (None, None) => true,
            _ => false,
        },
{
    table::lemma_same_keys(a, b, stem, seq![], seq![]);
    table::lemma_place_of(a, stem);
    table::lemma_place_of(b, stem);
    assert(a.len() == table::keys_of(a).len());
    assert(b.len() == table::keys_of(b).len());
    let at = table::place_of(a, stem);
    if at < a.len() {
        assert(a[at].1.len() == b[at].1.len());
    }
}

/// One more document of a stem leaves the counts the same.
pub proof fn lemma_same_counts_with(
    a: Seq<(Seq<char>, Seq<NodeId>)>,
    b: Seq<(Seq<char>, Seq<NodeId>)>,
    stem: Seq<char>,
    x: NodeId,
    y: NodeId,
)
    requires
        same_counts(a, b),
    ensures
        same_counts(with_stem_root(a, stem, x), with_stem_root(b, stem, y)),
{
    lemma_same_count_of(a, b, stem);
    let u = match table::found(a, stem) {
        Some(roots) => roots.push(x),
        None => seq![x],
    };
    let v = match table::found(b, stem) {
        Some(roots) => roots.push(y),
        None => seq![y],
    };
    table::lemma_same_keys(a, b, stem, u, v);
    table::lemma_place_of(a, stem);
    assert(a.len() == table::keys_of(a).len());
    assert(b.len() == table::keys_of(b).len());
    let after = with_stem_root(a, stem, x);
    assert forall|i: int| 0 <= i < after.len() implies (#[trigger] after[i]).1.len()
        == with_stem_root(b, stem, y)[i].1.len() by {
        if i < a.len() {
            assert(a[i].1.len() == b[i].1.len());
        }
    }
}

/// Where two loads give the same counts, they still do once an empty page was put in
/// for the root of the site.
pub proof fn lemma_same_counts_rooted(
    first: Conductor,
    second: Conductor,
    has_root_template: bool,
    first_after: Conductor,
    second_after: Conductor,
)
    requires
        table::keys_of(first.url_to_root@) == table::keys_of(second.url_to_root@),
        table::keys_of(first.path_to_doc_root@) == table::keys_of(second.path_to_doc_root@),
        same_counts(
            rebuild::seen_roots(first.stem_to_roots@),
            rebuild::seen_roots(second.stem_to_roots@),
        ),
        is_rooted(first, has_root_template, first_after),
        is_rooted(second, has_root_template, second_after),
    ensures
        table::keys_of(first_after.url_to_root@) == table::keys_of(second_after.url_to_root@),
        table::keys_of(first_after.path_to_doc_root@) == table::keys_of(
            second_after.path_to_doc_root@,
        ),
        same_counts(
            rebuild::seen_roots(first_after.stem_to_roots@),
            rebuild::seen_roots(second_after.stem_to_roots@),
        ),
{
    let a = first.url_to_root@;
    let b = second.url_to_root@;
    let x = table::found(first_after.url_to_root@, "/"@)->0;
    let y = table::found(second_after.url_to_root@, "/"@)->0;
    table::lemma_same_keys(a, b, "/"@, x, y);
    assert(a.len() == table::keys_of(a).len());
    assert(b.len() == table::keys_of(b).len());
    lemma_same_counts_with(
        rebuild::seen_roots(first.stem_to_roots@),
        rebuild::seen_roots(second.stem_to_roots@),
        ""@,
        x,
        y,
    );
}

/// The schemas of a stem are found under the keys of its items and of its collection, and
/// the schemas of other keys stay.
pub proof fn law_schemas_of_a_stem_are_found(
    entries: Seq<(Seq<char>, SchemaEntry)>,
    schemas: StemSchemas,
    other: Seq<char>,
)
    ensures
        schemas.item matches Some(entry) ==> table::found(
            with_schemas(entries, schemas),
            schemas.stem@,
        ) == Some(entry),
        schemas.collection matches Some(entry) ==> table::found(
            with_schemas(entries, schemas),
            site::schema_key(schemas.stem@, "index"@),
        ) == Some(entry),
        other != schemas.stem@ && other != site::schema_key(schemas.stem@, "index"@)
            ==> table::found(with_schemas(entries, schemas), other) == table::found(
            entries,
            other,
        ),
{
    reveal_strlit("index");
    reveal_strlit("/index");
    let stem = schemas.stem@;
    let key = site::schema_key(stem, "index"@);
    assert(key.len() != stem.len());
    let with_item = match schemas.item {
        Some(entry) => table::with_entry(entries, stem, entry),
        None => entries,
    };
    if let Some(entry) = schemas.item {
        table::law_entry_is_found(entries, stem, entry);
        if other != stem {
            table::law_entry_keeps_others(entries, stem, entry, other);
        }
    }
    if let Some(entry) = schemas.collection {
        table::law_entry_is_found(with_item, key, entry);
        table::law_entry_keeps_others(with_item, key, entry, stem);
        if other != key {
            table::law_entry_keeps_others(with_item, key, entry, other);
        }
    }
}

/// Every document is linked just once.
pub proof fn law_documents_are_linked_once(plans: Seq<PlannedView>, n: int)
    requires
        0 <= n <= plans.len(),
    ensures
        places_of_kind(plans, false, n).len() + places_of_kind(plans, true, n).len() == n,
        n == plans.len() ==> linking_order_of(plans).len() == plans.len(),
    decreases n,
{
    if n > 0 {
        law_documents_are_linked_once(plans, n - 1);
    }
}

/// An item is read by the item schema of its stem, or else by that of the stem; a
/// collection by its index schema, or else by that of the stem. Without a schema that can
/// be read, neither is planned.
pub proof fn law_documents_are_read_by_their_schema(
    schemas: Seq<(Seq<char>, SchemaEntry)>,
    stem: Seq<char>,
    slug: Seq<char>,
    src: Seq<char>,
)
    ensures
        conductor::grammar_of(schemas, stem + "/item"@) matches Some(grammar) ==> (item_plan(
            schemas,
            stem,
            slug,
            src,
        ) matches Some(plan) && plan.grammar_key == stem + "/item"@ && plan.document == document_of(
            src,
            grammar,
        ) && plan.page_kind == "item"@ && plan.stem == stem),
        conductor::grammar_of(schemas, stem + "/item"@) is None ==> match conductor::grammar_of(
            schemas,
            stem,
        ) {
            Some(grammar) => item_plan(schemas, stem, slug, src) matches Some(plan)
                && plan.grammar_key == stem && plan.document == document_of(src, grammar)
                && plan.page_kind == "item"@ && plan.stem == stem,
            None => item_plan(schemas, stem, slug, src) is None,
        },
        conductor::grammar_of(schemas, site::schema_key(stem, "index"@)) matches Some(grammar)
            ==> (collection_plan(schemas, stem, src) matches Some(plan) && plan.document
            == document_of(src, grammar) && plan.page_kind == "collection"@ && plan.stem == stem
            && plan.url == site::page_url(stem, "index"@) && plan.file == site::page_file(
            stem,
            "index"@,
        )),
        conductor::grammar_of(schemas, site::schema_key(stem, "index"@)) is None
            && conductor::grammar_of(schemas, stem) is None ==> collection_plan(schemas, stem, src)
            is None,
{
}

/// The documents of a site are those of its stems, stem by stem, and those of a stem are
/// those of its items, item by item.
pub proof fn law_plans_keep_the_order_of_sources(
    schemas: Seq<(Seq<char>, SchemaEntry)>,
    a: Seq<StemContents>,
    b: Seq<StemContents>,
    stem: Seq<char>,
    x: Seq<ItemSource>,
    y: Seq<ItemSource>,
)
    ensures
        site_plans(schemas, a + b) == site_plans(schemas, a) + site_plans(schemas, b),
        item_plans(schemas, stem, x + y) == item_plans(schemas, stem, x) + item_plans(
            schemas,
            stem,
            y,
        ),
    decreases b.len() + y.len(),
{
    if b.len() > 0 {
        law_plans_keep_the_order_of_sources(schemas, a, b.drop_last(), stem, x, y);
        assert((a + b).drop_last() =~= a + b.drop_last());
        assert((a + b).last() == b.last());
        assert(site_plans(schemas, a + b) =~= site_plans(schemas, a) + site_plans(schemas, b));
    } else {
        assert(a + b =~= a);
        assert(site_plans(schemas, a) + site_plans(schemas, b) =~= site_plans(schemas, a));
        if y.len() > 0 {
            law_plans_keep_the_order_of_sources(schemas, a, b, stem, x, y.drop_last());
            assert((x + y).drop_last() =~= x + y.drop_last());
            assert((x + y).last() == y.last());
            assert(item_plans(schemas, stem, x + y) =~= item_plans(schemas, stem, x) + item_plans(
                schemas,
                stem,
                y,
            ));
        } else {
            assert(x + y =~= x);
            assert(item_plans(schemas, stem, x) + item_plans(schemas, stem, y) =~= item_plans(
                schemas,
                stem,
                x,
            ));
        }
    }
}

/// What is shown of a document is found under its URL.
pub proof fn law_shown_content_is_found(
    plans: Seq<PlannedView>,
    order: Seq<usize>,
    semantics: Seq<NodeId>,
    n: int,
    k: int,
)
    requires
        0 <= k < n <= order.len(),
        n <= semantics.len(),
        order[k] < plans.len(),
        forall|j: int|
            k < j < n && (#[trigger] order[j]) < plans.len() ==> plans[order[j] as int].url
                != plans[order[k] as int].url,
    ensures
        table::found(shown_by(plans, order, semantics, n), plans[order[k] as int].url) == Some(
            semantics[k],
        ),
    decreases n,
{
    let url = plans[order[k] as int].url;
    let before = shown_by(plans, order, semantics, n - 1);
    if k == n - 1 {
        table::law_entry_is_found(before, url, semantics[k]);
    } else {
        law_shown_content_is_found(plans, order, semantics, n - 1, k);
        if order[n - 1] < plans.len() {
            table::law_entry_keeps_others(
                before,
                plans[order[n - 1] as int].url,
                semantics[n - 1],
                url,
            );
        }
    }
}

/// A site with a template for the page at the top has such a page after it was loaded:
/// its own, or a bare one that is an empty collection. The other pages stay.
pub proof fn law_page_at_the_top(
    before: Conductor,
    has_root_template: bool,
    after: Conductor,
    other: Seq<char>,
)
    requires
        is_rooted(before, has_root_template, after),
    ensures
        has_root_template ==> table::found(after.url_to_root@, "/"@) is Some,
        table::found(before.url_to_root@, "/"@) is Some || !has_root_template ==> after == before,
        table::found(before.url_to_root@, "/"@) is None && has_root_template ==> {
            let root = table::found(after.url_to_root@, "/"@)->0;
            let edges = node_store::edges_at(after.store, root);
            &&& node_store::attr_text(after.store, root, "url"@) == Some("/"@)
            &&& node_store::attr_text(after.store, root, "page-kind"@) == Some("collection"@)
            &&& node_store::attr_text(after.store, root, "stem"@) == Some(""@)
            &&& node_store::children_of(after.store, root).len() == 2
            &&& exists|k: int|
                #![trigger edges[k]]
                {
                    &&& 0 <= k < edges.len()
                    &&& edges[k] is Attribute
                    &&& edges[k]->Attribute_name@ == "has-separator"@
                    &&& node_store::node_at(after.store, edges[k]->value) == Some(
                        Node::Boolean(false),
                    )
                }
            &&& table::found(after.url_to_semantic@, "/"@) is Some
        },
        other != "/"@ ==> table::found(after.url_to_root@, other) == table::found(
            before.url_to_root@,
            other,
        ),
{
    if needs_bare_root(before, has_root_template) {
        let root = table::found(after.url_to_root@, "/"@)->0;
        let edges = node_store::edges_at(after.store, root);
        let k = choose|k: int|
            0 <= k < node_store::edges_at(after.store, root).len() && says_no_separator(
                after.store,
                #[trigger] node_store::edges_at(after.store, root)[k],
            );
        assert(edges[k] is Attribute);
    }
    if needs_bare_root(before, has_root_template) && other != "/"@ {
        let root = table::found(after.url_to_root@, "/"@)->0;
        table::law_entry_keeps_others(before.url_to_root@, "/"@, root, other);
    }
}

/// Under a URL that none of the documents has nothing is shown.
pub proof fn law_only_documents_are_shown(
    plans: Seq<PlannedView>,
    order: Seq<usize>,
    semantics: Seq<NodeId>,
    n: int,
    url: Seq<char>,
)
    requires
        0 <= n <= order.len(),
        forall|j: int|
            0 <= j < n && (#[trigger] order[j]) < plans.len() ==> plans[order[j] as int].url
                != url,
    ensures
        table::found(shown_by(plans, order, semantics, n), url) is None,
    decreases n,
{
    if n > 0 {
        law_only_documents_are_shown(plans, order, semantics, n - 1, url);
        if order[n - 1] < plans.len() {
            table::law_entry_keeps_others(
                shown_by(plans, order, semantics, n - 1),
                plans[order[n - 1] as int].url,
                semantics[n - 1],
                url,
            );
        }
    }
}

} // verus!
