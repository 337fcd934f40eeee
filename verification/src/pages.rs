//! How the page of a file is rebuilt, step by step.

use vstd::prelude::*;

use crate::conductor;
use crate::conductor::Conductor;
use crate::node_store::{NodeId, NodeStore};
use crate::path;
use crate::path::SitePath;
use crate::populate;
use crate::protocol;
use crate::protocol::{CommandResult, ConductorEvent, FileClassification, Response};
use crate::rebuild;
use crate::rebuild::{render_problem, DocumentMeta, PageJob, RenderOutcome};
use crate::site;
use crate::site::{content_file_path, file_stem, schema_cache_key, together, url_for_stem_slug};
use crate::slot_assignment::parse_and_assign;
use crate::steps::{
    AfterKind, AfterRender, Creation, Goal, Ingest, RebuildTask, RenderTask, Step, Target,
};
use crate::table;
use crate::text;
use crate::text::same;

verus! {

/// The text of a file that an editor has not saved yet.
pub open spec fn unsaved(c: Conductor, p: Seq<char>) -> Option<Seq<char>> {
    match table::found(c.doc_sources@, path::components_of(p)) {
        Some(own) => Some(own.text@),
        None => None,
    }
}

/// What follows while new content has been created: the next file is looked at, or
/// the new page and the pages that were rebuilt are told.
pub open spec fn goes_on(
    url: Seq<char>,
    rebuilt: Seq<Seq<char>>,
    rest: Seq<Target>,
    r: Step,
) -> bool {
    if rest.len() == 0 {
        r matches Step::Done(c) && c.response matches Response::ContentCreated(u) && u@ == url && (
        if rebuilt.len() == 0 {
            c.events@.len() == 0
        } else {
            c.events@.len() == 1 && protocol::rebuilt_event(c.events@[0], rebuilt, None)
        })
    } else {
        r matches Step::Probe { target, next } && target == rest[0] && next.url@ == url
            && text::texts(next.rebuilt@) == rebuilt && next.rest@ == rest.skip(1)
    }
}

/// Go on with new content: look at the next file, or tell what was done.
pub fn continue_creation(task: Creation) -> (r: Step)
    ensures
        goes_on(task.url@, text::texts(task.rebuilt@), task.rest@, r),
{
    let mut rest = task.rest;
    proof {
        assert(text::texts(task.rebuilt@).len() == task.rebuilt@.len());
    }
    if rest.len() == 0 {
        let mut events: Vec<ConductorEvent> = Vec::new();
        if task.rebuilt.len() > 0 {
            events.push(ConductorEvent::PagesRebuilt { pages: task.rebuilt, anchor: None });
        }
        Step::Done(CommandResult { response: Response::ContentCreated(task.url), events })
    } else {
        let ghost all = rest@;
        let target = rest.remove(0);
        proof {
            assert(rest@ =~= all.skip(1));
        }
        Step::Probe { target, next: Creation { url: task.url, rebuilt: task.rebuilt, rest } }
    }
}

/// What follows once the page of a file was rebuilt, or could not be. A page has no
/// URL where the file is no content.
pub open spec fn is_settled(
    before: Conductor,
    goal: Goal,
    url: Option<Seq<char>>,
    error: Option<Seq<char>>,
    after: Conductor,
    r: Step,
) -> bool {
    match goal {
        Goal::Changed => match url {
            Some(url) => {
                &&& after == (Conductor { build_errors: after.build_errors, ..before })
                &&& match error {
                    None => rebuild::seen_errors(after.build_errors@) == rebuild::cleared(
                        rebuild::seen_errors(before.build_errors@),
                        url,
                    ) && r.tells_rebuilt(seq![url], None),
                    Some(message) => rebuild::seen_errors(after.build_errors@)
                        == table::with_entry(
                        rebuild::seen_errors(before.build_errors@),
                        url,
                        seq![message],
                    ) && r.tells_failed(seq![url]),
                }
            },
            None => after == before && r.is_ok(),
        },
        Goal::Created(task) => {
            &&& after == before
            &&& goes_on(
                task.url@,
                if error is None && url is Some {
                    text::texts(task.rebuilt@).push(url->0)
                } else {
                    text::texts(task.rebuilt@)
                },
                task.rest@,
                r,
            )
        },
    }
}

/// The slug of a content file, with another name where it has none.
pub open spec fn slug_or(p: Seq<char>, other: Seq<char>) -> Seq<char> {
    match site::stem_of_path(p) {
        Some(slug) => slug,
        None => other,
    }
}

/// The slug of a content file, with another name where it has none.
fn slug_of(p: &str, other: &str) -> (r: String)
    ensures
        r@ == slug_or(p@, other@),
{
    match file_stem(p) {
        Some(slug) => slug,
        None => other.to_owned(),
    }
}

/// Why a content file cannot be read as a document, if it cannot.
pub open spec fn reading_error(c: Conductor, key: Seq<char>) -> Option<Seq<char>> {
    match table::found(c.schemas@, key) {
        None => Some("no schema for "@ + key),
        Some(entry) => match entry.grammar {
            Err(e) => Some("schema error: "@ + e.debug@),
            Ok(_) => None,
        },
    }
}

/// What a document in a content file is known by.
pub open spec fn is_meta_of(meta: DocumentMeta, stem: Seq<char>, slug: Seq<char>) -> bool {
    &&& meta.url@ == site::page_url(stem, slug)
    &&& meta.stem@ == stem
    &&& meta.file@ == site::page_file(stem, slug)
    &&& meta.page_kind@ == if slug == "index"@ {
        "collection"@
    } else {
        "item"@
    }
}

/// What follows once the role of a file is known whose page is to be rebuilt: its
/// text is read by its schema and put into the store, or it cannot be.
pub open spec fn starts_rebuild(
    before: Conductor,
    task: RebuildTask,
    kind: FileClassification,
    after: Conductor,
    r: Step,
) -> bool {
    match kind {
        FileClassification::Content { schema_stem } => {
            let stem = schema_stem@;
            let key = site::schema_key(stem, slug_or(task.path@, ""@));
            let slug = slug_or(task.path@, "unknown"@);
            match reading_error(before, key) {
                Some(message) => is_settled(
                    before,
                    task.goal,
                    Some(site::page_url(stem, slug)),
                    Some(message),
                    after,
                    r,
                ),
                None => {
                    &&& after == before
                    &&& r matches Step::StoreDocument { document, next }
                    &&& document@ == populate::document_of(
                        task.text@,
                        conductor::grammar_of(before.schemas@, key)->0,
                    )
                    &&& is_meta_of(next.meta, stem, slug)
                    &&& next.grammar_key@ == key
                    &&& next.goal == task.goal
                },
            }
        },
        _ => is_settled(
            before,
            task.goal,
            None,
            Some("not a content file: "@ + task.path@),
            after,
            r,
        ),
    }
}

impl Conductor {
    /// Go on once the page of a file was rebuilt, or could not be.
    pub fn settle_page(&mut self, goal: Goal, url: Option<String>, error: Option<String>) -> (r:
        Step)
        ensures
            is_settled(
                *old(self),
                goal,
                text::opt_text(url),
                text::opt_text(error),
                *final(self),
                r,
            ),
    {
        match goal {
            Goal::Changed => match url {
                None => Step::Done(CommandResult::ok()),
                Some(url) => {
                    let ghost address = url@;
                    let mut pages: Vec<String> = Vec::new();
                    pages.push(url.clone());
                    proof {
                        assert(text::texts(pages@) =~= seq![address]);
                    }
                    match error {
                        None => {
                            self.clear_errors(url.as_str());
                            Step::Done(
                                CommandResult::ok_with_event(
                                    ConductorEvent::PagesRebuilt { pages, anchor: None },
                                ),
                            )
                        },
                        Some(message) => {
                            self.enter_error(url.as_str(), message);
                            Step::Done(
                                CommandResult::ok_with_event(
                                    ConductorEvent::BuildFailed { error_pages: pages },
                                ),
                            )
                        },
                    }
                },
            },
            Goal::Created(task) => {
                let mut task = task;
                let ghost before = task.rebuilt@;
                if error.is_none() {
                    if let Some(url) = url {
                        let ghost address = url@;
                        task.rebuilt.push(url);
                        proof {
                            assert(text::texts(task.rebuilt@) =~= text::texts(before).push(
                                address,
                            ));
                        }
                    }
                }
                continue_creation(task)
            },
        }
    }

    /// Go on once the role of a file is known whose page is to be rebuilt.
    pub fn start_rebuild(&mut self, task: RebuildTask, kind: FileClassification) -> (r: Step)
        ensures
            starts_rebuild(*old(self), task, kind, *final(self), r),
    {
        match kind {
            FileClassification::Content { schema_stem } => {
                let stem = schema_stem.as_str();
                let own_slug = slug_of(task.path.as_str(), "");
                let key = schema_cache_key(stem, own_slug.as_str());
                let slug = slug_of(task.path.as_str(), "unknown");
                let url = url_for_stem_slug(stem, slug.as_str());
                let message = match self.schemas.get(&key) {
                    None => together("no schema for ", key.as_str()),
                    Some(entry) => match &entry.grammar {
                        Err(e) => together("schema error: ", e.debug.as_str()),
                        Ok(grammar) => match parse_and_assign(task.text.as_str(), grammar) {
                            Err(e) => e.message(),
                            Ok(document) => {
                                let is_index = same(slug.as_str(), "index");
                                let page_kind = if is_index {
                                    "collection".to_owned()
                                } else {
                                    "item".to_owned()
                                };
                                let file = content_file_path(stem, slug.as_str());
                                let meta = DocumentMeta {
                                    url,
                                    stem: stem.to_owned(),
                                    file,
                                    page_kind,
                                };
                                let next = Ingest { meta, grammar_key: key, goal: task.goal };
                                return Step::StoreDocument { document, next };
                            },
                        },
                    },
                };
                self.settle_page(task.goal, Some(url), Some(message))
            },
            _ => {
                let message = together("not a content file: ", task.path.as_str());
                self.settle_page(task.goal, None, Some(message))
            },
        }
    }

    /// The role of a file was found.
    pub fn on_kind(&mut self, next: AfterKind, kind: FileClassification) -> (r: Step)
        ensures
            match next {
                AfterKind::Show => *final(self) == *old(self) && r.answers(
                    Response::FileClassification(kind),
                ),
                AfterKind::Rebuild(task) => starts_rebuild(
                    *old(self),
                    task,
                    kind,
                    *final(self),
                    r,
                ),
            },
    {
        match next {
            AfterKind::Show => Step::Done(
                CommandResult::with_response(Response::FileClassification(kind)),
            ),
            AfterKind::Rebuild(task) => self.start_rebuild(task, kind),
        }
    }

    /// A document was put into the store: it takes its place in the indexes.
    pub fn on_stored(&mut self, next: Ingest, store: NodeStore, root: NodeId) -> (r: Step)
        ensures
            rebuild::is_placed(
                (Conductor { store, ..*old(self) }),
                next.meta,
                root,
                *final(self),
            ),
            r == (Step::LinkDocument { root, next }),
    {
        self.store = store;
        self.place_document(&next.meta, root);
        Step::LinkDocument { root, next }
    }

    /// It was worked out what is shown of a document: its page is rendered.
    pub fn on_linked(&mut self, next: Ingest, store: NodeStore, semantic: NodeId) -> (r: Step)
        ensures
            is_linked(*old(self), next, store, semantic, *final(self), r),
    {
        self.store = store;
        self.insert_url_semantic(next.meta.url.as_str(), semantic);
        let ghost middle = *self;
        let r = self.render_placed(next);
        proof {
            assert(renders_or_settles(middle, next, *self, r));
        }
        r
    }

    /// Render the page of a document that stands in all indexes.
    fn render_placed(&mut self, next: Ingest) -> (r: Step)
        ensures
            renders_or_settles(*old(self), next, *final(self), r),
    {
        let root = match self.document_by_url(next.meta.url.as_str()) {
            Some(root) => root,
            None => {
                let message = site::all_together(
                    "no doc root for ",
                    next.meta.url.as_str(),
                    " after update",
                );
                return self.settle_page(next.goal, Some(next.meta.url), Some(message));
            },
        };
        match self.job_for_root(root) {
            Err(message) => self.settle_page(next.goal, Some(next.meta.url), Some(message)),
            Ok(job) => {
                let mut jobs: Vec<PageJob> = Vec::new();
                jobs.push(job);
                Step::RenderPages(RenderTask { jobs, next: AfterRender::Page(next.goal) })
            },
        }
    }

    /// The page of a file was rendered. What the templates did to the store is
    /// kept.
    pub fn on_page_rendered(
        &mut self,
        jobs: Vec<PageJob>,
        goal: Goal,
        store: NodeStore,
        outcomes: &Vec<RenderOutcome>,
    ) -> (r: Step)
        ensures
            is_settled(
                (Conductor { store, ..*old(self) }),
                goal,
                if jobs@.len() > 0 {
                    Some(jobs@[0].url@)
                } else {
                    None
                },
                if jobs@.len() > 0 && outcomes@.len() > 0 {
                    rebuild::render_error(jobs@[0].stem@, outcomes@[0])
                } else {
                    Some("nothing was rendered"@)
                },
                *final(self),
                r,
            ),
    {
        self.store = store;
        if jobs.len() > 0 {
            let url = jobs[0].url.clone();
            let problem = if outcomes.len() > 0 {
                render_problem(jobs[0].stem.as_str(), &outcomes[0])
            } else {
                Some("nothing was rendered".to_owned())
            };
            self.settle_page(goal, Some(url), problem)
        } else {
            self.settle_page(goal, None, Some("nothing was rendered".to_owned()))
        }
    }

    /// A file was looked at whose page is to be rebuilt once new content was
    /// created. Its text is that of an editor, or that on disk.
    pub fn on_probed(&self, target: Target, task: Creation, exists: bool, text: Option<String>) -> (r:
        Step)
        ensures
            is_probed(*self, target, task, exists, text, r),
    {
        let source = match self.doc_sources.get(&SitePath::new(target.path.as_str())) {
            Some(own) => Some(own.text.clone()),
            None => text,
        };
        if target.must_exist && !exists {
            return continue_creation(task);
        }
        match source {
            None => continue_creation(task),
            Some(source) => Step::Classify {
                path: target.path.clone(),
                next: AfterKind::Rebuild(
                    RebuildTask { path: target.path, text: source, goal: Goal::Created(task) },
                ),
            },
        }
    }
}

/// What follows once it was worked out what is shown of a document: its page is
/// rendered, or there is none.
pub open spec fn is_linked(
    before: Conductor,
    next: Ingest,
    store: NodeStore,
    semantic: NodeId,
    after: Conductor,
    r: Step,
) -> bool {
    exists|middle: Conductor|
        {
            &&& middle.url_to_semantic@ == table::with_entry(
                before.url_to_semantic@,
                next.meta.url@,
                semantic,
            )
            &&& middle == (Conductor { store, url_to_semantic: middle.url_to_semantic, ..before })
            &&& #[trigger] renders_or_settles(middle, next, after, r)
        }
}

/// What follows once a document stands in all indexes.
pub open spec fn renders_or_settles(
    middle: Conductor,
    next: Ingest,
    after: Conductor,
    r: Step,
) -> bool {
    let url = next.meta.url@;
    match table::found(middle.url_to_root@, url) {
        None => is_settled(
            middle,
            next.goal,
            Some(url),
            Some("no doc root for "@ + url + " after update"@),
            after,
            r,
        ),
        Some(root) => match rebuild::job_error(middle, root) {
            Some(message) => is_settled(middle, next.goal, Some(url), Some(message), after, r),
            None => {
                &&& after == middle
                &&& r matches Step::RenderPages(task)
                &&& task.jobs@.len() == 1
                &&& rebuild::is_job_for(middle, root, task.jobs@[0])
                &&& task.next == AfterRender::Page(next.goal)
            },
        },
    }
}

/// What follows once a file was looked at: its role is asked for, to rebuild its
/// page from its text, or it is passed over.
pub open spec fn is_probed(
    c: Conductor,
    target: Target,
    task: Creation,
    exists: bool,
    text: Option<String>,
    r: Step,
) -> bool {
    let source = match unsaved(c, target.path@) {
        Some(own) => Some(own),
        None => text::opt_text(text),
    };
    if (target.must_exist && !exists) || source is None {
        goes_on(task.url@, text::texts(task.rebuilt@), task.rest@, r)
    } else {
        r matches Step::Classify { path, next: AfterKind::Rebuild(again) } && path@ == target.path@
            && again.path@ == target.path@ && again.text@ == source->0 && again.goal == Goal::Created(
            task,
        )
    }
}

/// A document that is read again takes the place of the one at its URL: the URL and the
/// file lead to it, and the URL to what is shown of it. The stem has as many documents
/// as before, none of them twice, and the old one is not among them. Every other URL
/// leads where it did. The document at the URL is one of its stem, and the new one is a
/// new node.
pub proof fn law_updated_document_takes_its_place(
    before: Conductor,
    next: Ingest,
    store: NodeStore,
    root: NodeId,
    middle: Conductor,
    linked_store: NodeStore,
    semantic: NodeId,
    after: Conductor,
    r: Step,
    old_root: NodeId,
    other: Seq<char>,
)
    requires
        rebuild::is_placed((Conductor { store, ..before }), next.meta, root, middle),
        is_linked(middle, next, linked_store, semantic, after, r),
        table::found(before.url_to_root@, next.meta.url@) == Some(old_root),
        conductor::roots_of(before.stem_to_roots@, next.meta.stem@).contains(old_root),
        conductor::roots_of(before.stem_to_roots@, next.meta.stem@).no_duplicates(),
        forall|k: int|
            0 <= k < conductor::roots_of(before.stem_to_roots@, next.meta.stem@).len() ==> (
            #[trigger] conductor::roots_of(before.stem_to_roots@, next.meta.stem@)[k]).0
                < before.store.nodes@.len(),
        before.store.nodes@.len() <= root.0,
        other != next.meta.url@,
    ensures
        table::found(after.url_to_semantic@, next.meta.url@) == Some(semantic),
        table::found(after.url_to_root@, next.meta.url@) == Some(root),
        table::found(after.path_to_doc_root@, path::components_of(next.meta.file@)) == Some(root),
        ({
            let roots = conductor::roots_of(after.stem_to_roots@, next.meta.stem@);
            &&& roots.len() == conductor::roots_of(before.stem_to_roots@, next.meta.stem@).len()
            &&& roots.no_duplicates()
            &&& roots.contains(root)
            &&& !roots.contains(old_root)
        }),
        table::found(after.url_to_root@, other) == table::found(before.url_to_root@, other),
        table::found(after.url_to_semantic@, other) == table::found(before.url_to_semantic@, other),
{
    let start = Conductor { store, ..before };
    let roots = conductor::roots_of(before.stem_to_roots@, next.meta.stem@);
    assert(!roots.contains(root)) by {
        if roots.contains(root) {
            let k = choose|k: int| 0 <= k < roots.len() && roots[k] == root;
            assert(roots[k].0 < before.store.nodes@.len());
        }
    }
    rebuild::law_placed_document_is_found(start, next.meta, root, middle);
    rebuild::law_placed_document_keeps_the_others(start, next.meta, root, middle, old_root, other);
    table::law_entry_is_found(before.url_to_semantic@, next.meta.url@, semantic);
    table::law_entry_keeps_others(before.url_to_semantic@, next.meta.url@, semantic, other);
    let now = conductor::roots_of(middle.stem_to_roots@, next.meta.stem@);
    assert(now.last() == root);
    assert(now[now.len() - 1] == root);
}

/// A text that cannot be read as a document, for want of a grammar, changes no index.
pub proof fn law_unread_document_changes_no_index(
    before: Conductor,
    task: RebuildTask,
    kind: FileClassification,
    after: Conductor,
    r: Step,
)
    requires
        starts_rebuild(before, task, kind, after, r),
    ensures
        after == (Conductor { build_errors: after.build_errors, ..before }),
{
}

/// A content file is stored as the page of its stem and its name: read by the grammar of
/// that page, and with the URL, the file and the kind of it.
pub proof fn law_stored_document_is_that_of_the_page(
    before: Conductor,
    task: RebuildTask,
    kind: FileClassification,
    slug: Seq<char>,
    after: Conductor,
    r: Step,
)
    requires
        kind is Content,
        site::stem_of_path(task.path@) == Some(slug),
        conductor::grammar_of(
            before.schemas@,
            site::schema_key(kind->Content_schema_stem@, slug),
        ) is Some,
        starts_rebuild(before, task, kind, after, r),
    ensures
        after == before,
        r is StoreDocument,
        r->StoreDocument_document@ == populate::document_of(
            task.text@,
            conductor::grammar_of(
                before.schemas@,
                site::schema_key(kind->Content_schema_stem@, slug),
            )->0,
        ),
        r->StoreDocument_next.meta.stem@ == kind->Content_schema_stem@,
        r->StoreDocument_next.meta.url@ == site::page_url(kind->Content_schema_stem@, slug),
        r->StoreDocument_next.meta.file@ == site::page_file(kind->Content_schema_stem@, slug),
        slug == "index"@ <==> r->StoreDocument_next.meta.page_kind@ == "collection"@,
        slug != "index"@ <==> r->StoreDocument_next.meta.page_kind@ == "item"@,
        r->StoreDocument_next.goal == task.goal,
{
    reveal_strlit("collection");
    reveal_strlit("item");
    assert("collection"@.len() == 10 && "item"@.len() == 4);
}

/// A page that was rebuilt on a change is told and has no errors; one that was not has the
/// error that says why, and it is told that it failed.
pub proof fn law_rebuilt_or_failed(
    before: Conductor,
    url: Seq<char>,
    error: Option<Seq<char>>,
    after: Conductor,
    r: Step,
)
    requires
        is_settled(before, Goal::Changed, Some(url), error, after, r),
        url.len() == 0 || url.last() != '/',
    ensures
        error is None ==> table::found(rebuild::seen_errors(after.build_errors@), url) is None,
        error is None ==> r is Done && r->Done_0.events@.len() == 1 && r->Done_0.events@[0]
            is PagesRebuilt && text::texts(r->Done_0.events@[0]->PagesRebuilt_pages@) == seq![url],
        error matches Some(message) ==> table::found(
            rebuild::seen_errors(after.build_errors@),
            url,
        ) == Some(seq![message]),
        error is Some ==> r is Done && r->Done_0.events@.len() == 1 && r->Done_0.events@[0]
            is BuildFailed && text::texts(r->Done_0.events@[0]->error_pages@) == seq![url],
{
    let errors = rebuild::seen_errors(before.build_errors@);
    rebuild::law_only_the_errors_of_a_page_are_cleared(errors, url, url);
    if let Some(message) = error {
        table::law_entry_is_found(errors, url, seq![message]);
    }
}

/// A page that is probed is rebuilt where there is a text for it and, where it must be
/// there, it is; otherwise the next one is probed, and at the end the creation is told.
pub proof fn law_probed_pages_are_rebuilt(
    c: Conductor,
    target: Target,
    task: Creation,
    exists: bool,
    text: Option<String>,
    r: Step,
)
    requires
        is_probed(c, target, task, exists, text, r),
    ensures
        text is Some && (exists || !target.must_exist) ==> r is Classify && r->Classify_path@
            == target.path@,
        !exists && target.must_exist && task.rest@.len() > 0 ==> r is Probe && r->Probe_target
            == task.rest@[0],
        !exists && target.must_exist && task.rest@.len() == 0 ==> r is Done
            && r->Done_0.response is ContentCreated && r->Done_0.response->ContentCreated_0@
            == task.url@,
{
}

} // verus!
