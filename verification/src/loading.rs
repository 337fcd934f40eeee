//! How the site is loaded, and loaded again when its files change.

use vstd::prelude::*;

use crate::affected;
use crate::conductor;
use crate::conductor::{Buffer, Conductor};
use crate::dep_graph::DependencyGraph;
use crate::node_store::{NodeId, NodeStore};
use crate::pages;
use crate::pages::continue_creation;
use crate::path;
use crate::path::{join_path, SitePath};
use crate::populate;
use crate::populate::linking_order;
use crate::protocol::{CommandResult, FileClassification};
use crate::rebuild;
use crate::rebuild::{build_report, PageJob, PageJobView, RenderOutcome};
use crate::self_write_tracker;
use crate::self_write_tracker::Write;
use crate::site;
use crate::site::together;
use crate::steps::{
    AfterRender, Creation, LoadGoal, PopulateTask, RenderTask, ScaffoldOutcome, SiteContents, Step,
    Target,
};
use crate::table;
use crate::text;

verus! {

/// The modification time of a file, where it is known.
pub open spec fn time_at(times: Seq<Option<i128>>, k: int) -> Option<i128> {
    if 0 <= k < times.len() {
        times[k]
    } else {
        None
    }
}

/// Whether a change of a file came from outside: the file is gone, or it is not as
/// the conductor wrote it.
pub open spec fn is_external(c: Conductor, name: Seq<char>, time: Option<i128>, now: u128) -> bool {
    match time {
        Some(t) => !self_write_tracker::ignored(
            c.self_writes@,
            path::components_of(path::path_join(c.site_dir@, name)),
            t,
            now,
            c.self_writes.window(),
        ),
        None => true,
    }
}

/// The files among the first whose change came from outside.
pub open spec fn external_among(
    c: Conductor,
    names: Seq<Seq<char>>,
    times: Seq<Option<i128>>,
    now: u128,
    n: int,
) -> Seq<Seq<char>>
    decreases n,
{
    if n <= 0 {
        seq![]
    } else if is_external(c, names[n - 1], time_at(times, n - 1), now) {
        external_among(c, names, times, now, n - 1).push(names[n - 1])
    } else {
        external_among(c, names, times, now, n - 1)
    }
}

/// The unsaved texts without those of the given files.
pub open spec fn without_paths(
    sources: Seq<(Seq<Seq<char>>, Buffer)>,
    names: Seq<Seq<char>>,
) -> Seq<(Seq<Seq<char>>, Buffer)>
    decreases names.len(),
{
    if names.len() == 0 {
        sources
    } else {
        table::without_key(
            without_paths(sources, names.drop_last()),
            path::components_of(names.last()),
        )
    }
}

/// Where the given files lie.
pub open spec fn in_site(site_dir: Seq<char>, names: Seq<Seq<char>>) -> Seq<Seq<char>> {
    names.map_values(|n: Seq<char>| path::path_join(site_dir, n))
}

/// Whether one of the given roles is that of a stylesheet.
pub open spec fn has_stylesheet(kinds: Seq<FileClassification>) -> bool {
    exists|k: int| 0 <= k < kinds.len() && (#[trigger] kinds[k]) is Stylesheet
}

/// Whether one of the given roles is that of a stylesheet.
fn any_stylesheet(kinds: &Vec<FileClassification>) -> (r: bool)
    ensures
        r == has_stylesheet(kinds@),
{
    let mut i: usize = 0;
    while i < kinds.len()
        invariant
            i <= kinds.len(),
            forall|k: int| 0 <= k < i ==> !((#[trigger] kinds@[k]) is Stylesheet),
        decreases kinds.len() - i,
    {
        if let FileClassification::Stylesheet = &kinds[i] {
            return true;
        }
        i += 1;
    }
    false
}

/// Where the given files lie.
fn locate_all(site_dir: &str, names: &Vec<String>) -> (r: Vec<String>)
    ensures
        text::texts(r@) == in_site(site_dir@, text::texts(names@)),
{
    let mut out: Vec<String> = Vec::new();
    let mut i: usize = 0;
    while i < names.len()
        invariant
            i <= names.len(),
            out@.len() == i,
            forall|k: int|
                0 <= k < i ==> (#[trigger] out@[k])@ == path::path_join(site_dir@, names@[k]@),
        decreases names.len() - i,
    {
        out.push(join_path(site_dir, names[i].as_str()));
        i += 1;
    }
    proof {
        assert(text::texts(out@) =~= in_site(site_dir@, text::texts(names@)));
    }
    out
}

/// What follows once the modification times of changed files are known: where
/// every change is the conductor's own, nothing; otherwise the unsaved texts of the
/// files that were changed from outside are given up, and the site is loaded again.
pub open spec fn is_filtered(
    before: Conductor,
    names: Seq<Seq<char>>,
    times: Seq<Option<i128>>,
    now: u128,
    after: Conductor,
    r: Step,
) -> bool {
    let changed = external_among(before, names, times, now, names.len() as int);
    if changed.len() == 0 {
        after == before && r.is_ok()
    } else {
        &&& after.doc_sources@ == without_paths(before.doc_sources@, changed)
        &&& after == (Conductor { doc_sources: after.doc_sources, ..before })
        &&& r matches Step::Reload { paths, goal: LoadGoal::Changed { files } }
        &&& text::texts(paths@) == in_site(before.site_dir@, changed)
        &&& text::texts(files@) == in_site(before.site_dir@, changed)
    }
}

/// What follows once the site was loaded: the schemas are those that were found, so
/// are the files that pages are built from, and the documents that the schemas read
/// are to be put into a new store.
pub open spec fn is_reloaded(
    before: Conductor,
    goal: LoadGoal,
    contents: SiteContents,
    after: Conductor,
    r: Step,
) -> bool {
    &&& after.schemas@ == populate::schema_table(contents.schemas@)
    &&& after == (Conductor {
        schemas: after.schemas,
        dep_graph: contents.dependencies,
        ..before
    })
    &&& r matches Step::Populate(task)
    &&& populate::planned_views(task.documents@) == populate::site_plans(
        after.schemas@,
        contents.contents@,
    )
    &&& task.order@ == populate::linking_order_of(populate::planned_views(task.documents@))
    &&& task.has_root_template == contents.has_root_template
    &&& task.stylesheet == has_stylesheet(contents.kinds@)
    &&& task.earlier == before.dep_graph
    &&& task.goal == goal
}

/// The files whose pages are rebuilt once new content was created: that of the
/// content itself, that of its collection, and that of the root of the site.
pub open spec fn creation_targets(
    site_dir: Seq<char>,
    new_path: Seq<char>,
    stem: Seq<char>,
) -> Seq<(Seq<char>, bool)> {
    let content = path::path_join(site_dir, "content"@);
    seq![
        (new_path, false),
        (path::path_join(path::path_join(content, stem), "index.md"@), true),
        (path::path_join(content, "index.md"@), true),
    ]
}

/// What targets hold.
pub open spec fn target_views(targets: Seq<Target>) -> Seq<(Seq<char>, bool)> {
    targets.map_values(|t: Target| (t.path@, t.must_exist))
}

/// Whether a step renders the given pages, none of them twice.
pub open spec fn renders(jobs: Seq<PageJobView>, next: AfterRender, r: Step) -> bool {
    &&& r matches Step::RenderPages(task)
    &&& rebuild::job_views(task.jobs@) == jobs
    &&& rebuild::job_urls(jobs).no_duplicates()
    &&& task.next == next
}

/// What follows once the site is in the store: its pages are rendered, or those that
/// the change of files affects, or those that new content concerns.
pub open spec fn follows_load(
    c: Conductor,
    earlier: DependencyGraph,
    goal: LoadGoal,
    stylesheet: bool,
    r: Step,
) -> bool {
    let all = rebuild::jobs_among(c.store, c.url_to_semantic@);
    match goal {
        LoadGoal::Startup => renders(all, AfterRender::Startup, r),
        LoadGoal::Refresh => renders(all, AfterRender::All { stylesheet }, r),
        LoadGoal::Changed { files } => renders(
            affected::affected_jobs_of(c, earlier@, text::texts(files@)),
            AfterRender::All { stylesheet },
            r,
        ),
        LoadGoal::Created { path: new_path, url, stem } => exists|targets: Seq<Target>|
            target_views(targets) == creation_targets(c.site_dir@, new_path@, stem@)
                && #[trigger] pages::goes_on(url@, seq![], targets, r),
    }
}

/// What becomes of the state once the documents of a site were put into a store:
/// the indexes are those of the documents, with an empty page for the root where
/// the site needs one.
pub open spec fn is_populated(
    before: Conductor,
    task: PopulateTask,
    store: NodeStore,
    roots: Seq<NodeId>,
    semantics: Seq<NodeId>,
    after: Conductor,
) -> bool {
    exists|middle: Conductor|
        {
            &&& populate::is_indexed(
                middle,
                populate::planned_views(task.documents@),
                roots,
                task.order@,
                semantics,
            )
            &&& middle == (Conductor {
                store,
                url_to_root: middle.url_to_root,
                url_to_semantic: middle.url_to_semantic,
                stem_to_roots: middle.stem_to_roots,
                path_to_doc_root: middle.path_to_doc_root,
                ..before
            })
            &&& #[trigger] populate::is_rooted(middle, task.has_root_template, after)
        }
}

/// The writes that are kept once the first of the given files were recorded.
pub open spec fn all_recorded(
    writes: Map<Seq<Seq<char>>, Write>,
    files: Seq<(String, i128)>,
    now: u128,
    window: u128,
    n: int,
) -> Map<Seq<Seq<char>>, Write>
    decreases n,
{
    if n <= 0 {
        writes
    } else {
        self_write_tracker::recorded(
            all_recorded(writes, files, now, window, n - 1),
            path::components_of(files[n - 1].0@),
            files[n - 1].1,
            now,
            window,
        )
    }
}

impl Conductor {
    /// The conductor starts: the site is loaded.
    pub fn start(&self) -> (r: Step)
        ensures
            r matches Step::Reload { paths, goal: LoadGoal::Startup } && paths@.len() == 0,
    {
        Step::Reload { paths: Vec::new(), goal: LoadGoal::Startup }
    }

    /// Files were changed on disk: their modification times tell whether the
    /// conductor wrote them itself.
    pub fn file_changed(&self, named: Vec<String>) -> (r: Step)
        ensures
            r matches Step::Stat { paths, named: n } && n == named && text::texts(paths@)
                == in_site(self.site_dir@, text::texts(named@)),
    {
        let paths = locate_all(self.site_dir.as_str(), &named);
        Step::Stat { paths, named }
    }

    /// The modification times of changed files were read.
    pub fn on_stat(&mut self, named: &Vec<String>, times: &Vec<Option<i128>>, now: u128) -> (r: Step)
        ensures
            is_filtered(
                *old(self),
                text::texts(named@),
                times@,
                now,
                *final(self),
                r,
            ),
    {
        let ghost all = text::texts(named@);
        let mut kept: Vec<String> = Vec::new();
        let mut i: usize = 0;
        proof {
            assert(text::texts(kept@) =~= seq![]);
            assert(all.len() == named@.len());
        }
        while i < named.len()
            invariant
                i <= named.len(),
                all == text::texts(named@),
                *self == *old(self),
                text::texts(kept@) == external_among(*self, all, times@, now, i as int),
            decreases named.len() - i,
        {
            proof {
                assert(all[i as int] == named@[i as int]@);
            }
            let own = if i < times.len() {
                match times[i] {
                    Some(time) => {
                        let full = join_path(self.site_dir.as_str(), named[i].as_str());
                        self.self_writes.should_ignore(&SitePath::new(full.as_str()), time, now)
                    },
                    None => false,
                }
            } else {
                false
            };
            if !own {
                let ghost before = kept@;
                kept.push(named[i].clone());
                proof {
                    assert(text::texts(kept@) =~= text::texts(before).push(all[i as int]));
                }
            }
            i += 1;
        }
        let ghost changed = text::texts(kept@);
        proof {
            assert(changed.len() == kept@.len());
        }
        if kept.len() == 0 {
            return Step::Done(CommandResult::ok());
        }
        let ghost start = self.doc_sources@;
        let mut k: usize = 0;
        proof {
            assert(changed.take(0) =~= seq![]);
        }
        while k < kept.len()
            invariant
                k <= kept.len(),
                changed == text::texts(kept@),
                self.doc_sources@ == without_paths(start, changed.take(k as int)),
                *self == (Conductor { doc_sources: self.doc_sources, ..*old(self) }),
            decreases kept.len() - k,
        {
            proof {
                assert(changed.take(k + 1).drop_last() =~= changed.take(k as int));
                assert(changed.take(k + 1).last() == kept@[k as int]@);
            }
            self.doc_sources.remove(&SitePath::new(kept[k].as_str()));
            k += 1;
        }
        proof {
            assert(changed.take(k as int) =~= changed);
        }
        let paths = locate_all(self.site_dir.as_str(), &kept);
        let files = locate_all(self.site_dir.as_str(), &kept);
        Step::Reload { paths, goal: LoadGoal::Changed { files } }
    }

    /// The site was loaded.
    pub fn on_reloaded(&mut self, goal: LoadGoal, contents: SiteContents) -> (r: Step)
        ensures
            is_reloaded(*old(self), goal, contents, *final(self), r),
    {
        let stylesheet = any_stylesheet(&contents.kinds);
        let mut earlier = contents.dependencies;
        std::mem::swap(&mut earlier, &mut self.dep_graph);
        self.refresh_schema_cache(contents.schemas);
        let documents = self.plan_documents(&contents.contents);
        let order = linking_order(&documents);
        Step::Populate(
            PopulateTask {
                documents,
                order,
                has_root_template: contents.has_root_template,
                stylesheet,
                earlier,
                goal,
            },
        )
    }

    /// The documents of the site were put into a store.
    pub fn on_populated(
        &mut self,
        task: PopulateTask,
        store: NodeStore,
        roots: &Vec<NodeId>,
        semantics: &Vec<NodeId>,
    ) -> (r: Step)
        ensures
            is_populated(*old(self), task, store, roots@, semantics@, *final(self)),
            follows_load(*final(self), task.earlier, task.goal, task.stylesheet, r),
    {
        self.index_documents(store, &task.documents, roots, &task.order, semantics);
        let ghost middle = *self;
        self.add_fallback_root(task.has_root_template);
        proof {
            assert(populate::is_rooted(middle, task.has_root_template, *self));
        }
        match task.goal {
            LoadGoal::Startup => {
                let jobs = self.all_jobs();
                Step::RenderPages(RenderTask { jobs, next: AfterRender::Startup })
            },
            LoadGoal::Refresh => {
                let jobs = self.all_jobs();
                Step::RenderPages(
                    RenderTask { jobs, next: AfterRender::All { stylesheet: task.stylesheet } },
                )
            },
            LoadGoal::Changed { files } => {
                let jobs = self.affected_jobs(&task.earlier, &files);
                Step::RenderPages(
                    RenderTask { jobs, next: AfterRender::All { stylesheet: task.stylesheet } },
                )
            },
            LoadGoal::Created { path: new_path, url, stem } => {
                let content = join_path(self.site_dir.as_str(), "content");
                let dir = join_path(content.as_str(), stem.as_str());
                let mut rest: Vec<Target> = Vec::new();
                rest.push(Target { path: new_path, must_exist: false });
                rest.push(
                    Target { path: join_path(dir.as_str(), "index.md"), must_exist: true },
                );
                rest.push(
                    Target { path: join_path(content.as_str(), "index.md"), must_exist: true },
                );
                let ghost targets = rest@;
                let rebuilt: Vec<String> = Vec::new();
                proof {
                    assert(text::texts(rebuilt@) =~= seq![]);
                    assert(target_views(targets) =~= creation_targets(
                        self.site_dir@,
                        new_path@,
                        stem@,
                    ));
                }
                let r = continue_creation(Creation { url, rebuilt, rest });
                proof {
                    assert(pages::goes_on(url@, seq![], targets, r));
                }
                r
            },
        }
    }

    /// Pages of the site were rendered, because its files were changed.
    pub fn on_site_rendered(
        &mut self,
        jobs: &Vec<PageJob>,
        stylesheet: bool,
        store: NodeStore,
        outcomes: &Vec<RenderOutcome>,
    ) -> (r: Step)
        ensures
            is_site_built(
                *old(self),
                rebuild::job_views(jobs@),
                stylesheet,
                store,
                outcomes@,
                *final(self),
                r,
            ),
    {
        self.store = store;
        let report = build_report(jobs, outcomes);
        let events = self.finalize_render(report, stylesheet);
        Step::Done(CommandResult::ok_with_events(events))
    }

    /// Content was created, or could not be: the site is loaded again.
    pub fn on_created(&self, stem: String, result: Result<(String, String), String>) -> (r: Step)
        ensures
            match result {
                Ok((new_path, url)) => r matches Step::Reload { paths, goal } && paths@.len() == 0
                    && goal == (LoadGoal::Created { path: new_path, url, stem }),
                Err(message) => r.fails(message@),
            },
    {
        match result {
            Ok((new_path, url)) => Step::Reload {
                paths: Vec::new(),
                goal: LoadGoal::Created { path: new_path, url, stem },
            },
            Err(message) => Step::Done(CommandResult::error(message)),
        }
    }

    /// A new site was filled from a starter template, or could not be: the files
    /// that were written are recorded, and the site is loaded again.
    pub fn on_scaffolded(&mut self, template_name: &str, outcome: ScaffoldOutcome) -> (r: Step)
        ensures
            is_scaffolded(*old(self), template_name@, outcome, *final(self), r),
    {
        match outcome {
            ScaffoldOutcome::UnknownTemplate => Step::Done(
                CommandResult::error(together("unknown template: ", template_name)),
            ),
            ScaffoldOutcome::Failed(message) => Step::Done(CommandResult::error(message)),
            ScaffoldOutcome::Written { files, now } => {
                let mut i: usize = 0;
                while i < files.len()
                    invariant
                        i <= files.len(),
                        self.self_writes@ == all_recorded(
                            old(self).self_writes@,
                            files@,
                            now,
                            old(self).self_writes.window(),
                            i as int,
                        ),
                        self.self_writes.window() == old(self).self_writes.window(),
                        *self == (Conductor { self_writes: self.self_writes, ..*old(self) }),
                    decreases files.len() - i,
                {
                    self.self_writes.record(
                        SitePath::new(files[i].0.as_str()),
                        files[i].1,
                        now,
                    );
                    i += 1;
                }
                Step::Reload { paths: Vec::new(), goal: LoadGoal::Refresh }
            },
        }
    }
}

/// What becomes of the state once pages of the site were rendered together: the
/// errors of the pages that were rebuilt are forgotten, those of the pages that
/// could not be are remembered, and both are told.
pub open spec fn is_site_built(
    before: Conductor,
    jobs: Seq<rebuild::PageJobView>,
    stylesheet: bool,
    store: NodeStore,
    outcomes: Seq<RenderOutcome>,
    after: Conductor,
    r: Step,
) -> bool {
    let n = populate::shorter(jobs.len(), outcomes.len());
    let rebuilt = rebuild::rebuilt_among(jobs, outcomes, n);
    let errors = rebuild::errors_among(jobs, outcomes, n);
    &&& rebuild::seen_errors(after.build_errors@) == rebuild::all_entered(
        rebuild::all_cleared(rebuild::seen_errors(before.build_errors@), rebuilt),
        errors,
    )
    &&& after == (Conductor { store, build_errors: after.build_errors, ..before })
    &&& r matches Step::Done(c) && c.response is Done && rebuild::tells_build(
        c.events@,
        rebuilt,
        rebuild::firsts(errors),
        stylesheet,
    )
}

/// What follows once a new site was filled, or could not be.
pub open spec fn is_scaffolded(
    before: Conductor,
    template_name: Seq<char>,
    outcome: ScaffoldOutcome,
    after: Conductor,
    r: Step,
) -> bool {
    match outcome {
        ScaffoldOutcome::UnknownTemplate => after == before && r.fails(
            "unknown template: "@ + template_name,
        ),
        ScaffoldOutcome::Failed(message) => after == before && r.fails(message@),
        ScaffoldOutcome::Written { files, now } => {
            &&& after.self_writes@ == all_recorded(
                before.self_writes@,
                files@,
                now,
                before.self_writes.window(),
                files@.len() as int,
            )
            &&& after.self_writes.window() == before.self_writes.window()
            &&& after == (Conductor { self_writes: after.self_writes, ..before })
            &&& r matches Step::Reload { paths, goal: LoadGoal::Refresh } && paths@.len() == 0
        },
    }
}

/// Whether the documents were put into the store: each is a node of its own.
pub open spec fn are_stored(task: PopulateTask, store: NodeStore, roots: Seq<NodeId>) -> bool {
    &&& roots.len() == task.documents@.len()
    &&& roots.no_duplicates()
    &&& forall|k: int| 0 <= k < roots.len() ==> (#[trigger] roots[k]).0 < store.nodes@.len()
}

/// Once a site was loaded, every planned document is found by its URL and by its file,
/// and stands once among those of its stem.
proof fn lemma_loaded(
    middle: Conductor,
    task: PopulateTask,
    store: NodeStore,
    roots: Seq<NodeId>,
    semantics: Seq<NodeId>,
    after: Conductor,
    k: int,
)
    requires
        is_populated(middle, task, store, roots, semantics, after),
        are_stored(task, store, roots),
        populate::are_apart(populate::planned_views(task.documents@)),
        0 <= k < task.documents@.len(),
        populate::planned_views(task.documents@)[k].url != "/"@ || !task.has_root_template
            || table::has_key(after.url_to_root@, "/"@),
    ensures
        ({
            let plan = populate::planned_views(task.documents@)[k];
            let list = conductor::roots_of(after.stem_to_roots@, plan.stem);
            &&& table::found(after.url_to_root@, plan.url) == Some(roots[k])
            &&& table::found(after.path_to_doc_root@, path::components_of(plan.file)) == Some(
                roots[k],
            )
            &&& list.contains(roots[k])
            &&& list.no_duplicates()
        }),
{
    let plans = populate::planned_views(task.documents@);
    let plan = plans[k];
    let indexed = lemma_indexed(middle, task, store, roots, semantics, after);
    populate::law_loaded_document_is_found(indexed, plans, roots, task.order@, semantics, k);
    let seen = rebuild::seen_roots(indexed.stem_to_roots@);
    let now = rebuild::seen_roots(after.stem_to_roots@);
    let list = table::found(seen, plan.stem)->0;
    table::lemma_seen_found(after.stem_to_roots@, rebuild::ids_view(), plan.stem);
    if populate::needs_bare_root(indexed, task.has_root_template) {
        let root = table::found(after.url_to_root@, "/"@)->0;
        table::lemma_place_of(indexed.url_to_root@, plan.url);
        assert(table::has_key(indexed.url_to_root@, plan.url));
        assert(plan.url != "/"@);
        table::law_entry_keeps_others(indexed.url_to_root@, "/"@, root, plan.url);
        let value = match table::found(seen, ""@) {
            Some(known) => known.push(root),
            None => seq![root],
        };
        table::law_entry_is_found(seen, ""@, value);
        if plan.stem == ""@ {
            assert forall|i: int| 0 <= i < list.len() implies list[i] != root by {
                assert(roots.contains(list[i]));
                let at = choose|at: int| 0 <= at < roots.len() && roots[at] == list[i];
                assert(roots[at].0 < store.nodes@.len());
            }
            assert forall|i: int, j: int|
                0 <= i < value.len() && 0 <= j < value.len() && i != j implies value[i]
                != value[j] by {
                if i < list.len() && j < list.len() {
                    assert(list[i] != list[j]);
                }
            }
            let i = choose|i: int| 0 <= i < list.len() && list[i] == roots[k];
            assert(value[i] == roots[k]);
        } else {
            table::law_entry_keeps_others(seen, ""@, value, plan.stem);
        }
    }
}

/// Once a site was loaded, the file and the URL of an item that can be read, and whose
/// stem has a schema that can be, lead to the same document. It stands once among the
/// documents of its stem.
pub proof fn law_loaded_item_is_found(
    before: Conductor,
    goal: LoadGoal,
    contents: SiteContents,
    middle: Conductor,
    task: PopulateTask,
    store: NodeStore,
    roots: Seq<NodeId>,
    semantics: Seq<NodeId>,
    after: Conductor,
    i: int,
    j: int,
)
    requires
        is_reloaded(before, goal, contents, middle, Step::Populate(task)),
        is_populated(middle, task, store, roots, semantics, after),
        are_stored(task, store, roots),
        populate::are_named(contents.contents@),
        0 <= i < contents.contents@.len(),
        0 <= j < contents.contents@[i].items@.len(),
        contents.contents@[i].items@[j].text is Some,
        populate::readable_key(
            middle.schemas@,
            contents.contents@[i].stem@ + "/item"@,
            contents.contents@[i].stem@,
        ) is Some,
    ensures
        ({
            let stem = contents.contents@[i].stem@;
            let slug = contents.contents@[i].items@[j].slug@;
            let url = "/"@ + stem + "/"@ + slug;
            let file = "content/"@ + stem + "/"@ + slug + ".md"@;
            &&& table::found(after.url_to_root@, url) matches Some(root)
            &&& table::found(after.path_to_doc_root@, path::components_of(file)) == Some(root)
            &&& conductor::roots_of(after.stem_to_roots@, stem).contains(root)
            &&& conductor::roots_of(after.stem_to_roots@, stem).no_duplicates()
        }),
{
    reveal_strlit("/");
    let stems = contents.contents@;
    populate::law_planned_documents_are_apart(middle.schemas@, stems);
    let k = populate::law_item_is_planned(middle.schemas@, stems, i, j);
    let plan = populate::planned_views(task.documents@)[k];
    assert(plan.url.len() >= 2);
    lemma_loaded(middle, task, store, roots, semantics, after, k);
}

/// Loading the same documents again gives the same URLs and files, and as many
/// documents of each stem.
pub proof fn law_loading_again_gives_the_same_counts(
    first: Conductor,
    first_task: PopulateTask,
    first_store: NodeStore,
    first_roots: Seq<NodeId>,
    first_semantics: Seq<NodeId>,
    first_after: Conductor,
    second: Conductor,
    second_task: PopulateTask,
    second_store: NodeStore,
    second_roots: Seq<NodeId>,
    second_semantics: Seq<NodeId>,
    second_after: Conductor,
)
    requires
        populate::planned_views(first_task.documents@) == populate::planned_views(
            second_task.documents@,
        ),
        first_task.has_root_template == second_task.has_root_template,
        is_populated(
            first,
            first_task,
            first_store,
            first_roots,
            first_semantics,
            first_after,
        ),
        is_populated(
            second,
            second_task,
            second_store,
            second_roots,
            second_semantics,
            second_after,
        ),
        first_roots.len() == second_roots.len(),
    ensures
        table::keys_of(first_after.url_to_root@) == table::keys_of(second_after.url_to_root@),
        table::keys_of(first_after.path_to_doc_root@) == table::keys_of(
            second_after.path_to_doc_root@,
        ),
        table::keys_of(first_after.stem_to_roots@) == table::keys_of(second_after.stem_to_roots@),
        forall|stem: Seq<char>| #[trigger]
            conductor::roots_of(first_after.stem_to_roots@, stem).len() == conductor::roots_of(
                second_after.stem_to_roots@,
                stem,
            ).len(),
{
    let plans = populate::planned_views(first_task.documents@);
    let a = lemma_indexed(
        first,
        first_task,
        first_store,
        first_roots,
        first_semantics,
        first_after,
    );
    let b = lemma_indexed(
        second,
        second_task,
        second_store,
        second_roots,
        second_semantics,
        second_after,
    );
    populate::law_second_load_has_the_same_counts(
        a,
        b,
        plans,
        first_roots,
        second_roots,
        first_semantics,
        second_semantics,
        first_task.order@,
        second_task.order@,
    );
    lemma_same_seen(a.stem_to_roots@, b.stem_to_roots@);
    populate::lemma_same_counts_rooted(
        a,
        b,
        first_task.has_root_template,
        first_after,
        second_after,
    );
    let x = first_after.stem_to_roots@;
    let y = second_after.stem_to_roots@;
    assert(table::keys_of(x) =~= table::keys_of(rebuild::seen_roots(x)));
    assert(table::keys_of(y) =~= table::keys_of(rebuild::seen_roots(y)));
    assert forall|stem: Seq<char>| #[trigger] conductor::roots_of(x, stem).len()
        == conductor::roots_of(y, stem).len() by {
        populate::lemma_same_count_of(rebuild::seen_roots(x), rebuild::seen_roots(y), stem);
        table::lemma_seen_found(x, rebuild::ids_view(), stem);
        table::lemma_seen_found(y, rebuild::ids_view(), stem);
    }
}

/// The state in which the documents of a load are in the indexes, before a page is put
/// in for the root of the site.
proof fn lemma_indexed(
    before: Conductor,
    task: PopulateTask,
    store: NodeStore,
    roots: Seq<NodeId>,
    semantics: Seq<NodeId>,
    after: Conductor,
) -> (indexed: Conductor)
    requires
        is_populated(before, task, store, roots, semantics, after),
    ensures
        populate::is_indexed(
            indexed,
            populate::planned_views(task.documents@),
            roots,
            task.order@,
            semantics,
        ),
        indexed.store == store,
        populate::is_rooted(indexed, task.has_root_template, after),
{
    choose|indexed: Conductor|
        {
            &&& populate::is_indexed(
                indexed,
                populate::planned_views(task.documents@),
                roots,
                task.order@,
                semantics,
            )
            &&& indexed == (Conductor {
                store,
                url_to_root: indexed.url_to_root,
                url_to_semantic: indexed.url_to_semantic,
                stem_to_roots: indexed.stem_to_roots,
                path_to_doc_root: indexed.path_to_doc_root,
                ..before
            })
            &&& #[trigger] populate::is_rooted(indexed, task.has_root_template, after)
        }
}

/// Tables with the same stems, each with as many documents, have the same counts as
/// they are seen.
proof fn lemma_same_seen(a: Seq<(Seq<char>, Vec<NodeId>)>, b: Seq<(Seq<char>, Vec<NodeId>)>)
    requires
        table::keys_of(a) == table::keys_of(b),
        a.len() == b.len(),
        forall|i: int| 0 <= i < a.len() ==> (#[trigger] a[i]).1@.len() == b[i].1@.len(),
    ensures
        populate::same_counts(rebuild::seen_roots(a), rebuild::seen_roots(b)),
{
    let x = rebuild::seen_roots(a);
    let y = rebuild::seen_roots(b);
    assert(table::keys_of(x) =~= table::keys_of(a));
    assert(table::keys_of(y) =~= table::keys_of(b));
    assert forall|i: int| 0 <= i < x.len() implies (#[trigger] x[i]).1.len() == y[i].1.len() by {
        assert(a[i].1@.len() == b[i].1@.len());
    }
}

/// The files that were changed from outside are those whose time of change is not that of
/// an own write that is still recent.
pub proof fn law_changes_from_outside(
    c: Conductor,
    names: Seq<Seq<char>>,
    times: Seq<Option<i128>>,
    now: u128,
    n: int,
    name: Seq<char>,
)
    requires
        0 <= n <= names.len(),
        n <= times.len(),
    ensures
        external_among(c, names, times, now, n).contains(name) <==> exists|k: int|
            0 <= k < n && #[trigger] names[k] == name && !(times[k] is Some
                && self_write_tracker::ignored(
                c.self_writes@,
                path::components_of(path::path_join(c.site_dir@, name)),
                times[k]->0,
                now,
                c.self_writes.window(),
            )),
    decreases n,
{
    if n > 0 {
        let before = external_among(c, names, times, now, n - 1);
        let all = external_among(c, names, times, now, n);
        law_changes_from_outside(c, names, times, now, n - 1, name);
        if before.contains(name) {
            let i = choose|i: int| 0 <= i < before.len() && before[i] == name;
            assert(all[i] == name);
        }
        if all.len() > before.len() {
            assert(all[before.len() as int] == names[n - 1]);
            if all.contains(name) && !before.contains(name) {
                let i = choose|i: int| 0 <= i < all.len() && all[i] == name;
                if i < before.len() {
                    assert(before[i] == name);
                }
                assert(names[n - 1] == name);
            }
        }
    }
}

/// The texts of files that changed are no longer held, and the others are.
pub proof fn law_texts_of_changed_files_are_dropped(
    sources: Seq<(Seq<Seq<char>>, Buffer)>,
    names: Seq<Seq<char>>,
    k: int,
    other: Seq<Seq<char>>,
)
    ensures
        0 <= k < names.len() ==> table::found(
            without_paths(sources, names),
            path::components_of(names[k]),
        ) is None,
        (forall|j: int|
            0 <= j < names.len() ==> path::components_of(#[trigger] names[j]) != other)
            ==> table::found(without_paths(sources, names), other) == table::found(sources, other),
    decreases names.len(),
{
    if names.len() > 0 {
        let front = names.drop_last();
        let before = without_paths(sources, front);
        let last = path::components_of(names.last());
        law_texts_of_changed_files_are_dropped(sources, front, k, other);
        table::law_removed_key_is_gone(before, last);
        assert(names[names.len() - 1] == names.last());
        assert forall|j: int| 0 <= j < front.len() implies #[trigger] front[j] == names[j] by {}
        if 0 <= k < front.len() && path::components_of(names[k]) != last {
            table::law_removal_keeps_others(before, last, path::components_of(names[k]));
        }
        if forall|j: int|
            0 <= j < names.len() ==> path::components_of(#[trigger] names[j]) != other {
            assert(last != other);
            assert forall|j: int| 0 <= j < front.len() implies path::components_of(
                #[trigger] front[j],
            ) != other by {
                assert(path::components_of(names[j]) != other);
            }
            table::law_removal_keeps_others(before, last, other);
        }
    }
}

/// All files that were written are recorded: events on them are ignored while they are
/// recent.
pub proof fn law_written_files_are_ignored(
    writes: Map<Seq<Seq<char>>, Write>,
    files: Seq<(String, i128)>,
    now: u128,
    window: u128,
    n: int,
    k: int,
    later: u128,
)
    requires
        0 <= k < n <= files.len(),
        forall|j: int|
            k < j < n ==> path::components_of((#[trigger] files[j]).0@) != path::components_of(
                files[k].0@,
            ),
        now <= later,
        later - now < window,
    ensures
        self_write_tracker::ignored(
            all_recorded(writes, files, now, window, n),
            path::components_of(files[k].0@),
            files[k].1,
            later,
            window,
        ),
    decreases n,
{
    let before = all_recorded(writes, files, now, window, n - 1);
    let last = path::components_of(files[n - 1].0@);
    if k == n - 1 {
        self_write_tracker::law_window_of_a_write(
            before,
            last,
            files[k].1,
            now,
            window,
            later,
        );
    } else {
        assert(path::components_of(files[n - 1].0@) != path::components_of(files[k].0@));
        law_written_files_are_ignored(writes, files, now, window, n - 1, k, later);
        self_write_tracker::law_recording_keeps_recent_writes(
            before,
            last,
            files[n - 1].1,
            now,
            window,
            path::components_of(files[k].0@),
            files[k].1,
            later,
        );
    }
}

/// When content was created, the new file is rebuilt whether it is there or not, and then
/// the collection of its stem and the page at the top, where they are there.
pub proof fn law_pages_to_rebuild_on_creation(
    site_dir: Seq<char>,
    new_path: Seq<char>,
    stem: Seq<char>,
)
    requires
        site_dir.len() > 0,
        site::is_plain_name(stem),
        stem != "."@,
    ensures
        ({
            let targets = creation_targets(site_dir, new_path, stem);
            let content = path::components_of(site_dir) + seq!["content"@];
            &&& targets.len() == 3
            &&& targets[0] == (new_path, false)
            &&& targets[1].1 && path::components_of(targets[1].0) == content + seq![
                stem,
                "index.md"@,
            ]
            &&& targets[2].1 && path::components_of(targets[2].0) == content + seq!["index.md"@]
        }),
{
    reveal_strlit("content");
    reveal_strlit("index.md");
    reveal_strlit(".");
    assert("."@.len() == 1 && "content"@.len() == 7 && "index.md"@.len() == 8);
    let dir = path::path_join(site_dir, "content"@);
    site::lemma_joined_name(site_dir, "content"@);
    site::lemma_joined_name(dir, stem);
    site::lemma_joined_name(path::path_join(dir, stem), "index.md"@);
    site::lemma_joined_name(dir, "index.md"@);
    let targets = creation_targets(site_dir, new_path, stem);
    let content = path::components_of(site_dir) + seq!["content"@];
    assert(path::components_of(targets[1].0) =~= content + seq![stem, "index.md"@]);
}

/// Files that were changed from outside are loaded again, each by its place in the site;
/// where none was, nothing happens.
pub proof fn law_changed_files_are_loaded_again(
    before: Conductor,
    names: Seq<Seq<char>>,
    times: Seq<Option<i128>>,
    now: u128,
    after: Conductor,
    r: Step,
)
    requires
        is_filtered(before, names, times, now, after, r),
    ensures
        ({
            let changed = external_among(before, names, times, now, names.len() as int);
            &&& changed.len() == 0 ==> after == before && r is Done
            &&& changed.len() > 0 ==> r is Reload && r->goal is Changed && r->Reload_paths@.len()
                == changed.len() && forall|k: int|
                0 <= k < changed.len() ==> (#[trigger] r->Reload_paths@[k])@ == path::path_join(
                    before.site_dir@,
                    changed[k],
                )
        }),
{
    let changed = external_among(before, names, times, now, names.len() as int);
    if changed.len() > 0 {
        let full = text::texts(r->Reload_paths@);
        assert(full == in_site(before.site_dir@, changed));
        assert(full.len() == r->Reload_paths@.len());
        assert(full.len() == changed.len());
        assert forall|k: int| 0 <= k < changed.len() implies (#[trigger] r->Reload_paths@[k])@
            == path::path_join(before.site_dir@, changed[k]) by {
            assert(full[k] == r->Reload_paths@[k]@);
        }
    }
}

/// What was read of a site is planned: its documents, in the order in which they are
/// linked, whether it has a template for the top and whether a stylesheet changed. The
/// dependencies are those that were read, and the earlier ones are kept for the build.
pub proof fn law_what_was_read_is_planned(
    before: Conductor,
    goal: LoadGoal,
    contents: SiteContents,
    after: Conductor,
    r: Step,
)
    requires
        is_reloaded(before, goal, contents, after, r),
    ensures
        r is Populate,
        r->Populate_0.has_root_template == contents.has_root_template,
        r->Populate_0.goal == goal,
        r->Populate_0.earlier == before.dep_graph,
        after.dep_graph == contents.dependencies,
        r->Populate_0.stylesheet <==> exists|k: int|
            0 <= k < contents.kinds@.len() && (#[trigger] contents.kinds@[k]) is Stylesheet,
        after.store == before.store,
        after.doc_sources == before.doc_sources,
        after.dirty_docs == before.dirty_docs,
        after.build_errors == before.build_errors,
{
}

/// After a site was loaded its pages are rendered: all of them at the start and after a
/// new template, those that are affected after a change. After content was created, its
/// file is probed first.
pub proof fn law_what_follows_a_load(
    c: Conductor,
    earlier: DependencyGraph,
    goal: LoadGoal,
    stylesheet: bool,
    r: Step,
)
    requires
        follows_load(c, earlier, goal, stylesheet, r),
    ensures
        goal is Startup ==> r is RenderPages && r->RenderPages_0.next is Startup
            && rebuild::job_views(r->RenderPages_0.jobs@) == rebuild::jobs_among(
            c.store,
            c.url_to_semantic@,
        ),
        goal is Refresh ==> r is RenderPages && r->RenderPages_0.next == (AfterRender::All {
            stylesheet,
        }) && rebuild::job_views(r->RenderPages_0.jobs@) == rebuild::jobs_among(
            c.store,
            c.url_to_semantic@,
        ),
        goal is Changed ==> r is RenderPages && r->RenderPages_0.next == (AfterRender::All {
            stylesheet,
        }) && rebuild::job_views(r->RenderPages_0.jobs@) == affected::affected_jobs_of(
            c,
            earlier@,
            text::texts(goal->files@),
        ),
        goal is Created ==> r is Probe && r->Probe_target.path@ == goal->Created_path@
            && !r->Probe_target.must_exist && r->Probe_next.url@ == goal->url@
            && r->Probe_next.rest@.len() == 2,
{
    if goal is Created {
        let targets = choose|targets: Seq<Target>|
            target_views(targets) == creation_targets(
                c.site_dir@,
                goal->Created_path@,
                goal->stem@,
            ) && #[trigger] pages::goes_on(goal->url@, seq![], targets, r);
        let views = target_views(targets);
        assert(views.len() == 3);
        assert(views[0] == (targets[0].path@, targets[0].must_exist));
    }
}

/// A new site is loaded again once its files were written; where they could not be, the
/// failure is told and nothing changes.
pub proof fn law_what_follows_a_new_site(
    before: Conductor,
    template_name: Seq<char>,
    outcome: ScaffoldOutcome,
    after: Conductor,
    r: Step,
)
    requires
        is_scaffolded(before, template_name, outcome, after, r),
    ensures
        outcome is Written ==> r is Reload && r->goal is Refresh,
        !(outcome is Written) ==> after == before && r is Done && r->Done_0.response is Error,
        outcome is UnknownTemplate ==> r->Done_0.response->Error_0@ == "unknown template: "@
            + template_name,
{
}

/// To build pages changes the nodes and the errors of builds, and nothing else; what was
/// rebuilt is told first and what failed last.
pub proof fn law_builds_change_nodes_and_errors(
    before: Conductor,
    jobs: Seq<PageJobView>,
    stylesheet: bool,
    store: NodeStore,
    outcomes: Seq<RenderOutcome>,
    after: Conductor,
    r: Step,
)
    requires
        is_site_built(before, jobs, stylesheet, store, outcomes, after, r),
    ensures
        after.store == store,
        after.schemas == before.schemas,
        after.url_to_root == before.url_to_root,
        after.url_to_semantic == before.url_to_semantic,
        after.doc_sources == before.doc_sources,
        after.dirty_docs == before.dirty_docs,
        after.suggestions == before.suggestions,
        after.dep_graph == before.dep_graph,
        r is Done,
        r->Done_0.response is Done,
        jobs.len() == 0 && !stylesheet ==> r->Done_0.events@.len() == 0,
        jobs.len() == 0 ==> rebuild::seen_errors(after.build_errors@) == rebuild::seen_errors(
            before.build_errors@,
        ),
        stylesheet ==> r->Done_0.events@.len() > 0 && r->Done_0.events@[0] is PagesRebuilt,
{
}

} // verus!
