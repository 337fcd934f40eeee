//! How slots and bodies are edited, and what programs do to the site.

use vstd::prelude::*;

use crate::anchor;
use crate::anchor::{
    body_anchor, compose_body_program, compose_first_body_program, compose_slot_program,
};
use crate::conductor;
use crate::conductor::Conductor;
use crate::decimal;
use crate::decimal::usize_text;
use crate::dirty;
use crate::editorial::{
    NedMutation, NedSuggestion, NedSuggestionStatus, Suggestion, SuggestionStatus,
};
use crate::loading;
use crate::node_store;
use crate::node_store::{
    count_body, find_attr_text, nearest_named, slot_shape, slot_shape_for_node, source_docs_of,
    NodeId, NodeStore, SlotShape,
};
use crate::pages;
use crate::path;
use crate::path::{path_components, SitePath};
use crate::protocol::{CommandResult, ConductorEvent, Response};
use crate::rebuild;
use crate::rebuild::{build_events, settle_plans, RenderOutcome};
use crate::site;
use crate::site::{all_together, file_stem, schema_cache_key, together};
use crate::steps::{
    AfterEvaluate, AfterPersist, AfterPersistNed, AfterRender, NedOutcome, NedPurpose,
    PersistNedTask, PersistTask, RenderTask, SlotConsumer, Step,
};
use crate::table;
use crate::text;

verus! {

/// The stem of a content file: none for a file that lies in the directory of the
/// content itself, otherwise the directory below it.
pub open spec fn file_stem_of(file: Seq<char>) -> Option<Seq<char>> {
    let parts = path::components_of(file);
    if parts.len() == 2 {
        Some(seq![])
    } else if parts.len() > 1 {
        Some(parts[1])
    } else {
        None
    }
}

/// The stem of a content file.
fn stem_of_content(file: &str) -> (r: Option<String>)
    ensures
        text::opt_text(r) == file_stem_of(file@),
{
    let parts = path_components(file);
    proof {
        assert(path::components_of(file@).len() == parts@.len());
    }
    if parts.len() == 2 {
        let none = String::new();
        proof {
            assert(none@ =~= seq![]);
        }
        Some(none)
    } else if parts.len() > 1 {
        proof {
            assert(path::components_of(file@)[1] == parts@[1]@);
        }
        Some(parts[1].clone())
    } else {
        None
    }
}

/// The key of the schema of a content file, where it has a stem.
pub open spec fn file_key(file: Seq<char>) -> Option<Seq<char>> {
    match file_stem_of(file) {
        Some(stem) => Some(
            site::schema_key(
                stem,
                match site::stem_of_path(file) {
                    Some(slug) => slug,
                    None => ""@,
                },
            ),
        ),
        None => None,
    }
}

/// The key of the schema of a content file, where it has a stem.
fn key_of_content(file: &str) -> (r: Option<String>)
    ensures
        text::opt_text(r) == file_key(file@),
{
    match stem_of_content(file) {
        None => None,
        Some(stem) => {
            let slug = match file_stem(file) {
                Some(slug) => slug,
                None => "".to_owned(),
            };
            Some(schema_cache_key(stem.as_str(), slug.as_str()))
        },
    }
}

/// Why the grammar of a content file cannot be had, if it cannot.
pub open spec fn grammar_error(c: Conductor, file: Seq<char>) -> Option<Seq<char>> {
    match file_key(file) {
        None => Some("cannot derive schema stem from: "@ + file),
        Some(key) => match table::found(c.schemas@, key) {
            None => Some("slot not in grammar: no schema found for "@ + key),
            Some(entry) => match entry.grammar {
                Err(e) => Some("schema parse error: "@ + e.debug@),
                Ok(_) => None,
            },
        },
    }
}

/// What follows the edit of a slot: the pages that were rebuilt are told, or the
/// suggestion that asked for it is accepted, whether or not its pages could be
/// rebuilt.
pub open spec fn edit_follows(
    consumer: SlotConsumer,
    result: Result<Seq<Seq<char>>, Seq<char>>,
    r: Step,
) -> bool {
    match consumer {
        SlotConsumer::Edit => match result {
            Ok(pages) => r.tells_rebuilt(pages, None),
            Err(message) => r.fails(message),
        },
        SlotConsumer::Accept(suggestion) => accepts(
            suggestion,
            match result {
                Ok(pages) => pages,
                Err(_) => seq![],
            },
            r,
        ),
    }
}

/// Whether a suggestion is to be kept as one that was accepted.
pub open spec fn accepts(suggestion: Suggestion, pages: Seq<Seq<char>>, r: Step) -> bool {
    &&& r matches Step::Persist(task)
    &&& task.suggestion == (Suggestion { status: SuggestionStatus::Accepted, ..suggestion })
    &&& task.next matches AfterPersist::Accepted { pages: p }
    &&& text::texts(p@) == pages
}

/// Keep a suggestion as one that was accepted.
pub fn accept_suggestion(suggestion: Suggestion, pages: Vec<String>) -> (r: Step)
    ensures
        accepts(suggestion, text::texts(pages@), r),
{
    let mut updated = suggestion;
    updated.status = SuggestionStatus::Accepted;
    Step::Persist(
        PersistTask { suggestion: updated, next: AfterPersist::Accepted { pages } },
    )
}

/// How the result of an edit is seen.
pub open spec fn seen_result(result: Result<Vec<String>, String>) -> Result<
    Seq<Seq<char>>,
    Seq<char>,
> {
    match result {
        Ok(pages) => Ok(text::texts(pages@)),
        Err(message) => Err(message@),
    }
}

/// Go on once a slot was edited, or could not be.
pub fn finish_slot_edit(consumer: SlotConsumer, result: Result<Vec<String>, String>) -> (r: Step)
    ensures
        edit_follows(consumer, seen_result(result), r),
{
    match consumer {
        SlotConsumer::Edit => match result {
            Ok(pages) => Step::Done(
                CommandResult::ok_with_event(
                    ConductorEvent::PagesRebuilt { pages, anchor: None },
                ),
            ),
            Err(message) => Step::Done(CommandResult::error(message)),
        },
        SlotConsumer::Accept(suggestion) => match result {
            Ok(pages) => accept_suggestion(suggestion, pages),
            Err(_) => {
                let none: Vec<String> = Vec::new();
                proof {
                    assert(text::texts(none@) =~= seq![]);
                }
                accept_suggestion(suggestion, none)
            },
        },
    }
}

/// How the edit of a slot begins: a slot with one text is edited by a program, any
/// other by way of its grammar.
pub open spec fn starts_slot_edit(
    c: Conductor,
    file: Seq<char>,
    slot: Seq<char>,
    value: Seq<char>,
    consumer: SlotConsumer,
    r: Step,
) -> bool {
    match table::found(c.path_to_doc_root@, path::components_of(file)) {
        None => edit_follows(consumer, Err("no document in store for "@ + file), r),
        Some(root) => if node_store::document_slot_shape(c.store, root, slot)
            == SlotShape::SingleText {
            r matches Step::Evaluate { program, next } && program@ == anchor::slot_program(
                file,
                slot,
                value,
            ) && next == AfterEvaluate::Apply(NedPurpose::Slot(consumer))
        } else {
            match grammar_error(c, file) {
                Some(message) => edit_follows(consumer, Err(message), r),
                None => r matches Step::ModifySlot {
                    root: at,
                    grammar_key,
                    file: f,
                    slot: s,
                    value: v,
                    next,
                } && at == root && Some(grammar_key@) == file_key(file) && f@ == file && s@ == slot
                    && v@ == value && next == consumer,
            }
        },
    }
}

/// How the edit of an element of a body begins.
pub open spec fn starts_body_edit(
    c: Conductor,
    file: Seq<char>,
    index: usize,
    content: Seq<char>,
    r: Step,
) -> bool {
    match file_key(file) {
        None => r.fails("cannot derive schema stem from: "@ + file),
        Some(key) => match conductor::source_of(c.schemas@, key) {
            None => r.fails("no schema for: "@ + key),
            Some(schema) => match table::found(c.path_to_doc_root@, path::components_of(file)) {
                None => r.fails("document not found in store: "@ + file),
                Some(root) => {
                    let n = node_store::body_length(c.store, root);
                    if n > 0 && index >= n {
                        r.fails(
                            "body index "@ + decimal::digits(index as nat)
                                + " out of range (have "@ + decimal::digits(n) + " elements)"@,
                        )
                    } else {
                        r matches Step::Evaluate { program, next } && program@ == (if n == 0 {
                            anchor::first_body_program(schema, file, content)
                        } else {
                            anchor::body_program(schema, file, index as nat, content)
                        }) && next == AfterEvaluate::Apply(NedPurpose::Body { index })
                    }
                },
            },
        },
    }
}

impl Conductor {
    /// Begin the edit of a slot. Text-only slots with one element are edited by a
    /// program; all other shapes (empty, several elements, link, image, list,
    /// missing) by way of the grammar of the file.
    pub fn apply_slot_edit(&self, file: &str, slot: &str, value: &str, consumer: SlotConsumer) -> (r:
        Step)
        ensures
            starts_slot_edit(*self, file@, slot@, value@, consumer, r),
    {
        let root = match self.doc_root_for_path(&SitePath::new(file)) {
            Some(root) => root,
            None => {
                return finish_slot_edit(
                    consumer,
                    Err(together("no document in store for ", file)),
                );
            },
        };
        if slot_shape(&self.store, root, slot) == SlotShape::SingleText {
            return Step::Evaluate {
                program: compose_slot_program(file, slot, value),
                next: AfterEvaluate::Apply(NedPurpose::Slot(consumer)),
            };
        }
        match self.load_grammar_for_file(file) {
            Err(message) => finish_slot_edit(consumer, Err(message)),
            Ok(grammar_key) => Step::ModifySlot {
                root,
                grammar_key,
                file: file.to_owned(),
                slot: slot.to_owned(),
                value: value.to_owned(),
                next: consumer,
            },
        }
    }

    /// The key of the schema of a content file, given its path in the site.
    pub fn load_grammar_for_file(&self, file: &str) -> (r: Result<String, String>)
        ensures
            match r {
                Ok(key) => grammar_error(*self, file@) is None && file_key(file@) == Some(key@),
                Err(message) => grammar_error(*self, file@) == Some(message@),
            },
    {
        let key = match key_of_content(file) {
            Some(key) => key,
            None => {
                return Err(together("cannot derive schema stem from: ", file));
            },
        };
        match self.schemas.get(&key) {
            None => Err(together("slot not in grammar: no schema found for ", key.as_str())),
            Some(entry) => match &entry.grammar {
                Err(e) => Err(together("schema parse error: ", e.debug.as_str())),
                Ok(_) => Ok(key),
            },
        }
    }

    /// Begin the edit of an element of a body. Into an empty body the content is
    /// put as its first element.
    pub fn apply_body_element_edit(&self, file: &str, body_idx: usize, new_content: &str) -> (r: Step)
        ensures
            starts_body_edit(*self, file@, body_idx, new_content@, r),
    {
        let key = match key_of_content(file) {
            Some(key) => key,
            None => {
                return Step::Done(
                    CommandResult::error(together("cannot derive schema stem from: ", file)),
                );
            },
        };
        let schema = match self.schema_source(key.as_str()) {
            Some(schema) => schema,
            None => {
                return Step::Done(CommandResult::error(together("no schema for: ", key.as_str())));
            },
        };
        let root = match self.doc_root_for_path(&SitePath::new(file)) {
            Some(root) => root,
            None => {
                return Step::Done(
                    CommandResult::error(together("document not found in store: ", file)),
                );
            },
        };
        let count = count_body(&self.store, root);
        let program = if count == 0 {
            compose_first_body_program(schema.as_str(), file, new_content)
        } else if body_idx >= count {
            let index = usize_text(body_idx);
            let have = usize_text(count);
            let mut message = all_together("body index ", index.as_str(), " out of range (have ");
            message.append(have.as_str());
            message.append(" elements)");
            return Step::Done(CommandResult::error(message));
        } else {
            compose_body_program(schema.as_str(), file, body_idx, new_content)
        };
        Step::Evaluate {
            program,
            next: AfterEvaluate::Apply(NedPurpose::Body { index: body_idx }),
        }
    }
}

/// Whether a suggestion that is written as a program is to be kept with another
/// status.
pub open spec fn keeps_ned(
    suggestion: NedSuggestion,
    status: NedSuggestionStatus,
    r: Step,
) -> bool {
    r matches Step::PersistNed(task) && task.suggestion == (NedSuggestion { status, ..suggestion })
}

/// Whether a suggestion is to be kept as one that could no longer be applied.
pub open spec fn goes_stale(suggestion: NedSuggestion, reason: Seq<char>, r: Step) -> bool {
    &&& r matches Step::PersistNed(task)
    &&& task.suggestion == (NedSuggestion { status: task.suggestion.status, ..suggestion })
    &&& task.suggestion.status matches NedSuggestionStatus::Stale { reason: a }
    &&& a@ == reason
    &&& task.next matches AfterPersistNed::Staled { reason: b }
    &&& b@ == reason
}

/// Keep a suggestion as one that could no longer be applied.
pub fn mark_stale(suggestion: NedSuggestion, reason: String) -> (r: Step)
    ensures
        goes_stale(suggestion, reason@, r),
{
    let mut updated = suggestion;
    updated.status = NedSuggestionStatus::Stale { reason: reason.clone() };
    Step::PersistNed(
        PersistNedTask { suggestion: updated, next: AfterPersistNed::Staled { reason } },
    )
}

/// What follows once a program was applied: what it did is told, or the edit or the
/// suggestion that it was run for goes on.
pub open spec fn applied_follows(
    purpose: NedPurpose,
    rebuilt: Seq<Seq<char>>,
    failed: Seq<Seq<char>>,
    dirty: usize,
    r: Step,
) -> bool {
    match purpose {
        NedPurpose::Program => r matches Step::Done(c) && c.response matches Response::Applied {
            rebuilt_pages,
            failed_pages,
            dirty_paths,
        } && text::texts(rebuilt_pages@) == rebuilt && text::texts(failed_pages@) == failed
            && dirty_paths == dirty && rebuild::tells_build(c.events@, rebuilt, failed, false),
        NedPurpose::Slot(consumer) => edit_follows(consumer, Ok(rebuilt), r),
        NedPurpose::Body { index } => if rebuilt.len() == 0 {
            r.is_ok()
        } else {
            r.tells_rebuilt(rebuilt, Some(anchor::anchor_text(index as nat)))
        },
        NedPurpose::Accept(suggestion) => {
            &&& keeps_ned(suggestion, NedSuggestionStatus::Accepted, r)
            &&& r->PersistNed_0.next matches AfterPersistNed::Accepted { pages }
            &&& text::texts(pages@) == rebuilt
        },
    }
}

/// What follows where a program could not be applied.
pub open spec fn failure_follows(purpose: NedPurpose, message: Seq<char>, r: Step) -> bool {
    match purpose {
        NedPurpose::Program => r.fails(message),
        NedPurpose::Slot(consumer) => edit_follows(consumer, Err(message), r),
        NedPurpose::Body { index } => r.fails(message),
        NedPurpose::Accept(suggestion) => goes_stale(
            suggestion,
            "mutation failed to apply: "@ + message,
            r,
        ),
    }
}

/// A copy of a list of strings, with the same strings.
fn copy_texts(list: &Vec<String>) -> (r: Vec<String>)
    ensures
        text::texts(r@) == text::texts(list@),
{
    crate::document::clone_texts(list)
}

/// Go on once a program was applied.
pub fn finish_program(
    purpose: NedPurpose,
    rebuilt: Vec<String>,
    failed: Vec<String>,
    dirty: usize,
) -> (r: Step)
    ensures
        applied_follows(purpose, text::texts(rebuilt@), text::texts(failed@), dirty, r),
{
    match purpose {
        NedPurpose::Program => {
            let told = copy_texts(&rebuilt);
            let told_failed = copy_texts(&failed);
            let events = build_events(told, told_failed, false);
            Step::Done(
                CommandResult {
                    response: Response::Applied {
                        rebuilt_pages: rebuilt,
                        failed_pages: failed,
                        dirty_paths: dirty,
                    },
                    events,
                },
            )
        },
        NedPurpose::Slot(consumer) => finish_slot_edit(consumer, Ok(rebuilt)),
        NedPurpose::Body { index } => {
            proof {
                assert(text::texts(rebuilt@).len() == rebuilt@.len());
            }
            if rebuilt.len() == 0 {
                Step::Done(CommandResult::ok())
            } else {
                Step::Done(
                    CommandResult::ok_with_event(
                        ConductorEvent::PagesRebuilt {
                            pages: rebuilt,
                            anchor: Some(body_anchor(index)),
                        },
                    ),
                )
            }
        },
        NedPurpose::Accept(suggestion) => {
            let mut updated = suggestion;
            updated.status = NedSuggestionStatus::Accepted;
            Step::PersistNed(
                PersistNedTask {
                    suggestion: updated,
                    next: AfterPersistNed::Accepted { pages: rebuilt },
                },
            )
        },
    }
}

/// Go on where a program could not be applied.
pub fn fail_program(purpose: NedPurpose, message: String) -> (r: Step)
    ensures
        failure_follows(purpose, message@, r),
{
    match purpose {
        NedPurpose::Program => Step::Done(CommandResult::error(message)),
        NedPurpose::Slot(consumer) => finish_slot_edit(consumer, Err(message)),
        NedPurpose::Body { index: _ } => Step::Done(CommandResult::error(message)),
        NedPurpose::Accept(suggestion) => mark_stale(
            suggestion,
            together("mutation failed to apply: ", message.as_str()),
        ),
    }
}

/// The files of the given documents, in order. Documents without a file are passed
/// over.
pub open spec fn files_among(store: NodeStore, roots: Seq<NodeId>) -> Seq<Seq<char>>
    decreases roots.len(),
{
    if roots.len() == 0 {
        seq![]
    } else {
        let before = files_among(store, roots.drop_last());
        match node_store::attr_text(store, roots.last(), "file"@) {
            Some(file) => if file.len() > 0 {
                before.push(file)
            } else {
                before
            },
            None => before,
        }
    }
}

/// The paths of the given files.
pub open spec fn paths_of(files: Seq<Seq<char>>) -> Seq<Seq<Seq<char>>> {
    files.map_values(|f: Seq<char>| path::components_of(f))
}

/// The documents that were changed, with those in the given files.
pub open spec fn with_dirty(
    dirty: Map<Seq<Seq<char>>, Seq<char>>,
    files: Seq<Seq<char>>,
) -> Map<Seq<Seq<char>>, Seq<char>>
    decreases files.len(),
{
    if files.len() == 0 {
        dirty
    } else {
        dirty::marked(with_dirty(dirty, files.drop_last()), files.last())
    }
}

/// The files of the documents that the given nodes belong to.
pub open spec fn files_of_selection(store: NodeStore, nodes: Seq<NodeId>) -> Seq<Seq<char>> {
    files_among(
        store,
        node_store::nearest_above(store, nodes, "document"@, store.nodes@.len() as int),
    )
}

/// The files of the given documents, in order.
fn files_of_roots(store: &NodeStore, roots: &Vec<NodeId>) -> (r: Vec<String>)
    ensures
        text::texts(r@) == files_among(*store, roots@),
{
    let mut out: Vec<String> = Vec::new();
    let mut i: usize = 0;
    proof {
        assert(roots@.take(0) =~= seq![]);
        assert(text::texts(out@) =~= seq![]);
    }
    while i < roots.len()
        invariant
            i <= roots.len(),
            text::texts(out@) == files_among(*store, roots@.take(i as int)),
        decreases roots.len() - i,
    {
        proof {
            assert(roots@.take(i + 1).drop_last() =~= roots@.take(i as int));
            assert(roots@.take(i + 1).last() == roots@[i as int]);
        }
        if let Some(file) = find_attr_text(store, roots[i], "file") {
            if !file.as_str().is_empty() {
                let ghost before = out@;
                let ghost name = file@;
                out.push(file);
                proof {
                    assert(text::texts(out@) =~= text::texts(before).push(name));
                }
            }
        }
        i += 1;
    }
    proof {
        assert(roots@.take(i as int) =~= roots@);
    }
    out
}

/// What becomes of the state once a program was run that changes nodes: the
/// documents that the nodes belong to are changed since they were saved, and their
/// pages are rendered; a program that touched no document with a file changes
/// nothing.
pub open spec fn program_ran(
    before: Conductor,
    purpose: NedPurpose,
    store: NodeStore,
    outcome: NedOutcome,
    after: Conductor,
    r: Step,
) -> bool {
    match outcome {
        NedOutcome::InitFailed(e) => after == (Conductor { store, ..before }) && failure_follows(
            purpose,
            "evaluator init: "@ + e@,
            r,
        ),
        NedOutcome::EvalFailed(e) => after == (Conductor { store, ..before }) && failure_follows(
            purpose,
            "eval error: "@ + e@,
            r,
        ),
        NedOutcome::NotSelection => after == (Conductor { store, ..before }) && applied_follows(
            purpose,
            seq![],
            seq![],
            0,
            r,
        ),
        NedOutcome::Selected(nodes) => {
            let files = files_of_selection(store, nodes@);
            &&& after.dirty_docs@ == with_dirty(before.dirty_docs@, files)
            &&& after == (Conductor { store, dirty_docs: after.dirty_docs, ..before })
            &&& if files.len() == 0 {
                applied_follows(purpose, seq![], seq![], 0, r)
            } else {
                &&& r matches Step::RenderPages(task)
                &&& rebuild::job_views(task.jobs@) == rebuild::jobs_for(after, paths_of(files))
                &&& task.next matches AfterRender::Applied { plans, purpose: p, dirty }
                &&& rebuild::plan_views(plans@) == rebuild::plans_for(after, paths_of(files))
                &&& p == purpose
                &&& dirty == files.len()
            }
        },
    }
}

/// Why a suggestion cannot be made for a selection: the first node of it that lies
/// in a slot lies in one that holds no text.
pub open spec fn slot_objection(store: NodeStore, nodes: Seq<NodeId>) -> Option<Seq<char>>
    decreases nodes.len(),
{
    if nodes.len() == 0 {
        None
    } else {
        let slots = node_store::nearest_above(
            store,
            seq![nodes[0]],
            "slot"@,
            store.nodes@.len() as int,
        );
        if slots.len() == 0 {
            slot_objection(store, nodes.skip(1))
        } else if node_store::shape_of(store, slots[0]) == SlotShape::NonText {
            let name = match node_store::attr_text(store, slots[0], "name"@) {
                Some(name) => name,
                None => ""@,
            };
            Some("non-text slot '"@ + name + "': structured mutation unsupported"@)
        } else {
            None
        }
    }
}

/// Why a suggestion cannot be made for what a selection came to, if it cannot.
pub open spec fn selection_error(store: NodeStore, outcome: NedOutcome) -> Option<Seq<char>> {
    match outcome {
        NedOutcome::InitFailed(e) => Some("selection failed to evaluate: "@ + e@),
        NedOutcome::EvalFailed(e) => Some("selection failed to evaluate: "@ + e@),
        NedOutcome::NotSelection => Some("selection did not produce a node selection"@),
        NedOutcome::Selected(nodes) => if nodes@.len() == 0 {
            Some("selection resolves to no nodes"@)
        } else {
            slot_objection(store, nodes@)
        },
    }
}

/// Why a suggestion can no longer be applied to what its selection comes to, if it
/// cannot.
pub open spec fn staleness(mutation: NedMutation, outcome: NedOutcome) -> Option<Seq<char>> {
    match outcome {
        NedOutcome::InitFailed(e) => Some("selection failed to evaluate: "@ + e@),
        NedOutcome::EvalFailed(e) => Some("selection failed to evaluate: "@ + e@),
        NedOutcome::NotSelection => Some("selection did not produce a node selection"@),
        NedOutcome::Selected(nodes) => if nodes@.len() == 0 {
            Some("selection no longer resolves to any node"@)
        } else if mutation.is_single() && nodes@.len() > 1 {
            Some(
                "selection resolved to "@ + decimal::digits(nodes@.len()) + " nodes, expected 1"@,
            )
        } else {
            None
        },
    }
}

/// Why a suggestion cannot be made for what a selection came to, if it cannot.
///
/// Rejected are selections that cannot be evaluated, that select no nodes, and
/// those whose first node in a slot lies in one that holds no text. Nodes of a
/// body, and slots with text, are allowed.
pub fn classify_selection_for_creation(store: &NodeStore, outcome: &NedOutcome) -> (r: Option<
    String,
>)
    ensures
        text::opt_text(r) == selection_error(*store, *outcome),
{
    match outcome {
        NedOutcome::InitFailed(e) => Some(together("selection failed to evaluate: ", e.as_str())),
        NedOutcome::EvalFailed(e) => Some(together("selection failed to evaluate: ", e.as_str())),
        NedOutcome::NotSelection => Some("selection did not produce a node selection".to_owned()),
        NedOutcome::Selected(nodes) => {
            if nodes.len() == 0 {
                return Some("selection resolves to no nodes".to_owned());
            }
            let mut i: usize = 0;
            proof {
                assert(nodes@.skip(0) =~= nodes@);
            }
            while i < nodes.len()
                invariant
                    i <= nodes.len(),
                    *outcome == NedOutcome::Selected(*nodes),
                    nodes@.len() > 0,
                    slot_objection(*store, nodes@.skip(i as int)) == slot_objection(
                        *store,
                        nodes@,
                    ),
                decreases nodes.len() - i,
            {
                proof {
                    assert(nodes@.skip(i as int)[0] == nodes@[i as int]);
                    assert(nodes@.skip(i as int).skip(1) =~= nodes@.skip(i + 1));
                }
                let mut one: Vec<NodeId> = Vec::new();
                one.push(nodes[i]);
                proof {
                    assert(one@ =~= seq![nodes@[i as int]]);
                }
                let slots = nearest_named(store, &one, "slot");
                if slots.len() > 0 {
                    if slot_shape_for_node(store, slots[0]) == SlotShape::NonText {
                        let name = match find_attr_text(store, slots[0], "name") {
                            Some(name) => name,
                            None => "".to_owned(),
                        };
                        return Some(
                            all_together(
                                "non-text slot '",
                                name.as_str(),
                                "': structured mutation unsupported",
                            ),
                        );
                    }
                    return None;
                }
                i += 1;
            }
            None
        },
    }
}

/// Why a suggestion can no longer be applied to what its selection comes to, if it
/// cannot.
pub fn find_staleness(mutation: &NedMutation, outcome: &NedOutcome) -> (r: Option<String>)
    ensures
        text::opt_text(r) == staleness(*mutation, *outcome),
{
    match outcome {
        NedOutcome::InitFailed(e) => Some(together("selection failed to evaluate: ", e.as_str())),
        NedOutcome::EvalFailed(e) => Some(together("selection failed to evaluate: ", e.as_str())),
        NedOutcome::NotSelection => Some("selection did not produce a node selection".to_owned()),
        NedOutcome::Selected(nodes) => {
            if nodes.len() == 0 {
                Some("selection no longer resolves to any node".to_owned())
            } else if mutation.is_single_target() && nodes.len() > 1 {
                let count = usize_text(nodes.len());
                Some(
                    all_together(
                        "selection resolved to ",
                        count.as_str(),
                        " nodes, expected 1",
                    ),
                )
            } else {
                None
            }
        },
    }
}

/// What follows once a program was run.
pub open spec fn is_evaluated(
    before: Conductor,
    next: AfterEvaluate,
    store: NodeStore,
    outcome: NedOutcome,
    after: Conductor,
    r: Step,
) -> bool {
    match next {
        AfterEvaluate::Apply(purpose) => program_ran(before, purpose, store, outcome, after, r),
        AfterEvaluate::Check(draft) => {
            &&& after == (Conductor { store, ..before })
            &&& match selection_error(store, outcome) {
                Some(message) => r.fails(message),
                None => r == Step::StampNed(draft),
            }
        },
        AfterEvaluate::Accept(suggestion) => {
            &&& after == (Conductor { store, ..before })
            &&& match staleness(suggestion.mutation, outcome) {
                Some(reason) => goes_stale(suggestion, reason, r),
                None => r == Step::Compose(suggestion),
            }
        },
    }
}

/// What becomes of the state once a slot was given another value by way of its
/// grammar: the document was changed since it was saved, and its page is rendered.
pub open spec fn is_modified(
    before: Conductor,
    file: Seq<char>,
    consumer: SlotConsumer,
    result: Result<NodeStore, String>,
    after: Conductor,
    r: Step,
) -> bool {
    match result {
        Err(message) => after == before && edit_follows(consumer, Err(message@), r),
        Ok(store) => {
            let paths = seq![path::components_of(file)];
            &&& after.dirty_docs@ == dirty::marked(before.dirty_docs@, file)
            &&& after == (Conductor { store, dirty_docs: after.dirty_docs, ..before })
            &&& r matches Step::RenderPages(task)
            &&& rebuild::job_views(task.jobs@) == rebuild::jobs_for(after, paths)
            &&& task.next matches AfterRender::Slot { plans, consumer: c }
            &&& rebuild::plan_views(plans@) == rebuild::plans_for(after, paths)
            &&& c == consumer
        },
    }
}

impl Conductor {
    /// A program was run, and left the store as given.
    pub fn on_evaluated(&mut self, next: AfterEvaluate, store: NodeStore, outcome: NedOutcome) -> (r:
        Step)
        ensures
            is_evaluated(*old(self), next, store, outcome, *final(self), r),
    {
        self.store = store;
        match next {
            AfterEvaluate::Apply(purpose) => self.apply_ned_program(purpose, outcome),
            AfterEvaluate::Check(draft) => match classify_selection_for_creation(
                &self.store,
                &outcome,
            ) {
                Some(message) => Step::Done(CommandResult::error(message)),
                None => Step::StampNed(draft),
            },
            AfterEvaluate::Accept(suggestion) => match find_staleness(
                &suggestion.mutation,
                &outcome,
            ) {
                Some(reason) => mark_stale(suggestion, reason),
                None => Step::Compose(suggestion),
            },
        }
    }

    /// Go on once a program was run that changes nodes: mark the documents that
    /// the nodes belong to, and render their pages.
    pub fn apply_ned_program(&mut self, purpose: NedPurpose, outcome: NedOutcome) -> (r: Step)
        ensures
            program_ran(*old(self), purpose, old(self).store, outcome, *final(self), r),
    {
        let none: Vec<String> = Vec::new();
        let no_failed: Vec<String> = Vec::new();
        proof {
            assert(text::texts(Seq::<String>::empty()) =~= seq![]);
        }
        match outcome {
            NedOutcome::InitFailed(e) => fail_program(
                purpose,
                together("evaluator init: ", e.as_str()),
            ),
            NedOutcome::EvalFailed(e) => fail_program(purpose, together("eval error: ", e.as_str())),
            NedOutcome::NotSelection => finish_program(purpose, none, no_failed, 0),
            NedOutcome::Selected(nodes) => {
                let roots = source_docs_of(&self.store, &nodes);
                let files = files_of_roots(&self.store, &roots);
                let ghost names = text::texts(files@);
                let mut paths: Vec<SitePath> = Vec::new();
                let mut i: usize = 0;
                proof {
                    assert(names.take(0) =~= seq![]);
                    assert(names.len() == files@.len());
                }
                while i < files.len()
                    invariant
                        i <= files.len(),
                        names == text::texts(files@),
                        paths@.len() == i,
                        forall|k: int|
                            0 <= k < i ==> (#[trigger] paths@[k])@ == path::components_of(names[k]),
                        self.dirty_docs@ == with_dirty(
                            old(self).dirty_docs@,
                            names.take(i as int),
                        ),
                        *self == (Conductor { dirty_docs: self.dirty_docs, ..*old(self) }),
                    decreases files.len() - i,
                {
                    proof {
                        assert(names.take(i + 1).drop_last() =~= names.take(i as int));
                        assert(names.take(i + 1).last() == files@[i as int]@);
                    }
                    self.dirty_docs.mark(files[i].as_str());
                    paths.push(SitePath::new(files[i].as_str()));
                    i += 1;
                }
                proof {
                    assert(names.take(i as int) =~= names);
                    assert(path::path_views(paths@) =~= paths_of(names));
                }
                if files.len() == 0 {
                    return finish_program(purpose, none, no_failed, 0);
                }
                let (plans, jobs) = self.plan_pages(&paths);
                Step::RenderPages(
                    RenderTask {
                        jobs,
                        next: AfterRender::Applied { plans, purpose, dirty: files.len() },
                    },
                )
            },
        }
    }

    /// A slot was given another value by way of its grammar, or could not be.
    pub fn on_modified(
        &mut self,
        file: &str,
        consumer: SlotConsumer,
        result: Result<NodeStore, String>,
    ) -> (r: Step)
        ensures
            is_modified(*old(self), file@, consumer, result, *final(self), r),
    {
        match result {
            Err(message) => finish_slot_edit(consumer, Err(message)),
            Ok(store) => {
                self.store = store;
                self.dirty_docs.mark(file);
                let mut paths: Vec<SitePath> = Vec::new();
                paths.push(SitePath::new(file));
                proof {
                    assert(path::path_views(paths@) =~= seq![path::components_of(file@)]);
                }
                let (plans, jobs) = self.plan_pages(&paths);
                Step::RenderPages(RenderTask { jobs, next: AfterRender::Slot { plans, consumer } })
            },
        }
    }

    /// A selection and a change were put together to a program, or could not be.
    pub fn on_composed(&self, suggestion: NedSuggestion, program: Result<String, String>) -> (r: Step)
        ensures
            match program {
                Ok(p) => r == (Step::Evaluate {
                    program: p,
                    next: AfterEvaluate::Apply(NedPurpose::Accept(suggestion)),
                }),
                Err(message) => goes_stale(suggestion, message@, r),
            },
    {
        match program {
            Ok(program) => Step::Evaluate {
                program,
                next: AfterEvaluate::Apply(NedPurpose::Accept(suggestion)),
            },
            Err(message) => mark_stale(suggestion, message),
        }
    }

    /// Pages were rendered, which left the store as given.
    pub fn on_rendered(&mut self, task: RenderTask, store: NodeStore, outcomes: &Vec<RenderOutcome>) -> (r:
        Step)
        ensures
            is_rendered(*old(self), task, store, outcomes@, *final(self), r),
    {
        match task.next {
            AfterRender::Startup => {
                self.store = store;
                Step::Done(CommandResult::ok())
            },
            AfterRender::All { stylesheet } => self.on_site_rendered(
                &task.jobs,
                stylesheet,
                store,
                outcomes,
            ),
            AfterRender::Page(goal) => self.on_page_rendered(task.jobs, goal, store, outcomes),
            AfterRender::Slot { plans, consumer } => {
                self.store = store;
                let (rebuilt, _) = settle_plans(&plans, outcomes);
                finish_slot_edit(consumer, Ok(rebuilt))
            },
            AfterRender::Applied { plans, purpose, dirty } => {
                self.store = store;
                let (rebuilt, failed) = settle_plans(&plans, outcomes);
                finish_program(purpose, rebuilt, failed, dirty)
            },
        }
    }
}

/// What follows once pages were rendered.
pub open spec fn is_rendered(
    before: Conductor,
    task: RenderTask,
    store: NodeStore,
    outcomes: Seq<RenderOutcome>,
    after: Conductor,
    r: Step,
) -> bool {
    match task.next {
        AfterRender::Startup => after == (Conductor { store, ..before }) && r.is_ok(),
        AfterRender::All { stylesheet } => loading::is_site_built(
            before,
            rebuild::job_views(task.jobs@),
            stylesheet,
            store,
            outcomes,
            after,
            r,
        ),
        AfterRender::Page(goal) => pages::is_settled(
            (Conductor { store, ..before }),
            goal,
            if task.jobs@.len() > 0 {
                Some(task.jobs@[0].url@)
            } else {
                None
            },
            if task.jobs@.len() > 0 && outcomes.len() > 0 {
                rebuild::render_error(task.jobs@[0].stem@, outcomes[0])
            } else {
                Some("nothing was rendered"@)
            },
            after,
            r,
        ),
        AfterRender::Slot { plans, consumer } => {
            &&& after == (Conductor { store, ..before })
            &&& edit_follows(
                consumer,
                Ok(
                    rebuild::rebuilt_pages(
                        rebuild::plan_views(plans@),
                        outcomes,
                        plans@.len() as int,
                    ),
                ),
                r,
            )
        },
        AfterRender::Applied { plans, purpose, dirty } => {
            &&& after == (Conductor { store, ..before })
            &&& applied_follows(
                purpose,
                rebuild::rebuilt_pages(
                    rebuild::plan_views(plans@),
                    outcomes,
                    plans@.len() as int,
                ),
                rebuild::failed_pages(
                    rebuild::plan_views(plans@),
                    outcomes,
                    plans@.len() as int,
                ),
                dirty,
                r,
            )
        },
    }
}

/// Every file that is marked counts as changed, and what counted so before still
/// does.
proof fn lemma_with_dirty(
    dirty: Map<Seq<Seq<char>>, Seq<char>>,
    files: Seq<Seq<char>>,
    p: Seq<Seq<char>>,
)
    ensures
        with_dirty(dirty, files).contains_key(p) <==> dirty.contains_key(p) || paths_of(
            files,
        ).contains(p),
        dirty.contains_key(p) ==> with_dirty(dirty, files)[p] == dirty[p],
    decreases files.len(),
{
    let all = paths_of(files);
    if files.len() > 0 {
        let front = files.drop_last();
        lemma_with_dirty(dirty, front, p);
        let rest = paths_of(front);
        if rest.contains(p) {
            let i = choose|i: int| 0 <= i < rest.len() && rest[i] == p;
            assert(all[i] == p);
        }
        if all.contains(p) {
            let i = choose|i: int| 0 <= i < all.len() && all[i] == p;
            if i < rest.len() {
                assert(rest[i] == p);
            }
        }
        assert(all[files.len() - 1] == path::components_of(files.last()));
    }
}

/// After a program that changes nodes, exactly the documents that its selection lies
/// in count as changed, besides those that did before.
pub proof fn law_program_marks_its_documents(
    before: Conductor,
    purpose: NedPurpose,
    store: NodeStore,
    nodes: Vec<NodeId>,
    after: Conductor,
    r: Step,
    p: Seq<Seq<char>>,
)
    requires
        is_evaluated(
            before,
            AfterEvaluate::Apply(purpose),
            store,
            NedOutcome::Selected(nodes),
            after,
            r,
        ),
    ensures
        after.dirty_docs@.contains_key(p) <==> before.dirty_docs@.contains_key(p) || paths_of(
            files_of_selection(store, nodes@),
        ).contains(p),
{
    lemma_with_dirty(before.dirty_docs@, files_of_selection(store, nodes@), p);
}

/// Neither an edit nor a program, nor what follows it, leads to a source file being
/// written: that is left to saving.
pub proof fn law_editing_writes_no_source(
    before: Conductor,
    after: Conductor,
    r: Step,
    next: AfterEvaluate,
    store: NodeStore,
    outcome: NedOutcome,
    file: Seq<char>,
    consumer: SlotConsumer,
    result: Result<NodeStore, String>,
    task: RenderTask,
    outcomes: Seq<RenderOutcome>,
)
    ensures
        is_evaluated(before, next, store, outcome, after, r) ==> !(r is Write),
        is_modified(before, file, consumer, result, after, r) ==> !(r is Write),
        is_rendered(before, task, store, outcomes, after, r) ==> !(r is Write),
{
}

/// However an edit or a program turns out, no text of an editor, no suggestion and no
/// changed document is lost.
pub proof fn law_editing_keeps_texts(
    before: Conductor,
    after: Conductor,
    r: Step,
    next: AfterEvaluate,
    store: NodeStore,
    outcome: NedOutcome,
    file: Seq<char>,
    consumer: SlotConsumer,
    result: Result<NodeStore, String>,
)
    requires
        is_evaluated(before, next, store, outcome, after, r) || is_modified(
            before,
            file,
            consumer,
            result,
            after,
            r,
        ),
    ensures
        after.doc_sources == before.doc_sources,
        after.suggestions == before.suggestions,
        after.ned_suggestions == before.ned_suggestions,
        before.dirty_docs@.submap_of(after.dirty_docs@),
{
    if is_evaluated(before, next, store, outcome, after, r) {
        if let NedOutcome::Selected(nodes) = outcome {
            assert forall|p: Seq<Seq<char>>| before.dirty_docs@.contains_key(p) implies #[trigger]
                after.dirty_docs@.contains_key(p) && after.dirty_docs@[p] == before.dirty_docs@[p] by {
                lemma_with_dirty(before.dirty_docs@, files_of_selection(store, nodes@), p);
            }
        }
    }
}

/// A content file goes by the schema of the page that it is the file of.
pub proof fn law_schema_of_a_content_file(stem: Seq<char>, slug: Seq<char>)
    requires
        site::is_plain_name(stem),
        site::is_plain_name(slug),
        stem != "."@,
    ensures
        file_stem_of(site::page_file(stem, slug)) == Some(stem),
        file_key(site::page_file(stem, slug)) == Some(site::schema_key(stem, slug)),
        file_stem_of(site::page_file(seq![], slug)) == Some(Seq::<char>::empty()),
        file_key(site::page_file(seq![], slug)) == Some(site::schema_key(seq![], slug)),
{
    site::law_page_file_reads_back(stem, slug);
}

/// A file can be edited if and only if the schema that it goes by can be read.
pub proof fn law_files_are_edited_by_their_grammar(c: Conductor, file: Seq<char>)
    ensures
        grammar_error(c, file) is None <==> file_key(file) is Some && conductor::grammar_of(
            c.schemas@,
            file_key(file)->0,
        ) is Some,
{
}

/// A slot that holds a single text is edited by a program; another slot is given the value
/// itself. Without a document there is nothing to edit.
pub proof fn law_ways_to_edit_a_slot(
    c: Conductor,
    file: Seq<char>,
    slot: Seq<char>,
    value: Seq<char>,
    r: Step,
)
    requires
        starts_slot_edit(c, file, slot, value, SlotConsumer::Edit, r),
    ensures
        match table::found(c.path_to_doc_root@, path::components_of(file)) {
            None => r is Done,
            Some(root) => match node_store::document_slot_shape(c.store, root, slot) {
                SlotShape::SingleText => r matches Step::Evaluate { program, .. } && program@
                    == anchor::slot_program(file, slot, value),
                _ => if grammar_error(c, file) is None {
                    r matches Step::ModifySlot { root: at, slot: s, value: v, .. } && at == root
                        && s@ == slot && v@ == value
                } else {
                    r is Done
                },
            },
        },
{
}

/// An element of the body is replaced where there is one at the index, and the first is
/// inserted into an empty body; an index behind the last element is refused.
pub proof fn law_ways_to_edit_a_body(
    c: Conductor,
    file: Seq<char>,
    index: usize,
    content: Seq<char>,
    root: NodeId,
    key: Seq<char>,
    schema: Seq<char>,
    r: Step,
)
    requires
        starts_body_edit(c, file, index, content, r),
        file_key(file) == Some(key),
        conductor::source_of(c.schemas@, key) == Some(schema),
        table::found(c.path_to_doc_root@, path::components_of(file)) == Some(root),
    ensures
        index < node_store::body_length(c.store, root) ==> (r matches Step::Evaluate { program, .. }
            && program@ == anchor::body_program(schema, file, index as nat, content)),
        node_store::body_length(c.store, root) == 0 ==> (r matches Step::Evaluate { program, .. }
            && program@ == anchor::first_body_program(schema, file, content)),
        0 < node_store::body_length(c.store, root) <= index ==> r is Done,
{
}

/// A suggestion is stale if and only if its selection cannot be evaluated, selects
/// nothing, or selects several nodes where it was made for one.
pub proof fn law_stale_selections(mutation: NedMutation, outcome: NedOutcome)
    ensures
        staleness(mutation, outcome) is None <==> outcome is Selected && outcome->Selected_0@.len()
            > 0 && (outcome->Selected_0@.len() == 1 || mutation is Other),
{
}

/// The files of documents are those of the first and then those of the others.
pub proof fn law_files_keep_the_order_of_documents(
    store: NodeStore,
    a: Seq<NodeId>,
    b: Seq<NodeId>,
)
    ensures
        files_among(store, a + b) == files_among(store, a) + files_among(store, b),
    decreases b.len(),
{
    if b.len() == 0 {
        assert(a + b =~= a);
        assert(files_among(store, a) + files_among(store, b) =~= files_among(store, a));
    } else {
        law_files_keep_the_order_of_documents(store, a, b.drop_last());
        assert((a + b).drop_last() =~= a + b.drop_last());
        assert((a + b).last() == b.last());
        assert(files_among(store, a + b) =~= files_among(store, a) + files_among(store, b));
    }
}

/// The file of one document is what its attribute says, where that is not empty.
pub proof fn law_file_of_one_document(store: NodeStore, root: NodeId, file: Seq<char>)
    ensures
        node_store::attr_text(store, root, "file"@) == Some(file) && file.len() > 0 ==> files_among(
            store,
            seq![root],
        ) == seq![file],
        node_store::attr_text(store, root, "file"@) is None ==> files_among(
            store,
            seq![root],
        ).len() == 0,
{
    let one = seq![root];
    assert(one.drop_last() =~= seq![]);
    assert(files_among(store, one.drop_last()) =~= seq![]);
    if node_store::attr_text(store, root, "file"@) == Some(file) && file.len() > 0 {
        assert(files_among(store, one) =~= seq![file]);
    }
}

/// A selection can be suggested on if and only if it can be evaluated, selects something,
/// and the first slot that it touches does not hold a single element without text.
pub proof fn law_selections_to_suggest_on(store: NodeStore, outcome: NedOutcome, k: int)
    requires
        outcome is Selected,
        0 <= k < outcome->Selected_0@.len(),
        forall|j: int|
            0 <= j < k ==> node_store::nearest_above(
                store,
                seq![#[trigger] outcome->Selected_0@[j]],
                "slot"@,
                store.nodes@.len() as int,
            ).len() == 0,
        node_store::nearest_above(
            store,
            seq![outcome->Selected_0@[k]],
            "slot"@,
            store.nodes@.len() as int,
        ).len() > 0,
    ensures
        selection_error(store, outcome) is Some <==> node_store::shape_of(
            store,
            node_store::nearest_above(
                store,
                seq![outcome->Selected_0@[k]],
                "slot"@,
                store.nodes@.len() as int,
            )[0],
        ) == SlotShape::NonText,
{
    lemma_first_objection(store, outcome->Selected_0@, k);
}

/// Nodes that touch no slot are passed over.
proof fn lemma_first_objection(store: NodeStore, nodes: Seq<NodeId>, k: int)
    requires
        0 <= k < nodes.len(),
        forall|j: int|
            0 <= j < k ==> node_store::nearest_above(
                store,
                seq![#[trigger] nodes[j]],
                "slot"@,
                store.nodes@.len() as int,
            ).len() == 0,
        node_store::nearest_above(store, seq![nodes[k]], "slot"@, store.nodes@.len() as int).len()
            > 0,
    ensures
        slot_objection(store, nodes) is Some <==> node_store::shape_of(
            store,
            node_store::nearest_above(
                store,
                seq![nodes[k]],
                "slot"@,
                store.nodes@.len() as int,
            )[0],
        ) == SlotShape::NonText,
    decreases k,
{
    if k > 0 {
        let rest = nodes.skip(1);
        assert(node_store::nearest_above(
            store,
            seq![nodes[0]],
            "slot"@,
            store.nodes@.len() as int,
        ).len() == 0);
        assert forall|j: int| 0 <= j < k - 1 implies node_store::nearest_above(
            store,
            seq![#[trigger] rest[j]],
            "slot"@,
            store.nodes@.len() as int,
        ).len() == 0 by {
            assert(rest[j] == nodes[j + 1]);
        }
        assert(rest[k - 1] == nodes[k]);
        lemma_first_objection(store, rest, k - 1);
    }
}

/// A program that fails changes no document, and its failure is told: to an edit and to a
/// program as an error, to a suggestion by making it stale.
pub proof fn law_failed_programs(
    before: Conductor,
    purpose: NedPurpose,
    store: NodeStore,
    message: String,
    after: Conductor,
    r: Step,
)
    requires
        program_ran(before, purpose, store, NedOutcome::EvalFailed(message), after, r),
    ensures
        after.dirty_docs == before.dirty_docs,
        after.doc_sources == before.doc_sources,
        purpose is Program || purpose is Body || purpose == NedPurpose::Slot(SlotConsumer::Edit)
            ==> r is Done && r->Done_0.response is Error && r->Done_0.response->Error_0@
            == "eval error: "@ + message@,
        purpose is Accept ==> r is PersistNed && r->PersistNed_0.suggestion.status is Stale,
{
}

/// Once a changed page was rendered, it is told that it was rebuilt, where it was written,
/// and that it failed, where it was not.
pub proof fn law_what_follows_a_rendered_page(
    before: Conductor,
    task: RenderTask,
    store: NodeStore,
    outcomes: Seq<RenderOutcome>,
    after: Conductor,
    r: Step,
)
    requires
        is_rendered(before, task, store, outcomes, after, r),
        task.jobs@.len() > 0,
        outcomes.len() > 0,
        task.next is Page,
        task.next->Page_0 is Changed,
    ensures
        outcomes[0] is Written ==> r.tells_rebuilt(seq![task.jobs@[0].url@], None),
        !(outcomes[0] is Written) ==> r.tells_failed(seq![task.jobs@[0].url@]),
{
}

/// Once the pages of an edited slot were rendered, it is told which were rebuilt.
pub proof fn law_what_follows_an_edited_slot(
    before: Conductor,
    task: RenderTask,
    store: NodeStore,
    outcomes: Seq<RenderOutcome>,
    after: Conductor,
    r: Step,
)
    requires
        is_rendered(before, task, store, outcomes, after, r),
        task.next is Slot,
        task.next->consumer is Edit,
    ensures
        after.store == store,
        after.dirty_docs == before.dirty_docs,
        r.tells_rebuilt(
            rebuild::rebuilt_pages(
                rebuild::plan_views(task.next->Slot_plans@),
                outcomes,
                task.next->Slot_plans@.len() as int,
            ),
            None,
        ),
{
}

} // verus!
