//! The steps that a command is carried out in.
//!
//! The conductor decides; what it cannot do itself (files, clocks, templates,
//! programs) it asks for. A [`Step`] is either the result of a command or such a
//! request, together with what the conductor has to know when the answer comes.

use vstd::prelude::*;

use crate::dep_graph::DependencyGraph;
use crate::document::Document;
use crate::editorial::{Author, ContentPath, NedMutation, NedSuggestion, Suggestion};
use crate::node_store::NodeId;
use crate::path::SitePath;
use crate::populate::{PlannedDocument, StemContents, StemSchemas};
use crate::protocol::{CommandResult, FileClassification, Response};
use crate::rebuild::{DocumentMeta, PageJob, PagePlan};
use crate::schema::SlotName;
use crate::site::TemplateSource;
use crate::text;

verus! {

/// How a slot is to be changed.
#[derive(Debug)]
pub enum SlotChange {
    /// It gets another value.
    Value(String),
    /// It gets another passage.
    Passage { search: String, replace: String },
}

/// A suggestion for a slot that is being made.
#[derive(Debug)]
pub struct SlotDraft {
    pub file: ContentPath,
    pub slot: SlotName,
    pub change: SlotChange,
    pub reason: String,
    pub author: Author,
}

/// A suggestion for a passage of the text that is being made.
#[derive(Debug)]
pub struct BodyDraft {
    pub file: ContentPath,
    pub search: String,
    pub replace: String,
    pub reason: String,
    pub author: Author,
}

/// A suggestion that is being made.
#[derive(Debug)]
pub enum Draft {
    Slot(SlotDraft),
    Body(BodyDraft),
}

/// A suggestion, written as a program, that is being made.
#[derive(Debug)]
pub struct NedDraft {
    pub file: String,
    pub selection: String,
    pub mutation: NedMutation,
    pub reason: String,
    pub author: Author,
}

/// What the text of a file is read for.
#[derive(Debug)]
pub enum AfterText {
    /// To be shown.
    Show,
    /// To find the element under the cursor.
    Cursor { path: String, line: u32 },
    /// To make a suggestion for it.
    Suggest(Draft),
    /// To accept the suggestion for it.
    Accept(Suggestion),
}

/// What the value of a slot is read for.
#[derive(Debug)]
pub enum AfterSlot {
    /// To make a suggestion for it.
    Suggest(SlotDraft),
    /// To accept the suggestion for it.
    Accept(Suggestion),
}

/// A file of which the page is to be rebuilt, once new content was created. One
/// that was not created itself need not be there.
#[derive(Debug, PartialEq, Eq)]
pub struct Target {
    pub path: String,
    pub must_exist: bool,
}

/// New content of which the pages are being rebuilt.
#[derive(Debug)]
pub struct Creation {
    pub url: String,
    /// The pages that were rebuilt.
    pub rebuilt: Vec<String>,
    /// The files whose pages are still to be rebuilt.
    pub rest: Vec<Target>,
}

/// Why the page of a file is rebuilt.
#[derive(Debug)]
pub enum Goal {
    /// Its text was changed in an editor.
    Changed,
    /// New content was created.
    Created(Creation),
}

/// A file whose page is to be rebuilt from a text.
#[derive(Debug)]
pub struct RebuildTask {
    pub path: String,
    pub text: String,
    pub goal: Goal,
}

/// What the role of a file is asked for.
#[derive(Debug)]
pub enum AfterKind {
    /// To be shown.
    Show,
    /// To rebuild its page.
    Rebuild(RebuildTask),
}

/// A document that is put into the store.
#[derive(Debug)]
pub struct Ingest {
    pub meta: DocumentMeta,
    pub grammar_key: String,
    pub goal: Goal,
}

/// What follows the edit of a slot.
#[derive(Debug)]
pub enum SlotConsumer {
    /// The pages are told.
    Edit,
    /// The suggestion that asked for it is accepted.
    Accept(Suggestion),
}

/// What a program is run for.
#[derive(Debug)]
pub enum NedPurpose {
    /// A client asked for it.
    Program,
    /// It edits a slot.
    Slot(SlotConsumer),
    /// It edits an element of a body.
    Body { index: usize },
    /// A suggestion that is written as a program is accepted.
    Accept(NedSuggestion),
}

/// What the result of a program is used for.
#[derive(Debug)]
pub enum AfterEvaluate {
    /// The program changed the nodes that it selects.
    Apply(NedPurpose),
    /// The program is the selection of a suggestion that is being made.
    Check(NedDraft),
    /// The program is the selection of a suggestion that is accepted.
    Accept(NedSuggestion),
}

/// What came of a program.
#[derive(Debug, PartialEq, Eq)]
pub enum NedOutcome {
    /// There is nothing to run it with.
    InitFailed(String),
    /// It could not be run.
    EvalFailed(String),
    /// It ran, and gave no selection of nodes.
    NotSelection,
    /// It ran, and selected nodes.
    Selected(Vec<NodeId>),
}

/// What follows once pages were rendered.
#[derive(Debug)]
pub enum AfterRender {
    /// The site was loaded for the first time.
    Startup,
    /// Pages of the site were built again, because its files were changed.
    All { stylesheet: bool },
    /// The page of one file was rebuilt.
    Page(Goal),
    /// The pages of changed documents were rebuilt, after the edit of a slot.
    Slot { plans: Vec<PagePlan>, consumer: SlotConsumer },
    /// The pages of changed documents were rebuilt, after a program.
    Applied { plans: Vec<PagePlan>, purpose: NedPurpose, dirty: usize },
}

/// Pages that are to be rendered.
#[derive(Debug)]
pub struct RenderTask {
    pub jobs: Vec<PageJob>,
    pub next: AfterRender,
}

/// Why the site is loaded.
#[derive(Debug)]
pub enum LoadGoal {
    /// For the first time.
    Startup,
    /// It was filled anew: all pages are rendered.
    Refresh,
    /// The given files were changed: the pages that depend on them are rendered.
    Changed { files: Vec<String> },
    /// New content was created in the given file.
    Created { path: String, url: String, stem: String },
}

/// What was found when the site was loaded.
#[derive(Debug)]
pub struct SiteContents {
    pub schemas: Vec<StemSchemas>,
    pub contents: Vec<StemContents>,
    /// Whether there is a template for the root of the site.
    pub has_root_template: bool,
    /// The roles of the files that were asked for.
    pub kinds: Vec<FileClassification>,
    /// The files that each page is built from. A page goes by its URL.
    pub dependencies: DependencyGraph,
}

/// Documents that are to be put into a new store, and the order in which it is
/// worked out what is shown of them.
#[derive(Debug)]
pub struct PopulateTask {
    pub documents: Vec<PlannedDocument>,
    pub order: Vec<usize>,
    pub has_root_template: bool,
    pub stylesheet: bool,
    /// The files that each page was built from before.
    pub earlier: DependencyGraph,
    pub goal: LoadGoal,
}

/// What a file is to hold.
#[derive(Debug, PartialEq, Eq)]
pub enum Contents {
    /// A document of the store, as text.
    Document(NodeId),
    Text(String),
}

/// A file that is to be written.
#[derive(Debug, PartialEq, Eq)]
pub struct FileWrite {
    pub path: String,
    pub contents: Contents,
}

/// What follows once files were written.
#[derive(Debug)]
pub enum AfterWrite {
    /// The document in the given file was saved.
    Document { path: String },
    /// The text of an editor was saved, in the given file.
    Buffer { path: String },
    /// Everything was saved: the first files are those of the given documents, the
    /// others hold the texts of editors.
    All { documents: Vec<SitePath>, buffers: Vec<SitePath> },
}

/// Files that are to be written, in order.
#[derive(Debug)]
pub struct WriteTask {
    pub files: Vec<FileWrite>,
    pub next: AfterWrite,
}

/// What became of files that were to be written: the first of them were, and have
/// the given modification times, where these are known; the next one could not be.
#[derive(Debug, PartialEq, Eq)]
pub struct WriteOutcome {
    pub times: Vec<Option<i128>>,
    pub now: u128,
    pub error: Option<String>,
}

/// What becomes of a suggestion once it was kept on disk.
#[derive(Debug)]
pub enum AfterPersist {
    Created,
    Accepted { pages: Vec<String> },
    Rejected,
}

/// A suggestion that is to be kept on disk.
#[derive(Debug)]
pub struct PersistTask {
    pub suggestion: Suggestion,
    pub next: AfterPersist,
}

/// What becomes of a suggestion that is written as a program once it was kept on
/// disk.
#[derive(Debug)]
pub enum AfterPersistNed {
    Created,
    Accepted { pages: Vec<String> },
    Rejected,
    Staled { reason: String },
}

/// A suggestion, written as a program, that is to be kept on disk.
#[derive(Debug)]
pub struct PersistNedTask {
    pub suggestion: NedSuggestion,
    pub next: AfterPersistNed,
}

/// A draft that only lacks its identity and its date.
#[derive(Debug)]
pub struct StampTask {
    pub draft: Draft,
    pub original_value: Option<String>,
}

/// A schema that is to be rendered.
#[derive(Debug, PartialEq, Eq)]
pub struct SchemaJob {
    pub url: String,
    pub stem: String,
    pub is_index: bool,
    pub grammar_key: String,
    /// Where the template is looked for, in order.
    pub templates: Vec<TemplateSource>,
}

/// What became of a schema that was to be rendered.
#[derive(Debug, PartialEq, Eq)]
pub enum SchemaOutcome {
    Rendered(String),
    NoTemplate,
    ParseFailed(String),
    RenderFailed(String),
}

/// What became of a new site.
#[derive(Debug, PartialEq, Eq)]
pub enum ScaffoldOutcome {
    /// There is no such starter template.
    UnknownTemplate,
    Failed(String),
    /// The given files were written and have the given modification times.
    Written { files: Vec<(String, i128)>, now: u128 },
}

/// The next step of a command: its result, or something to be done for it.
#[derive(Debug)]
pub enum Step {
    Done(CommandResult),
    /// Read a file.
    ReadFile { path: String, next: AfterText },
    /// See whether a file exists, and read it.
    Probe { target: Target, next: Creation },
    /// Find the role of a file.
    Classify { path: String, next: AfterKind },
    /// Read the modification times of files. Those that were named are kept.
    Stat { paths: Vec<String>, named: Vec<String> },
    /// See whether one of the files exists.
    Exists { paths: Vec<String> },
    /// Put a document into the store.
    StoreDocument { document: Document, next: Ingest },
    /// Work out what is shown of a document.
    LinkDocument { root: NodeId, next: Ingest },
    /// Render pages and write them.
    RenderPages(RenderTask),
    /// Load the site again, and find the roles of the given files.
    Reload { paths: Vec<String>, goal: LoadGoal },
    /// Put documents into a new store.
    Populate(PopulateTask),
    /// Run a program on the store.
    Evaluate { program: String, next: AfterEvaluate },
    /// Give a slot of a document another value.
    ModifySlot {
        root: NodeId,
        grammar_key: String,
        file: String,
        slot: String,
        value: String,
        next: SlotConsumer,
    },
    /// Read the value of a slot of a document.
    ReadSlot { document: Document, grammar_key: String, slot: String, next: AfterSlot },
    /// Make an identity, and read the clock.
    Stamp(StampTask),
    /// Make an identity, read the clock, and find the version of the site.
    StampNed(NedDraft),
    /// Put a selection and a change together to a program.
    Compose(NedSuggestion),
    /// Keep a suggestion on disk.
    Persist(PersistTask),
    /// Keep a suggestion that is written as a program on disk.
    PersistNed(PersistNedTask),
    /// Write files, in order, up to the first that cannot be written.
    Write(WriteTask),
    /// Create a content file.
    CreateContent { stem: String, slug: String },
    /// Fill a new site from a starter template.
    Scaffold {
        template_name: String,
        format: String,
        font_mood: String,
        seed_color: String,
        palette_type: String,
        complexity: String,
        theme: String,
    },
    /// Find the files that depend on a schema.
    Dependents { stem: String },
    /// Find the content files.
    ContentFiles,
    /// Read a page that was written.
    ReadOutput { url: String, stem: String, slug: String },
    /// Find out whether a URL is that of an index page.
    SchemaKind { url: String },
    /// Render the structure that a schema gives a page.
    RenderSchema(SchemaJob),
}

impl Step {
    /// Whether the command is done, with the given response and no event.
    pub open spec fn answers(self, response: Response) -> bool {
        self matches Step::Done(c) && c.just(response)
    }

    /// Whether the command is done, and all is well.
    pub open spec fn is_ok(self) -> bool {
        self.answers(Response::Done)
    }

    /// Whether the command failed with the given message.
    pub open spec fn fails(self, message: Seq<char>) -> bool {
        self matches Step::Done(c) && c.is_error(message)
    }

    /// Whether the command is done, and it is told that pages were rebuilt.
    pub open spec fn tells_rebuilt(self, pages: Seq<Seq<char>>, anchor: Option<Seq<char>>) -> bool {
        self matches Step::Done(c) && c.tells_rebuilt(pages, anchor)
    }

    /// Whether the command is done, and it is told that pages could not be built.
    pub open spec fn tells_failed(self, pages: Seq<Seq<char>>) -> bool {
        self matches Step::Done(c) && c.tells_failed(pages)
    }

    /// Whether the command is done, with the given optional text as its response.
    pub open spec fn answers_text(self, text: Option<Seq<char>>) -> bool {
        &&& self matches Step::Done(c)
        &&& c.events@.len() == 0
        &&& c.response matches Response::DocumentText(t)
        &&& text::opt_text(t) == text
    }
}

/// How a command ends: a failure is answered with its message, what is well with nothing
/// more, and pages that were rebuilt or failed are told in one event.
pub proof fn law_ends_of_commands(
    r: Step,
    message: Seq<char>,
    pages: Seq<Seq<char>>,
    anchor: Option<Seq<char>>,
)
    ensures
        r.fails(message) ==> r is Done && r->Done_0.response is Error
            && r->Done_0.response->Error_0@ == message && r->Done_0.events@.len() == 0,
        r.is_ok() ==> r is Done && r->Done_0.response is Done && r->Done_0.events@.len() == 0,
        r.tells_rebuilt(pages, anchor) ==> r is Done && r->Done_0.response is Done
            && r->Done_0.events@.len() == 1 && r->Done_0.events@[0] is PagesRebuilt && text::texts(
            r->Done_0.events@[0]->PagesRebuilt_pages@,
        ) == pages && text::opt_text(r->Done_0.events@[0]->PagesRebuilt_anchor) == anchor,
        r.tells_failed(pages) ==> r is Done && r->Done_0.response is Done
            && r->Done_0.events@.len() == 1 && r->Done_0.events@[0] is BuildFailed && text::texts(
            r->Done_0.events@[0]->error_pages@,
        ) == pages,
{
}

} // verus!
