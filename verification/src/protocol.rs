//! What clients ask of the conductor, what it answers, and what it tells everyone.

use vstd::prelude::*;

use crate::editorial::{
    Author, ContentPath, NedMutation, NedSuggestion, Suggestion, SuggestionId,
};
use crate::schema::SlotName;
use crate::text;

verus! {

/// The role of a file in a site.
#[derive(Debug, PartialEq, Eq)]
pub enum FileClassification {
    Content { schema_stem: String },
    Template { schema_stem: String },
    Schema { stem: String },
    Stylesheet,
    Asset,
    Unknown,
}

impl Clone for FileClassification {
    fn clone(&self) -> (r: Self)
        ensures
            r == *self,
    {
        match self {
            FileClassification::Content { schema_stem } => FileClassification::Content {
                schema_stem: schema_stem.clone(),
            },
            FileClassification::Template { schema_stem } => FileClassification::Template {
                schema_stem: schema_stem.clone(),
            },
            FileClassification::Schema { stem } => FileClassification::Schema {
                stem: stem.clone(),
            },
            FileClassification::Stylesheet => FileClassification::Stylesheet,
            FileClassification::Asset => FileClassification::Asset,
            FileClassification::Unknown => FileClassification::Unknown,
        }
    }
}

/// A link option for completions: one item that can be referenced from content.
#[derive(Debug, Clone, PartialEq, Eq)]
pub struct LinkOption {
    pub stem: String,
    pub slug: String,
    pub title: String,
    pub url: String,
}

/// A file that depends on a given schema stem.
#[derive(Debug, PartialEq, Eq)]
pub struct DependentFile {
    pub path: String,
    pub kind: FileClassification,
}

/// Which way of rendering a page is asked for.
#[derive(Debug, Clone, Copy, PartialEq, Eq, Structural)]
pub enum RenderMode {
    /// The page as it is published.
    View,
    /// The structure that the schema gives the page.
    Schema,
}

/// What a client asks of the conductor.
#[derive(Debug, PartialEq, Eq)]
pub enum Command {
    /// The text of a document was changed in an editor. Nothing is written.
    DocumentChanged { path: String, text: String },
    /// A document was saved by an editor.
    DocumentSaved { path: String },
    /// Files were changed on disk.
    FileChanged { paths: Vec<String> },
    /// Give a slot another value.
    EditSlot { file: String, slot: String, value: String },
    /// The source of a schema.
    GetGrammar { stem: String },
    /// The text of a document, as the editor has it or as it was saved.
    GetDocumentText { path: String },
    /// The errors of the last builds.
    GetBuildErrors,
    /// Health check.
    Ping,
    /// Request conductor shutdown.
    Shutdown,
    /// The cursor of an editor was moved.
    CursorMoved { path: String, line: u32 },
    /// Give an element of the body another content.
    EditBodyElement { file: String, body_idx: usize, content: String },
    /// Run a program on the nodes of the site.
    ApplyNedProgram { program: String },
    /// Create a content file.
    CreateContent { stem: String, slug: String },
    /// The documents that were changed since they were last saved.
    GetDirtyBuffers,
    /// The files with suggestions that are pending.
    GetSuggestionFiles,
    /// The files with suggestions, written as programs, that are pending or stale.
    GetNedSuggestionFiles,
    /// Write a changed document to disk.
    SaveBuffer { path: String },
    /// Write all changed documents to disk.
    SaveAllBuffers,
    /// Fill a new site from a starter template.
    ScaffoldSite {
        template_name: String,
        format: String,
        font_mood: String,
        seed_color: String,
        palette_type: String,
        complexity: String,
        theme: String,
    },
    /// The role of a file.
    Classify { path: String },
    /// The schemas with their sources.
    ListSchemas,
    /// The items of a stem that can be linked to.
    ListLinkOptions { stem: String },
    /// Whether a linked file exists.
    ResolveLink { path: String },
    /// Whether there is a template for a stem.
    ResolveTemplate { stem: String },
    /// The files that depend on a schema.
    ListDependents { stem: String },
    /// The content files.
    ListContent,
    /// The stem that a link slot of a schema leads to.
    ResolveLinkTargetStem { source_stem: String, slot: String },
    /// Render a page.
    RenderPage { path: String, mode: RenderMode },
    /// Propose another value of a slot.
    SuggestSlotValue {
        file: ContentPath,
        slot: SlotName,
        value: String,
        reason: String,
        author: Author,
    },
    /// Propose another passage of the text.
    SuggestBodyEdit {
        file: ContentPath,
        search: String,
        replace: String,
        reason: String,
        author: Author,
    },
    /// Propose another passage of the value of a slot.
    SuggestSlotEdit {
        file: ContentPath,
        slot: SlotName,
        search: String,
        replace: String,
        reason: String,
        author: Author,
    },
    /// The pending suggestions for a file.
    GetSuggestions { file: ContentPath },
    /// Accept a suggestion.
    AcceptSuggestion { id: SuggestionId },
    /// Reject a suggestion.
    RejectSuggestion { id: SuggestionId },
    /// Propose a change as a selection of nodes and what to do with them.
    CreateNedSuggestion {
        file: String,
        selection: String,
        mutation: NedMutation,
        reason: String,
        author: Author,
    },
    /// Accept such a suggestion: apply it.
    AcceptNedSuggestion { id: SuggestionId },
    /// Reject such a suggestion.
    RejectNedSuggestion { id: SuggestionId },
    /// The suggestions of that kind for a file, whatever has become of them.
    GetNedSuggestions { file: ContentPath },
    /// The URL of the schema of a page.
    SchemaUrlForPage { page_url: String },
    /// The URL of a page that shows a schema.
    PageUrlForSchema { schema_url: String },
}

/// What the conductor answers.
#[derive(Debug, PartialEq, Eq)]
pub enum Response {
    /// All is well.
    Done,
    DocumentText(Option<String>),
    SchemaSource(Option<String>),
    /// The pages that could not be built, each with the reasons.
    BuildErrors(Vec<(String, Vec<String>)>),
    Error(String),
    Pong,
    SuggestionCreated(SuggestionId),
    Suggestions(Vec<Suggestion>),
    /// The URL of the new page.
    ContentCreated(String),
    DirtyBuffers(Vec<String>),
    SuggestionFiles(Vec<String>),
    NedSuggestionFiles(Vec<String>),
    FileClassification(FileClassification),
    /// The stems with the sources of their schemas.
    SchemaList(Vec<(String, String)>),
    LinkOptions(Vec<LinkOption>),
    Exists(bool),
    Dependents(Vec<DependentFile>),
    ContentList(Vec<String>),
    LinkTargetStem(Option<String>),
    NedSuggestions(Vec<NedSuggestion>),
    PageRendered { html: String },
    SchemaUrl(Option<String>),
    PageUrl(Option<String>),
    /// What became of a program: the pages that were rebuilt and those that could
    /// not be, and how many documents were changed.
    Applied { rebuilt_pages: Vec<String>, failed_pages: Vec<String>, dirty_paths: usize },
}

/// What the conductor tells everyone.
#[derive(Debug, PartialEq, Eq)]
pub enum ConductorEvent {
    /// Pages were rebuilt. The anchor names the element that was changed, where
    /// the rebuild goes back to the edit of one.
    PagesRebuilt { pages: Vec<String>, anchor: Option<String> },
    /// Pages could not be built.
    BuildFailed { error_pages: Vec<String> },
    /// The browser should scroll to the element under the cursor.
    CursorScrollTo { anchor: String },
    SuggestionCreated { suggestion: Suggestion },
    SuggestionAccepted { id: SuggestionId, file: ContentPath, pages: Vec<String> },
    SuggestionRejected { id: SuggestionId, file: ContentPath },
    NedSuggestionCreated { suggestion: NedSuggestion },
    /// A suggestion could no longer be applied.
    NedSuggestionStaled { id: SuggestionId, file: ContentPath, reason: String },
    /// A suggestion that is written as a program was applied, and pages were rebuilt.
    NedSuggestionAccepted { id: SuggestionId, file: ContentPath, pages: Vec<String> },
    /// A suggestion that is written as a program was dismissed.
    NedSuggestionRejected { id: SuggestionId, file: ContentPath },
}

/// The result of handling a command: a response to send back, and the events to
/// tell all subscribers.
#[derive(Debug, PartialEq, Eq)]
pub struct CommandResult {
    pub response: Response,
    pub events: Vec<ConductorEvent>,
}

impl CommandResult {
    /// Whether the result is the given response and no event.
    pub open spec fn just(self, response: Response) -> bool {
        self.response == response && self.events@.len() == 0
    }

    /// Whether the result is an error with the given message.
    pub open spec fn is_error(self, message: Seq<char>) -> bool {
        self.response matches Response::Error(m) && m@ == message && self.events@.len() == 0
    }

    /// Whether the result is that all is well, and one event.
    pub open spec fn one_event(self) -> bool {
        self.response is Done && self.events@.len() == 1
    }

    /// Whether the result is that all is well, and that pages were rebuilt.
    pub open spec fn tells_rebuilt(self, pages: Seq<Seq<char>>, anchor: Option<Seq<char>>) -> bool {
        self.one_event() && rebuilt_event(self.events@[0], pages, anchor)
    }

    /// Whether the result is that all is well, and that pages could not be built.
    pub open spec fn tells_failed(self, pages: Seq<Seq<char>>) -> bool {
        self.one_event() && failed_event(self.events@[0], pages)
    }

    /// All is well.
    pub fn ok() -> (r: Self)
        ensures
            r.just(Response::Done),
    {
        CommandResult { response: Response::Done, events: Vec::new() }
    }

    /// All is well, and there is something to tell.
    pub fn ok_with_events(events: Vec<ConductorEvent>) -> (r: Self)
        ensures
            r.response is Done,
            r.events == events,
    {
        CommandResult { response: Response::Done, events }
    }

    /// All is well, and there is one thing to tell.
    pub fn ok_with_event(event: ConductorEvent) -> (r: Self)
        ensures
            r.one_event(),
            r.events@[0] == event,
    {
        let mut events: Vec<ConductorEvent> = Vec::new();
        events.push(event);
        CommandResult { response: Response::Done, events }
    }

    /// The command failed.
    pub fn error(message: String) -> (r: Self)
        ensures
            r.is_error(message@),
    {
        CommandResult { response: Response::Error(message), events: Vec::new() }
    }

    /// The given response, and nothing to tell.
    pub fn with_response(response: Response) -> (r: Self)
        ensures
            r.just(response),
    {
        CommandResult { response, events: Vec::new() }
    }
}

/// Whether an event says that the given pages were rebuilt.
pub open spec fn rebuilt_event(
    event: ConductorEvent,
    pages: Seq<Seq<char>>,
    anchor: Option<Seq<char>>,
) -> bool {
    event matches ConductorEvent::PagesRebuilt { pages: p, anchor: a } && text::texts(p@) == pages
        && text::opt_text(a) == anchor
}

/// Whether an event says that the given pages could not be built.
pub open spec fn failed_event(event: ConductorEvent, pages: Seq<Seq<char>>) -> bool {
    event matches ConductorEvent::BuildFailed { error_pages } && text::texts(error_pages@) == pages
}

} // verus!
