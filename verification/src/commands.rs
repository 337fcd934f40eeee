//! What each command starts with.

use vstd::prelude::*;

use crate::conductor;
use crate::conductor::{Buffer, Conductor};
use crate::deciding;
use crate::editing;
use crate::loading;
use crate::pages;
use crate::path;
use crate::path::{join_path, SitePath};
use crate::protocol::{Command, CommandResult, Response};
use crate::ranked;
use crate::rebuild;
use crate::saving;
use crate::showing;
use crate::showing::render_page;
use crate::site;
use crate::site::template_paths;
use crate::steps::{
    AfterEvaluate, AfterKind, AfterText, BodyDraft, Draft, Goal, NedDraft, NedPurpose, RebuildTask,
    SlotChange, SlotConsumer, SlotDraft, Step,
};
use crate::suggesting;
use crate::table;
use crate::text;

verus! {

/// Whether the response of a step, without events, satisfies what it is asked for.
pub open spec fn responds(r: Step) -> bool {
    r matches Step::Done(c) && c.events@.len() == 0
}

/// What a suggestion that is being made starts with: the text of the file is needed.
pub open spec fn starts_draft(c: Conductor, draft: Draft, r: Step) -> bool {
    let file = match draft {
        Draft::Slot(d) => d.file.0@,
        Draft::Body(d) => d.file.0@,
    };
    suggesting::wants_text(
        c,
        path::path_join(c.site_dir@, file),
        AfterText::Suggest(draft),
        r,
    )
}

/// What a command that only reads the state, or leaves it to later steps to change
/// it, starts with.
pub open spec fn is_started(c: Conductor, cmd: Command, r: Step) -> bool {
    match cmd {
        Command::Ping => r.answers(Response::Pong),
        Command::Shutdown => r.is_ok(),
        Command::GetGrammar { stem } => {
            &&& responds(r)
            &&& r->Done_0.response matches Response::SchemaSource(source)
            &&& text::opt_text(source) == conductor::source_of(c.schemas@, stem@)
        },
        Command::GetDocumentText { path } => suggesting::wants_text(
            c,
            path::path_join(c.site_dir@, path@),
            AfterText::Show,
            r,
        ),
        Command::GetBuildErrors => {
            &&& responds(r)
            &&& r->Done_0.response matches Response::BuildErrors(errors)
            &&& showing::error_pairs(errors@) == rebuild::seen_errors(c.build_errors@)
        },
        Command::FileChanged { paths } => {
            &&& r matches Step::Stat { paths: full, named }
            &&& named == paths
            &&& text::texts(full@) == loading::in_site(c.site_dir@, text::texts(paths@))
        },
        Command::CursorMoved { path, line } => suggesting::wants_text(
            c,
            path::path_join(c.site_dir@, path@),
            AfterText::Cursor { path, line },
            r,
        ),
        Command::EditSlot { file, slot, value } => editing::starts_slot_edit(
            c,
            file@,
            slot@,
            value@,
            SlotConsumer::Edit,
            r,
        ),
        Command::SuggestSlotValue { file, slot, value, reason, author } => starts_draft(
            c,
            Draft::Slot(
                SlotDraft { file, slot, change: SlotChange::Value(value), reason, author },
            ),
            r,
        ),
        Command::SuggestBodyEdit { file, search, replace, reason, author } => starts_draft(
            c,
            Draft::Body(BodyDraft { file, search, replace, reason, author }),
            r,
        ),
        Command::SuggestSlotEdit { file, slot, search, replace, reason, author } => starts_draft(
            c,
            Draft::Slot(
                SlotDraft {
                    file,
                    slot,
                    change: SlotChange::Passage { search, replace },
                    reason,
                    author,
                },
            ),
            r,
        ),
        Command::GetSuggestions { file } => {
            &&& responds(r)
            &&& r->Done_0.response matches Response::Suggestions(list)
            &&& list@ == deciding::pending_for(c.suggestions@, file.0@)
        },
        Command::AcceptSuggestion { id } => deciding::starts_acceptance(c, id.0@, r),
        Command::RejectSuggestion { id } => deciding::starts_rejection(c, id.0@, r),
        Command::EditBodyElement { file, body_idx, content } => editing::starts_body_edit(
            c,
            file@,
            body_idx,
            content@,
            r,
        ),
        Command::ApplyNedProgram { program } => r == (Step::Evaluate {
            program,
            next: AfterEvaluate::Apply(NedPurpose::Program),
        }),
        Command::CreateContent { stem, slug } => r == (Step::CreateContent { stem, slug }),
        Command::GetDirtyBuffers => {
            &&& responds(r)
            &&& r->Done_0.response matches Response::DirtyBuffers(names)
            &&& ranked::in_rank::<String>(text::texts(names@))
            &&& forall|name: Seq<char>| #[trigger]
                text::texts(names@).contains(name) <==> saving::is_changed(c, name)
        },
        Command::SaveBuffer { path } => saving::starts_save(c, path@, r),
        Command::GetSuggestionFiles => {
            &&& responds(r)
            &&& r->Done_0.response matches Response::SuggestionFiles(files)
            &&& ranked::in_rank::<String>(text::texts(files@))
            &&& text::texts(files@).to_set() == deciding::pending_files(c.suggestions@).to_set()
        },
        Command::GetNedSuggestionFiles => {
            &&& responds(r)
            &&& r->Done_0.response matches Response::NedSuggestionFiles(files)
            &&& ranked::in_rank::<String>(text::texts(files@))
            &&& text::texts(files@).to_set() == deciding::open_ned_files(
                c.ned_suggestions@,
            ).to_set()
        },
        Command::ScaffoldSite {
            template_name,
            format,
            font_mood,
            seed_color,
            palette_type,
            complexity,
            theme,
        } => r == (Step::Scaffold {
            template_name,
            format,
            font_mood,
            seed_color,
            palette_type,
            complexity,
            theme,
        }),
        Command::Classify { path } => {
            &&& r matches Step::Classify { path: full, next: AfterKind::Show }
            &&& full@ == path::path_join(c.site_dir@, path@)
        },
        Command::ListSchemas => {
            &&& responds(r)
            &&& r->Done_0.response matches Response::SchemaList(list)
            &&& site::pair_texts(list@) == showing::schema_pairs(c.schemas@)
        },
        Command::ListLinkOptions { stem } => {
            &&& responds(r)
            &&& r->Done_0.response matches Response::LinkOptions(options)
            &&& ranked::views(options@) == conductor::options_of(
                c.store,
                stem@,
                conductor::roots_of(c.stem_to_roots@, stem@),
            )
        },
        Command::ResolveLink { path } => {
            &&& r matches Step::Exists { paths }
            &&& text::texts(paths@) == seq![path::path_join(c.site_dir@, path@)]
        },
        Command::ResolveTemplate { stem } => {
            &&& r matches Step::Exists { paths }
            &&& text::texts(paths@) == site::template_files(c.site_dir@, stem@)
        },
        Command::ListDependents { stem } => r == (Step::Dependents { stem }),
        Command::ListContent => r is ContentFiles,
        Command::ResolveLinkTargetStem { source_stem, slot } => {
            &&& responds(r)
            &&& r->Done_0.response matches Response::LinkTargetStem(stem)
            &&& text::opt_text(stem) == conductor::link_stem(c.schemas@, source_stem@, slot@)
        },
        Command::RenderPage { path, mode } => showing::starts_render(path@, mode, r),
        Command::CreateNedSuggestion { file, selection, mutation, reason, author } => r == (
        Step::Evaluate {
            program: selection,
            next: AfterEvaluate::Check(NedDraft { file, selection, mutation, reason, author }),
        }),
        Command::AcceptNedSuggestion { id } => deciding::starts_ned_acceptance(c, id.0@, r),
        Command::RejectNedSuggestion { id } => deciding::starts_ned_rejection(c, id.0@, r),
        Command::GetNedSuggestions { file } => {
            &&& responds(r)
            &&& r->Done_0.response matches Response::NedSuggestions(list)
            &&& list@ == deciding::ned_for(c.ned_suggestions@, file.0@)
        },
        Command::SchemaUrlForPage { page_url } => {
            &&& responds(r)
            &&& r->Done_0.response matches Response::SchemaUrl(url)
            &&& text::opt_text(url) == match conductor::root_at(c.url_to_root@, page_url@) {
                Some(root) => conductor::schema_url_of(c.store, root),
                None => None,
            }
        },
        Command::PageUrlForSchema { schema_url } => {
            &&& responds(r)
            &&& r->Done_0.response matches Response::PageUrl(url)
            &&& text::opt_text(url) == conductor::page_for_schema(
                c.store,
                c.url_to_root@,
                c.stem_to_roots@,
                schema_url@,
            )
        },
        Command::DocumentChanged { .. } => false,
        Command::DocumentSaved { .. } => false,
        Command::SaveAllBuffers => false,
    }
}

/// How the file is written whose text an editor gives: as it was first, where a text
/// of it is held already.
pub open spec fn held_as(c: Conductor, path: String) -> String {
    match table::found(c.doc_sources@, path::components_of(path@)) {
        Some(own) => own.path,
        None => path,
    }
}

/// What each command starts with, and what it changes at once: only the texts that
/// editors hold, and which documents count as changed by a program.
pub open spec fn handled(before: Conductor, cmd: Command, after: Conductor, r: Step) -> bool {
    match cmd {
        Command::DocumentChanged { path, text } => {
            &&& after.doc_sources@ == table::with_entry(
                before.doc_sources@,
                path::components_of(path@),
                Buffer { path: held_as(before, path), text },
            )
            &&& after == (Conductor { doc_sources: after.doc_sources, ..before })
            &&& r == (Step::Classify {
                path,
                next: AfterKind::Rebuild(RebuildTask { path, text, goal: Goal::Changed }),
            })
        },
        Command::DocumentSaved { path } => {
            &&& after.doc_sources@ == table::without_key(
                before.doc_sources@,
                path::components_of(path@),
            )
            &&& after == (Conductor { doc_sources: after.doc_sources, ..before })
            &&& r.is_ok()
        },
        Command::SaveAllBuffers => after == before && saving::starts_save_all(before, r),
        _ => after == before && is_started(before, cmd, r),
    }
}

impl Conductor {
    /// Start a suggestion.
    fn start_draft(&self, draft: Draft) -> (r: Step)
        ensures
            starts_draft(*self, draft, r),
    {
        let file = match &draft {
            Draft::Slot(d) => d.file.resolve(self.site_dir.as_str()),
            Draft::Body(d) => d.file.resolve(self.site_dir.as_str()),
        };
        self.document_text(file.as_str(), AfterText::Suggest(draft))
    }

    /// Handle a command: do what can be done at once, and ask for the rest.
    pub fn handle_command(&mut self, cmd: Command) -> (r: Step)
        ensures
            handled(*old(self), cmd, *final(self), r),
    {
        match cmd {
            Command::DocumentChanged { path, text } => {
                let key = SitePath::new(path.as_str());
                let held = match self.doc_sources.get(&key) {
                    Some(own) => own.path.clone(),
                    None => path.clone(),
                };
                self.doc_sources.insert(key, Buffer { path: held, text: text.clone() });
                Step::Classify {
                    path: path.clone(),
                    next: AfterKind::Rebuild(RebuildTask { path, text, goal: Goal::Changed }),
                }
            },
            Command::DocumentSaved { path } => {
                self.doc_sources.remove(&SitePath::new(path.as_str()));
                Step::Done(CommandResult::ok())
            },
            Command::SaveAllBuffers => self.save_all_buffers(),
            other => self.start_command(other),
        }
    }

    /// Handle a command that changes nothing at once.
    fn start_command(&self, cmd: Command) -> (r: Step)
        requires
            !(cmd is DocumentChanged),
            !(cmd is DocumentSaved),
            !(cmd is SaveAllBuffers),
        ensures
            is_started(*self, cmd, r),
    {
        match cmd {
            Command::Ping => Step::Done(CommandResult::with_response(Response::Pong)),
            Command::Shutdown => Step::Done(CommandResult::ok()),
            Command::GetDocumentText { path } => {
                let full = join_path(self.site_dir.as_str(), path.as_str());
                self.document_text(full.as_str(), AfterText::Show)
            },
            Command::FileChanged { paths } => self.file_changed(paths),
            Command::CursorMoved { path, line } => {
                let full = join_path(self.site_dir.as_str(), path.as_str());
                self.document_text(full.as_str(), AfterText::Cursor { path, line })
            },
            Command::EditSlot { file, slot, value } => self.apply_slot_edit(
                file.as_str(),
                slot.as_str(),
                value.as_str(),
                SlotConsumer::Edit,
            ),
            Command::SuggestSlotValue { file, slot, value, reason, author } => self.start_draft(
                Draft::Slot(
                    SlotDraft { file, slot, change: SlotChange::Value(value), reason, author },
                ),
            ),
            Command::SuggestBodyEdit { file, search, replace, reason, author } => self.start_draft(
                Draft::Body(BodyDraft { file, search, replace, reason, author }),
            ),
            Command::SuggestSlotEdit {
                file,
                slot,
                search,
                replace,
                reason,
                author,
            } => self.start_draft(
                Draft::Slot(
                    SlotDraft {
                        file,
                        slot,
                        change: SlotChange::Passage { search, replace },
                        reason,
                        author,
                    },
                ),
            ),
            Command::AcceptSuggestion { id } => self.accept(&id),
            Command::RejectSuggestion { id } => self.reject(&id),
            Command::EditBodyElement { file, body_idx, content } => self.apply_body_element_edit(
                file.as_str(),
                body_idx,
                content.as_str(),
            ),
            Command::ApplyNedProgram { program } => Step::Evaluate {
                program,
                next: AfterEvaluate::Apply(NedPurpose::Program),
            },
            Command::CreateContent { stem, slug } => Step::CreateContent { stem, slug },
            Command::SaveBuffer { path } => self.save_buffer(path.as_str()),
            Command::ScaffoldSite {
                template_name,
                format,
                font_mood,
                seed_color,
                palette_type,
                complexity,
                theme,
            } => Step::Scaffold {
                template_name,
                format,
                font_mood,
                seed_color,
                palette_type,
                complexity,
                theme,
            },
            Command::Classify { path } => Step::Classify {
                path: join_path(self.site_dir.as_str(), path.as_str()),
                next: AfterKind::Show,
            },
            Command::ResolveLink { path } => {
                let mut paths: Vec<String> = Vec::new();
                paths.push(join_path(self.site_dir.as_str(), path.as_str()));
                proof {
                    assert(text::texts(paths@) =~= seq![
                        path::path_join(self.site_dir@, path@),
                    ]);
                }
                Step::Exists { paths }
            },
            Command::ResolveTemplate { stem } => Step::Exists {
                paths: template_paths(self.site_dir.as_str(), stem.as_str()),
            },
            Command::ListDependents { stem } => Step::Dependents { stem },
            Command::ListContent => Step::ContentFiles,
            Command::RenderPage { path, mode } => render_page(path.as_str(), mode),
            Command::CreateNedSuggestion { file, selection, mutation, reason, author } => {
                let program = selection.clone();
                Step::Evaluate {
                    program,
                    next: AfterEvaluate::Check(
                        NedDraft { file, selection, mutation, reason, author },
                    ),
                }
            },
            Command::AcceptNedSuggestion { id } => self.accept_ned(&id),
            Command::RejectNedSuggestion { id } => self.reject_ned(&id),
            other => Step::Done(CommandResult::with_response(self.answer(other))),
        }
    }

    /// The answer to a command that only reads the state.
    fn answer(&self, cmd: Command) -> (r: Response)
        ensures
            forall|step: Step|
                step.answers(r) && (cmd is GetGrammar || cmd is GetBuildErrors
                    || cmd is GetSuggestions || cmd is GetDirtyBuffers || cmd is GetSuggestionFiles
                    || cmd is GetNedSuggestionFiles || cmd is ListSchemas || cmd is ListLinkOptions
                    || cmd is ResolveLinkTargetStem || cmd is GetNedSuggestions
                    || cmd is SchemaUrlForPage || cmd is PageUrlForSchema)
                    ==> #[trigger] is_started(*self, cmd, step),
    {
        match cmd {
            Command::GetGrammar { stem } => Response::SchemaSource(
                self.schema_source(stem.as_str()),
            ),
            Command::GetBuildErrors => Response::BuildErrors(self.get_build_errors()),
            Command::GetSuggestions { file } => Response::Suggestions(
                self.get_suggestions(file.as_str()),
            ),
            Command::GetDirtyBuffers => Response::DirtyBuffers(self.get_dirty_buffers()),
            Command::GetSuggestionFiles => Response::SuggestionFiles(self.get_suggestion_files()),
            Command::GetNedSuggestionFiles => Response::NedSuggestionFiles(
                self.get_ned_suggestion_files(),
            ),
            Command::ListSchemas => Response::SchemaList(self.all_schemas()),
            Command::ListLinkOptions { stem } => Response::LinkOptions(
                self.list_link_options(stem.as_str()),
            ),
            Command::ResolveLinkTargetStem { source_stem, slot } => Response::LinkTargetStem(
                self.resolve_link_target_stem(source_stem.as_str(), slot.as_str()),
            ),
            Command::GetNedSuggestions { file } => Response::NedSuggestions(
                self.get_ned_suggestions(file.as_str()),
            ),
            Command::SchemaUrlForPage { page_url } => Response::SchemaUrl(
                self.schema_url_for_page(page_url.as_str()),
            ),
            Command::PageUrlForSchema { schema_url } => Response::PageUrl(
                self.page_url_for_schema(schema_url.as_str()),
            ),
            _ => Response::Done,
        }
    }
}

/// The text that an editor gave a document is what the document reads as, whatever
/// is on disk.
pub proof fn law_changed_text_is_read_back(
    before: Conductor,
    path: String,
    text: String,
    middle: Conductor,
    first: Step,
    name: String,
    after: Conductor,
    second: Step,
)
    requires
        handled(before, Command::DocumentChanged { path, text }, middle, first),
        path::components_of(path::path_join(before.site_dir@, name@)) == path::components_of(
            path@,
        ),
        handled(middle, Command::GetDocumentText { path: name }, after, second),
    ensures
        second.answers_text(Some(text@)),
{
    table::law_entry_is_found(
        before.doc_sources@,
        path::components_of(path@),
        Buffer { path: held_as(before, path), text },
    );
}

/// The text of one document changes nothing about that of another.
pub proof fn law_changed_text_keeps_others(
    before: Conductor,
    path: String,
    text: String,
    after: Conductor,
    r: Step,
    other: Seq<char>,
)
    requires
        handled(before, Command::DocumentChanged { path, text }, after, r),
        path::components_of(other) != path::components_of(path@),
    ensures
        pages::unsaved(after, other) == pages::unsaved(before, other),
{
    table::law_entry_keeps_others(
        before.doc_sources@,
        path::components_of(path@),
        Buffer { path: held_as(before, path), text },
        path::components_of(other),
    );
}

/// Once an editor saved a document, it reads as it is on disk.
pub proof fn law_saved_document_is_read_from_disk(
    before: Conductor,
    path: String,
    middle: Conductor,
    first: Step,
    name: String,
    after: Conductor,
    second: Step,
)
    requires
        handled(before, Command::DocumentSaved { path }, middle, first),
        path::components_of(path::path_join(before.site_dir@, name@)) == path::components_of(
            path@,
        ),
        handled(middle, Command::GetDocumentText { path: name }, after, second),
    ensures
        second matches Step::ReadFile { path: p, next: AfterText::Show } && p@ == path::path_join(
            before.site_dir@,
            name@,
        ),
{
    table::law_removed_key_is_gone(before.doc_sources@, path::components_of(path@));
}

/// A document of the site whose text an editor changed counts as changed.
pub proof fn law_changed_document_is_listed(
    before: Conductor,
    path: String,
    text: String,
    after: Conductor,
    r: Step,
)
    requires
        handled(before, Command::DocumentChanged { path, text }, after, r),
        path::lies_under(path::components_of(path@), path::components_of(before.site_dir@)),
    ensures
        saving::is_changed(
            after,
            path::rest_of(
                held_as(before, path)@,
                path::components_of(before.site_dir@).len() as int,
            ),
        ),
{
    let key = path::components_of(path@);
    let root = path::components_of(before.site_dir@);
    table::lemma_place_of(before.doc_sources@, key);
    let at = table::place_of(before.doc_sources@, key);
    assert(after.doc_sources@[at].0 == key);
    saving::lemma_buffer_is_named(after.doc_sources@, root, at);
}

/// Only a command to save starts with writing a source file.
pub proof fn law_only_saving_writes(before: Conductor, cmd: Command, after: Conductor, r: Step)
    requires
        handled(before, cmd, after, r),
        r is Write,
    ensures
        cmd is SaveBuffer || cmd is SaveAllBuffers,
{
}

/// A command that is refused at once changes nothing.
pub proof fn law_refused_command_changes_nothing(
    before: Conductor,
    cmd: Command,
    after: Conductor,
    r: Step,
    message: Seq<char>,
)
    requires
        handled(before, cmd, after, r),
        r.fails(message),
    ensures
        after == before,
{
}

/// Only an editor that changes or saves a document changes what the conductor holds at
/// once; every other command leaves it as it is.
pub proof fn law_other_commands_change_nothing_at_once(
    before: Conductor,
    cmd: Command,
    after: Conductor,
    r: Step,
)
    requires
        handled(before, cmd, after, r),
        !(cmd is DocumentChanged),
        !(cmd is DocumentSaved),
    ensures
        after == before,
{
}

/// What a command names is what is worked on: files by their place in the site, and the
/// rest as it is given.
pub proof fn law_commands_name_what_is_worked_on(
    before: Conductor,
    cmd: Command,
    after: Conductor,
    r: Step,
)
    requires
        handled(before, cmd, after, r),
    ensures
        cmd is Ping ==> r is Done && r->Done_0.response is Pong,
        cmd is Shutdown ==> r is Done && r->Done_0.response is Done,
        cmd is CreateContent ==> r is CreateContent && r->CreateContent_stem
            == cmd->CreateContent_stem && r->CreateContent_slug == cmd->CreateContent_slug,
        cmd is ListDependents ==> r is Dependents && r->Dependents_stem == cmd->ListDependents_stem,
        cmd is ListContent ==> r is ContentFiles,
        cmd is ApplyNedProgram ==> r is Evaluate && r->program == cmd->ApplyNedProgram_program,
        cmd is CreateNedSuggestion ==> r is Evaluate && r->program == cmd->selection,
        cmd is Classify ==> r is Classify && r->Classify_path@ == path::path_join(
            before.site_dir@,
            cmd->Classify_path@,
        ),
        cmd is DocumentChanged ==> r is Classify && r->Classify_path == cmd->DocumentChanged_path,
        cmd is FileChanged ==> r is Stat && r->named == cmd->FileChanged_paths
            && r->Stat_paths@.len() == cmd->FileChanged_paths@.len() && forall|k: int|
            0 <= k < cmd->FileChanged_paths@.len() ==> (#[trigger] r->Stat_paths@[k])@
                == path::path_join(before.site_dir@, cmd->FileChanged_paths@[k]@),
        cmd is ResolveLink ==> r is Exists && r->Exists_paths@.len() == 1 && r->Exists_paths@[0]@
            == path::path_join(before.site_dir@, cmd->ResolveLink_path@),
        cmd is ScaffoldSite ==> r is Scaffold && r->Scaffold_template_name
            == cmd->ScaffoldSite_template_name && r->Scaffold_theme == cmd->ScaffoldSite_theme
            && r->Scaffold_format == cmd->ScaffoldSite_format && r->Scaffold_font_mood
            == cmd->ScaffoldSite_font_mood && r->Scaffold_seed_color
            == cmd->ScaffoldSite_seed_color && r->Scaffold_palette_type
            == cmd->ScaffoldSite_palette_type && r->Scaffold_complexity
            == cmd->ScaffoldSite_complexity,
{
    if cmd is FileChanged {
        let named = text::texts(cmd->FileChanged_paths@);
        let full = text::texts(r->Stat_paths@);
        assert(full == loading::in_site(before.site_dir@, named));
        assert forall|k: int| 0 <= k < cmd->FileChanged_paths@.len() implies (
        #[trigger] r->Stat_paths@[k])@ == path::path_join(
            before.site_dir@,
            cmd->FileChanged_paths@[k]@,
        ) by {
            assert(full[k] == r->Stat_paths@[k]@);
            assert(named[k] == cmd->FileChanged_paths@[k]@);
        }
        assert(full.len() == named.len());
    }
    if cmd is ResolveLink {
        let full = text::texts(r->Exists_paths@);
        assert(full.len() == 1);
        assert(full[0] == r->Exists_paths@[0]@);
    }
}

/// To ask for a page by its URL reads what was written for it.
pub proof fn law_rendered_page_is_that_of_the_url(
    before: Conductor,
    page: String,
    stem: Seq<char>,
    slug: Seq<char>,
    after: Conductor,
    r: Step,
)
    requires
        site::is_plain_name(stem),
        site::is_plain_name(slug),
        page@ == site::page_url(stem, slug),
        handled(
            before,
            Command::RenderPage { path: page, mode: crate::protocol::RenderMode::View },
            after,
            r,
        ),
    ensures
        r is ReadOutput,
        r->ReadOutput_stem@ == stem,
        r->ReadOutput_slug@ == slug,
{
    showing::law_shown_page_is_that_of_the_url(stem, slug, r);
}

/// What a question is answered with: the source of a schema, the errors of builds, all
/// schemas with their sources, where a link slot leads to, and the suggestions on a file.
pub proof fn law_answers_to_questions(before: Conductor, cmd: Command, after: Conductor, r: Step)
    requires
        handled(before, cmd, after, r),
    ensures
        cmd is GetGrammar ==> r is Done && r->Done_0.response is SchemaSource && text::opt_text(
            r->Done_0.response->SchemaSource_0,
        ) == conductor::source_of(before.schemas@, cmd->GetGrammar_stem@),
        cmd is ListSchemas ==> {
            &&& r is Done
            &&& r->Done_0.response is SchemaList
            &&& r->Done_0.response->SchemaList_0@.len() == before.schemas@.len()
            &&& forall|k: int|
                0 <= k < before.schemas@.len() ==> {
                    let pair = #[trigger] r->Done_0.response->SchemaList_0@[k];
                    pair.0@ == before.schemas@[k].0 && pair.1@ == before.schemas@[k].1.source@
                }
        },
        cmd is GetSuggestions ==> r is Done && r->Done_0.response is Suggestions
            && r->Done_0.response->Suggestions_0@ == deciding::pending_for(
            before.suggestions@,
            cmd->GetSuggestions_file.0@,
        ),
        cmd is GetNedSuggestions ==> r is Done && r->Done_0.response is NedSuggestions
            && r->Done_0.response->NedSuggestions_0@ == deciding::ned_for(
            before.ned_suggestions@,
            cmd->GetNedSuggestions_file.0@,
        ),
        cmd is ResolveLinkTargetStem ==> r is Done && r->Done_0.response is LinkTargetStem
            && text::opt_text(r->Done_0.response->LinkTargetStem_0) == conductor::link_stem(
            before.schemas@,
            cmd->source_stem@,
            cmd->ResolveLinkTargetStem_slot@,
        ),
        cmd is ListLinkOptions ==> r is Done && r->Done_0.response is LinkOptions && ranked::views(
            r->Done_0.response->LinkOptions_0@,
        ) == conductor::options_of(
            before.store,
            cmd->ListLinkOptions_stem@,
            conductor::roots_of(before.stem_to_roots@, cmd->ListLinkOptions_stem@),
        ),
        cmd is ResolveTemplate ==> r is Exists && text::texts(r->Exists_paths@)
            == site::template_files(before.site_dir@, cmd->ResolveTemplate_stem@),
        cmd is AcceptSuggestion ==> deciding::starts_acceptance(
            before,
            cmd->AcceptSuggestion_id.0@,
            r,
        ),
        cmd is RejectSuggestion ==> deciding::starts_rejection(
            before,
            cmd->RejectSuggestion_id.0@,
            r,
        ),
        cmd is AcceptNedSuggestion ==> deciding::starts_ned_acceptance(
            before,
            cmd->AcceptNedSuggestion_id.0@,
            r,
        ),
        cmd is RejectNedSuggestion ==> deciding::starts_ned_rejection(
            before,
            cmd->RejectNedSuggestion_id.0@,
            r,
        ),
{
    if cmd is ListSchemas {
        let list = r->Done_0.response->SchemaList_0@;
        let pairs = site::pair_texts(list);
        let schemas = showing::schema_pairs(before.schemas@);
        assert(pairs == schemas);
        assert(pairs.len() == list.len());
        assert forall|k: int| 0 <= k < before.schemas@.len() implies {
            let pair = #[trigger] list[k];
            pair.0@ == before.schemas@[k].0 && pair.1@ == before.schemas@[k].1.source@
        } by {
            assert(pairs[k] == (list[k].0@, list[k].1@));
            assert(schemas[k] == (before.schemas@[k].0, before.schemas@[k].1.source@));
        }
    }
}

} // verus!
