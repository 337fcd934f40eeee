//! How suggestions are made, accepted and rejected.

use vstd::prelude::*;

use crate::anchor;
use crate::conductor;
use crate::conductor::Conductor;
use crate::content_editor;
use crate::content_editor::schema_stem;
use crate::decimal;
use crate::decimal::u64_text;
use crate::editing;
use crate::editing::accept_suggestion;
use crate::editorial;
use crate::editorial::{
    value_of_slot, ContentPath, NedSuggestion, NedSuggestionStatus, SlotReading, Suggestion,
    SuggestionId, SuggestionStatus, SuggestionTarget,
};
use crate::pages;
use crate::path::SitePath;
use crate::populate;
use crate::protocol::{CommandResult, ConductorEvent, Response};
use crate::site::{all_together, together};
use crate::slot_assignment::parse_and_assign;
use crate::stamp;
use crate::stamp::iso8601_at;
use crate::steps::{
    AfterPersist, AfterPersistNed, AfterSlot, AfterText, Draft, NedDraft, PersistNedTask,
    PersistTask, SlotChange, SlotConsumer, StampTask, Step,
};
use crate::table;
use crate::text;
use crate::text::{contains, replace_first};
use crate::unicode;
use crate::unicode::debug_str;

verus! {

/// Whether a draft only lacks its identity and its date.
pub open spec fn stamps(draft: Draft, original: Option<Seq<char>>, r: Step) -> bool {
    r matches Step::Stamp(task) && task.draft == draft && text::opt_text(task.original_value)
        == original
}

/// The message that the value of a slot cannot be read.
pub open spec fn unreadable_slot(slot: Seq<char>, file: Seq<char>) -> Seq<char> {
    "cannot read slot '"@ + slot + "' from "@ + file
}

/// The message that the value of a slot cannot be read.
fn unreadable_slot_message(slot: &str, file: &str) -> (r: String)
    ensures
        r@ == unreadable_slot(slot@, file@),
{
    let front = all_together("cannot read slot '", slot, "' from ");
    together(front.as_str(), file)
}

/// What follows once the value of a slot is known.
pub open spec fn slot_known(c: Conductor, next: AfterSlot, reading: SlotReading, r: Step) -> bool {
    match next {
        AfterSlot::Suggest(draft) => match draft.change {
            SlotChange::Value(_) => stamps(
                Draft::Slot(draft),
                editorial::slot_value(reading, "\n\n"@),
                r,
            ),
            SlotChange::Passage { search, .. } => match editorial::slot_value(reading, " "@) {
                None => r.fails(unreadable_slot(draft.slot@, draft.file.0@)),
                Some(value) => if text::has_text(value, search@) {
                    stamps(Draft::Slot(draft), Some(value), r)
                } else {
                    r.fails(
                        "search text not found in slot '"@ + draft.slot@ + "' of "@ + draft.file.0@
                            + ": "@ + unicode::debug_form(search@),
                    )
                },
            },
        },
        AfterSlot::Accept(suggestion) => match suggestion.target {
            SuggestionTarget::SlotEdit { slot, search, replace } => match reading {
                SlotReading::Text(value) => if text::has_text(value@, search@) {
                    editing::starts_slot_edit(
                        c,
                        suggestion.file.0@,
                        slot@,
                        text::replaced_once(value@, search@, replace@),
                        SlotConsumer::Accept(suggestion),
                        r,
                    )
                } else {
                    r.fails(
                        "search text not found in current slot '"@ + slot@ + "' of "@
                            + suggestion.file.0@ + " — content may have changed"@,
                    )
                },
                _ => r.fails(unreadable_slot(slot@, suggestion.file.0@)),
            },
            _ => editing::accepts(suggestion, seq![], r),
        },
    }
}

/// How the value of a slot is read from a text: it is asked for, unless the text,
/// its stem or a schema that could be read is lacking.
pub open spec fn wants_slot(
    c: Conductor,
    file: Seq<char>,
    slot: Seq<char>,
    source: Option<Seq<char>>,
    next: AfterSlot,
    r: Step,
) -> bool {
    match (source, content_editor::stem_of_file(file)) {
        (Some(src), Some(stem)) => match conductor::grammar_of(c.schemas@, stem) {
            Some(grammar) => {
                &&& r matches Step::ReadSlot { document, grammar_key, slot: s, next: n }
                &&& document@ == populate::document_of(src, grammar)
                &&& grammar_key@ == stem
                &&& s@ == slot
                &&& n == next
            },
            None => slot_known(c, next, SlotReading::Other, r),
        },
        _ => slot_known(c, next, SlotReading::Other, r),
    }
}

/// What follows once the text of a file is known.
pub open spec fn text_known(
    c: Conductor,
    next: AfterText,
    source: Option<Seq<char>>,
    r: Step,
) -> bool {
    match next {
        AfterText::Show => r.answers_text(source),
        AfterText::Cursor { path, line } => {
            let found = match source {
                Some(src) => anchor::anchor_at(c, src, path@, line as nat),
                None => None,
            };
            match found {
                Some(a) => {
                    &&& r matches Step::Done(c)
                    &&& c.one_event()
                    &&& c.events@[0] matches ConductorEvent::CursorScrollTo { anchor }
                    &&& anchor@ == a
                },
                None => r.is_ok(),
            }
        },
        AfterText::Suggest(Draft::Body(draft)) => match source {
            None => r.fails("cannot read "@ + draft.file.0@),
            Some(src) => if text::has_text(src, draft.search@) {
                stamps(Draft::Body(draft), Some(draft.search@), r)
            } else {
                r.fails(
                    "search text not found in "@ + draft.file.0@ + ": "@ + unicode::debug_form(
                        draft.search@,
                    ),
                )
            },
        },
        AfterText::Suggest(Draft::Slot(draft)) => wants_slot(
            c,
            draft.file.0@,
            draft.slot@,
            source,
            AfterSlot::Suggest(draft),
            r,
        ),
        AfterText::Accept(suggestion) => match suggestion.target {
            SuggestionTarget::SlotEdit { slot, .. } => wants_slot(
                c,
                suggestion.file.0@,
                slot@,
                source,
                AfterSlot::Accept(suggestion),
                r,
            ),
            _ => editing::accepts(suggestion, seq![], r),
        },
    }
}

/// How the text of a file is had: from an editor that has not saved it, or from
/// disk.
pub open spec fn wants_text(c: Conductor, p: Seq<char>, next: AfterText, r: Step) -> bool {
    match pages::unsaved(c, p) {
        Some(src) => text_known(c, next, Some(src), r),
        None => r matches Step::ReadFile { path, next: n } && path@ == p && n == next,
    }
}

impl Conductor {
    /// The value of a slot was read.
    pub fn on_slot(&self, next: AfterSlot, reading: SlotReading) -> (r: Step)
        ensures
            slot_known(*self, next, reading, r),
    {
        match next {
            AfterSlot::Suggest(draft) => match &draft.change {
                SlotChange::Value(_) => {
                    let original_value = value_of_slot(&reading, "\n\n");
                    Step::Stamp(StampTask { draft: Draft::Slot(draft), original_value })
                },
                SlotChange::Passage { search, replace: _ } => match value_of_slot(&reading, " ") {
                    None => {
                        let message = unreadable_slot_message(
                            draft.slot.as_str(),
                            draft.file.as_str(),
                        );
                        Step::Done(CommandResult::error(message))
                    },
                    Some(value) => {
                        if contains(value.as_str(), search.as_str()) {
                            Step::Stamp(
                                StampTask {
                                    draft: Draft::Slot(draft),
                                    original_value: Some(value),
                                },
                            )
                        } else {
                            let mut message = all_together(
                                "search text not found in slot '",
                                draft.slot.as_str(),
                                "' of ",
                            );
                            message.append(draft.file.as_str());
                            message.append(": ");
                            let shown = debug_str(search.as_str());
                            message.append(shown.as_str());
                            Step::Done(CommandResult::error(message))
                        }
                    },
                },
            },
            AfterSlot::Accept(suggestion) => {
                let edit = match &suggestion.target {
                    SuggestionTarget::SlotEdit { slot, search, replace } => Some(
                        (slot.clone(), search.clone(), replace.clone()),
                    ),
                    _ => None,
                };
                match edit {
                    None => {
                        let none: Vec<String> = Vec::new();
                        proof {
                            assert(text::texts(none@) =~= seq![]);
                        }
                        accept_suggestion(suggestion, none)
                    },
                    Some((slot, search, replace)) => match reading {
                        SlotReading::Text(value) => {
                            if contains(value.as_str(), search.as_str()) {
                                let changed = replace_first(
                                    value.as_str(),
                                    search.as_str(),
                                    replace.as_str(),
                                );
                                let file = suggestion.file.clone();
                                self.apply_slot_edit(
                                    file.as_str(),
                                    slot.as_str(),
                                    changed.as_str(),
                                    SlotConsumer::Accept(suggestion),
                                )
                            } else {
                                let mut message = all_together(
                                    "search text not found in current slot '",
                                    slot.as_str(),
                                    "' of ",
                                );
                                message.append(suggestion.file.as_str());
                                message.append(" — content may have changed");
                                Step::Done(CommandResult::error(message))
                            }
                        },
                        _ => {
                            let message = unreadable_slot_message(
                                slot.as_str(),
                                suggestion.file.as_str(),
                            );
                            Step::Done(CommandResult::error(message))
                        },
                    },
                }
            },
        }
    }

    /// Ask for the value of a slot.
    fn ask_for_slot(
        &self,
        file: &str,
        slot: &str,
        source: Option<String>,
        next: AfterSlot,
    ) -> (r: Step)
        ensures
            wants_slot(*self, file@, slot@, text::opt_text(source), next, r),
    {
        let stem = match schema_stem(file) {
            Some(stem) => stem,
            None => {
                return self.on_slot(next, SlotReading::Other);
            },
        };
        let src = match source {
            Some(src) => src,
            None => {
                return self.on_slot(next, SlotReading::Other);
            },
        };
        if let Some(entry) = self.schemas.get(&stem) {
            if let Ok(grammar) = &entry.grammar {
                if let Ok(document) = parse_and_assign(src.as_str(), grammar) {
                    return Step::ReadSlot {
                        document,
                        grammar_key: stem,
                        slot: slot.to_owned(),
                        next,
                    };
                }
            }
        }
        self.on_slot(next, SlotReading::Other)
    }

    /// The text of a file was read, where it could be.
    pub fn on_text(&self, next: AfterText, source: Option<String>) -> (r: Step)
        ensures
            text_known(*self, next, text::opt_text(source), r),
    {
        match next {
            AfterText::Show => Step::Done(
                CommandResult::with_response(Response::DocumentText(source)),
            ),
            AfterText::Cursor { path, line } => {
                if let Some(src) = source {
                    if let Some(anchor) = self.body_element_anchor_at_line(
                        src.as_str(),
                        path.as_str(),
                        line,
                    ) {
                        return Step::Done(
                            CommandResult::ok_with_event(
                                ConductorEvent::CursorScrollTo { anchor },
                            ),
                        );
                    }
                }
                Step::Done(CommandResult::ok())
            },
            AfterText::Suggest(Draft::Body(draft)) => match source {
                None => Step::Done(
                    CommandResult::error(together("cannot read ", draft.file.as_str())),
                ),
                Some(src) => {
                    if contains(src.as_str(), draft.search.as_str()) {
                        let original_value = Some(draft.search.clone());
                        Step::Stamp(StampTask { draft: Draft::Body(draft), original_value })
                    } else {
                        let mut message = all_together(
                            "search text not found in ",
                            draft.file.as_str(),
                            ": ",
                        );
                        let shown = debug_str(draft.search.as_str());
                        message.append(shown.as_str());
                        Step::Done(CommandResult::error(message))
                    }
                },
            },
            AfterText::Suggest(Draft::Slot(draft)) => {
                let file = draft.file.clone();
                let slot = draft.slot.clone();
                self.ask_for_slot(
                    file.as_str(),
                    slot.as_str(),
                    source,
                    AfterSlot::Suggest(draft),
                )
            },
            AfterText::Accept(suggestion) => {
                let slot = match &suggestion.target {
                    SuggestionTarget::SlotEdit { slot, search: _, replace: _ } => Some(
                        slot.clone(),
                    ),
                    _ => None,
                };
                match slot {
                    None => {
                        let none: Vec<String> = Vec::new();
                        proof {
                            assert(text::texts(none@) =~= seq![]);
                        }
                        accept_suggestion(suggestion, none)
                    },
                    Some(slot) => {
                        let file = suggestion.file.clone();
                        self.ask_for_slot(
                            file.as_str(),
                            slot.as_str(),
                            source,
                            AfterSlot::Accept(suggestion),
                        )
                    },
                }
            },
        }
    }

    /// Have the text of a file: in memory, where an editor has not saved it, with
    /// that on disk to fall back on.
    pub fn document_text(&self, path: &str, next: AfterText) -> (r: Step)
        ensures
            wants_text(*self, path@, next, r),
    {
        match self.doc_sources.get(&SitePath::new(path)) {
            Some(own) => self.on_text(next, Some(own.text.clone())),
            None => Step::ReadFile { path: path.to_owned(), next },
        }
    }
}

/// Whether a suggestion is the one that a draft, an identity and a date make.
pub open spec fn is_made_of(
    suggestion: Suggestion,
    task: StampTask,
    id: SuggestionId,
    seconds: u64,
) -> bool {
    &&& suggestion.id == id
    &&& suggestion.status == SuggestionStatus::Pending
    &&& suggestion.original_value == task.original_value
    &&& suggestion.created_at@ == decimal::digits(seconds as nat)
    &&& match task.draft {
        Draft::Slot(draft) => {
            &&& suggestion.author == draft.author
            &&& suggestion.file == draft.file
            &&& suggestion.reason == draft.reason
            &&& suggestion.target == match draft.change {
                SlotChange::Value(value) => SuggestionTarget::Slot {
                    slot: draft.slot,
                    proposed_value: value,
                },
                SlotChange::Passage { search, replace } => SuggestionTarget::SlotEdit {
                    slot: draft.slot,
                    search,
                    replace,
                },
            }
        },
        Draft::Body(draft) => {
            &&& suggestion.author == draft.author
            &&& suggestion.file == draft.file
            &&& suggestion.reason == draft.reason
            &&& suggestion.target == (SuggestionTarget::BodyText {
                search: draft.search,
                replace: draft.replace,
            })
        },
    }
}

/// An identity was made, and the clock was read: the suggestion is to be kept.
pub fn on_stamp(task: StampTask, id: SuggestionId, seconds: u64) -> (r: Step)
    ensures
        r matches Step::Persist(p) && is_made_of(p.suggestion, task, id, seconds) && p.next
            == AfterPersist::Created,
{
    let created_at = u64_text(seconds);
    let status = SuggestionStatus::Pending;
    let original_value = task.original_value;
    let suggestion = match task.draft {
        Draft::Slot(draft) => {
            let target = match draft.change {
                SlotChange::Value(proposed_value) => SuggestionTarget::Slot {
                    slot: draft.slot,
                    proposed_value,
                },
                SlotChange::Passage { search, replace } => SuggestionTarget::SlotEdit {
                    slot: draft.slot,
                    search,
                    replace,
                },
            };
            Suggestion {
                id,
                author: draft.author,
                file: draft.file,
                target,
                reason: draft.reason,
                status,
                original_value,
                created_at,
            }
        },
        Draft::Body(draft) => Suggestion {
            id,
            author: draft.author,
            file: draft.file,
            target: SuggestionTarget::BodyText { search: draft.search, replace: draft.replace },
            reason: draft.reason,
            status,
            original_value,
            created_at,
        },
    };
    Step::Persist(PersistTask { suggestion, next: AfterPersist::Created })
}

/// Whether a suggestion that is written as a program is the one that a draft, an
/// identity, a date and a version of the site make.
pub open spec fn is_ned_made_of(
    suggestion: NedSuggestion,
    draft: NedDraft,
    id: SuggestionId,
    nanoseconds: i128,
    workspace_hash: String,
) -> bool {
    &&& suggestion.created_at@ == stamp::moment_text(stamp::iso8601_form(nanoseconds))
    &&& suggestion == (NedSuggestion {
        id,
        author: draft.author,
        file: ContentPath(draft.file),
        selection: draft.selection,
        mutation: draft.mutation,
        workspace_hash,
        reason: draft.reason,
        status: NedSuggestionStatus::Pending,
        created_at: suggestion.created_at,
    })
}

/// An identity was made, the clock was read, and the version of the site was found:
/// the suggestion is to be kept.
pub fn on_ned_stamp(
    draft: NedDraft,
    id: SuggestionId,
    nanoseconds: i128,
    workspace_hash: String,
) -> (r: Step)
    ensures
        r matches Step::PersistNed(p) && is_ned_made_of(
            p.suggestion,
            draft,
            id,
            nanoseconds,
            workspace_hash,
        ) && p.next == AfterPersistNed::Created,
{
    let suggestion = NedSuggestion {
        id,
        author: draft.author,
        file: ContentPath(draft.file),
        selection: draft.selection,
        mutation: draft.mutation,
        workspace_hash,
        reason: draft.reason,
        status: NedSuggestionStatus::Pending,
        created_at: iso8601_at(nanoseconds),
    };
    Step::PersistNed(PersistNedTask { suggestion, next: AfterPersistNed::Created })
}

/// What becomes of the state once a suggestion was kept on disk, or could not be. A
/// new one that could not be kept is an error; what becomes of an old one does not
/// depend on that.
pub open spec fn is_persisted(
    before: Conductor,
    task: PersistTask,
    result: Result<(), String>,
    after: Conductor,
    r: Step,
) -> bool {
    let s = task.suggestion;
    if task.next is Created && result is Err {
        after == before && r.fails("persist error: "@ + result->Err_0@)
    } else {
        &&& after.suggestions@ == table::with_entry(before.suggestions@, s.id.0@, s)
        &&& after == (Conductor { suggestions: after.suggestions, ..before })
        &&& r matches Step::Done(c)
        &&& c.events@.len() == 1
        &&& match task.next {
            AfterPersist::Created => c.response == Response::SuggestionCreated(s.id)
                && c.events@[0] == (ConductorEvent::SuggestionCreated { suggestion: s }),
            AfterPersist::Accepted { pages } => c.response is Done && c.events@[0] == (
            ConductorEvent::SuggestionAccepted { id: s.id, file: s.file, pages }),
            AfterPersist::Rejected => c.response is Done && c.events@[0] == (
            ConductorEvent::SuggestionRejected { id: s.id, file: s.file }),
        }
    }
}

/// The same for a suggestion that is written as a program.
pub open spec fn is_ned_persisted(
    before: Conductor,
    task: PersistNedTask,
    result: Result<(), String>,
    after: Conductor,
    r: Step,
) -> bool {
    let s = task.suggestion;
    if task.next is Created && result is Err {
        after == before && r.fails("persist error: "@ + result->Err_0@)
    } else {
        &&& after.ned_suggestions@ == table::with_entry(before.ned_suggestions@, s.id.0@, s)
        &&& after == (Conductor { ned_suggestions: after.ned_suggestions, ..before })
        &&& r matches Step::Done(c)
        &&& c.events@.len() == 1
        &&& match task.next {
            AfterPersistNed::Created => c.response == Response::SuggestionCreated(s.id)
                && c.events@[0] == (ConductorEvent::NedSuggestionCreated { suggestion: s }),
            AfterPersistNed::Accepted { pages } => c.response is Done && c.events@[0] == (
            ConductorEvent::SuggestionAccepted { id: s.id, file: s.file, pages }),
            AfterPersistNed::Rejected => c.response is Done && c.events@[0] == (
            ConductorEvent::SuggestionRejected { id: s.id, file: s.file }),
            AfterPersistNed::Staled { reason } => c.response is Done && c.events@[0] == (
            ConductorEvent::NedSuggestionStaled { id: s.id, file: s.file, reason }),
        }
    }
}

impl Conductor {
    /// A suggestion was kept on disk, or could not be.
    pub fn on_persisted(&mut self, task: PersistTask, result: Result<(), String>) -> (r: Step)
        ensures
            is_persisted(*old(self), task, result, *final(self), r),
    {
        let s = task.suggestion;
        let id = s.id.clone();
        let file = s.file.clone();
        match task.next {
            AfterPersist::Created => {
                if let Err(e) = result {
                    return Step::Done(
                        CommandResult::error(together("persist error: ", e.as_str())),
                    );
                }
                self.suggestions.insert(id.0.clone(), s.clone());
                let mut events: Vec<ConductorEvent> = Vec::new();
                events.push(ConductorEvent::SuggestionCreated { suggestion: s });
                Step::Done(CommandResult { response: Response::SuggestionCreated(id), events })
            },
            AfterPersist::Accepted { pages } => {
                self.suggestions.insert(id.0.clone(), s);
                Step::Done(
                    CommandResult::ok_with_event(
                        ConductorEvent::SuggestionAccepted { id, file, pages },
                    ),
                )
            },
            AfterPersist::Rejected => {
                self.suggestions.insert(id.0.clone(), s);
                Step::Done(
                    CommandResult::ok_with_event(ConductorEvent::SuggestionRejected { id, file }),
                )
            },
        }
    }

    /// A suggestion that is written as a program was kept on disk, or could not be.
    pub fn on_ned_persisted(&mut self, task: PersistNedTask, result: Result<(), String>) -> (r: Step)
        ensures
            is_ned_persisted(*old(self), task, result, *final(self), r),
    {
        let s = task.suggestion;
        let id = s.id.clone();
        let file = s.file.clone();
        match task.next {
            AfterPersistNed::Created => {
                if let Err(e) = result {
                    return Step::Done(
                        CommandResult::error(together("persist error: ", e.as_str())),
                    );
                }
                self.ned_suggestions.insert(id.0.clone(), s.clone());
                let mut events: Vec<ConductorEvent> = Vec::new();
                events.push(ConductorEvent::NedSuggestionCreated { suggestion: s });
                Step::Done(CommandResult { response: Response::SuggestionCreated(id), events })
            },
            AfterPersistNed::Accepted { pages } => {
                self.ned_suggestions.insert(id.0.clone(), s);
                Step::Done(
                    CommandResult::ok_with_event(
                        ConductorEvent::SuggestionAccepted { id, file, pages },
                    ),
                )
            },
            AfterPersistNed::Rejected => {
                self.ned_suggestions.insert(id.0.clone(), s);
                Step::Done(
                    CommandResult::ok_with_event(ConductorEvent::SuggestionRejected { id, file }),
                )
            },
            AfterPersistNed::Staled { reason } => {
                self.ned_suggestions.insert(id.0.clone(), s);
                Step::Done(
                    CommandResult::ok_with_event(
                        ConductorEvent::NedSuggestionStaled { id, file, reason },
                    ),
                )
            },
        }
    }
}

/// To accept a suggestion on a passage of a slot edits the slot: the passage that was
/// searched for is replaced by the other, where it first occurs, and the rest of the text
/// stays.
pub proof fn law_accepted_passage_is_replaced(
    c: Conductor,
    suggestion: Suggestion,
    a: Seq<char>,
    b: Seq<char>,
    reading: SlotReading,
    r: Step,
)
    requires
        suggestion.target is SlotEdit,
        suggestion.target->SlotEdit_search@.len() > 0,
        reading is Text,
        reading->Text_0@ == a + suggestion.target->SlotEdit_search@ + b,
        forall|i: int|
            0 <= i < a.len() ==> !#[trigger] text::occurs_at(
                a + suggestion.target->SlotEdit_search@ + b,
                suggestion.target->SlotEdit_search@,
                i,
            ),
        slot_known(c, AfterSlot::Accept(suggestion), reading, r),
    ensures
        editing::starts_slot_edit(
            c,
            suggestion.file.0@,
            suggestion.target->SlotEdit_slot@,
            a + suggestion.target->SlotEdit_replace@ + b,
            SlotConsumer::Accept(suggestion),
            r,
        ),
{
    text::law_first_occurrence_is_replaced(
        a,
        suggestion.target->SlotEdit_search@,
        suggestion.target->SlotEdit_replace@,
        b,
    );
}

/// A suggestion on a passage keeps what is searched for and what takes its place, the
/// slot and the file of its draft, and is pending.
pub proof fn law_passage_suggestion_keeps_its_draft(
    suggestion: Suggestion,
    task: StampTask,
    id: SuggestionId,
    seconds: u64,
    draft: crate::steps::SlotDraft,
)
    requires
        task.draft == Draft::Slot(draft),
        is_made_of(suggestion, task, id, seconds),
    ensures
        suggestion.id == id,
        suggestion.status is Pending,
        suggestion.file == draft.file,
        suggestion.author == draft.author,
        suggestion.reason == draft.reason,
        draft.change is Passage ==> suggestion.target is SlotEdit
            && suggestion.target->SlotEdit_slot == draft.slot
            && suggestion.target->SlotEdit_search == draft.change->search
            && suggestion.target->SlotEdit_replace == draft.change->replace,
        draft.change is Value ==> suggestion.target is Slot && suggestion.target->Slot_slot
            == draft.slot && suggestion.target->proposed_value == draft.change->Value_0,
{
}

/// A passage can be suggested only where the text has it.
pub proof fn law_unknown_passages_are_refused(
    c: Conductor,
    draft: crate::steps::BodyDraft,
    source: Seq<char>,
    r: Step,
)
    requires
        text_known(c, AfterText::Suggest(Draft::Body(draft)), Some(source), r),
    ensures
        r is Stamp <==> exists|i: int| #[trigger] text::occurs_at(source, draft.search@, i),
        r is Stamp ==> r->Stamp_0.draft == Draft::Body(draft),
{
}

/// A suggestion that was kept is known by its id, and an event tells of it; other
/// suggestions stay as they are.
pub proof fn law_kept_suggestion_is_known(
    before: Conductor,
    task: PersistTask,
    after: Conductor,
    r: Step,
    other: Seq<char>,
)
    requires
        is_persisted(before, task, Ok(()), after, r),
        other != task.suggestion.id.0@,
    ensures
        table::found(after.suggestions@, task.suggestion.id.0@) == Some(task.suggestion),
        table::found(after.suggestions@, other) == table::found(before.suggestions@, other),
        r is Done,
        r->Done_0.events@.len() == 1,
        match task.next {
            AfterPersist::Created => r->Done_0.events@[0] is SuggestionCreated
                && r->Done_0.events@[0]->SuggestionCreated_suggestion == task.suggestion,
            AfterPersist::Accepted { pages } => r->Done_0.events@[0] is SuggestionAccepted
                && r->Done_0.events@[0]->SuggestionAccepted_id == task.suggestion.id
                && r->Done_0.events@[0]->SuggestionAccepted_pages == pages,
            AfterPersist::Rejected => r->Done_0.events@[0] is SuggestionRejected
                && r->Done_0.events@[0]->SuggestionRejected_id == task.suggestion.id,
        },
{
    table::law_entry_is_found(before.suggestions@, task.suggestion.id.0@, task.suggestion);
    table::law_entry_keeps_others(
        before.suggestions@,
        task.suggestion.id.0@,
        task.suggestion,
        other,
    );
}

/// A program suggestion that was kept is known by its id, the others stay as they were, and
/// what became of it is told.
pub proof fn law_kept_ned_suggestion_is_known(
    before: Conductor,
    task: crate::steps::PersistNedTask,
    after: Conductor,
    r: Step,
    other: Seq<char>,
)
    requires
        is_ned_persisted(before, task, Ok(()), after, r),
        other != task.suggestion.id.0@,
    ensures
        table::found(after.ned_suggestions@, task.suggestion.id.0@) == Some(task.suggestion),
        table::found(after.ned_suggestions@, other) == table::found(before.ned_suggestions@, other),
        after.suggestions == before.suggestions,
        after.store == before.store,
        r is Done,
        r->Done_0.events@.len() == 1,
        task.next is Created ==> r->Done_0.response is SuggestionCreated
            && r->Done_0.response->SuggestionCreated_0 == task.suggestion.id
            && r->Done_0.events@[0] is NedSuggestionCreated,
        task.next is Accepted ==> r->Done_0.response is Done
            && r->Done_0.events@[0] is SuggestionAccepted
            && r->Done_0.events@[0]->SuggestionAccepted_id == task.suggestion.id,
        task.next is Rejected ==> r->Done_0.response is Done
            && r->Done_0.events@[0] is SuggestionRejected
            && r->Done_0.events@[0]->SuggestionRejected_id == task.suggestion.id,
        task.next is Staled ==> r->Done_0.response is Done
            && r->Done_0.events@[0] is NedSuggestionStaled,
{
    table::law_entry_is_found(before.ned_suggestions@, task.suggestion.id.0@, task.suggestion);
    table::law_entry_keeps_others(
        before.ned_suggestions@,
        task.suggestion.id.0@,
        task.suggestion,
        other,
    );
}

/// A new suggestion that could not be kept is refused, and nothing changes.
pub proof fn law_unkept_suggestions_are_refused(
    before: Conductor,
    task: PersistTask,
    ned: crate::steps::PersistNedTask,
    message: String,
    after: Conductor,
    r: Step,
    ned_after: Conductor,
    ned_r: Step,
)
    requires
        task.next is Created,
        ned.next is Created,
        is_persisted(before, task, Err(message), after, r),
        is_ned_persisted(before, ned, Err(message), ned_after, ned_r),
    ensures
        after == before,
        ned_after == before,
        r is Done,
        r->Done_0.response is Error,
        r->Done_0.response->Error_0@ == "persist error: "@ + message@,
        ned_r is Done,
        ned_r->Done_0.response is Error,
        ned_r->Done_0.response->Error_0@ == "persist error: "@ + message@,
{
}

} // verus!
