//! How suggestions are listed, and how it is decided on them.

use vstd::prelude::*;

use crate::conductor::Conductor;
use crate::editing;
use crate::editing::accept_suggestion;
use crate::editorial::{
    NedSuggestion, NedSuggestionStatus, Suggestion, SuggestionId, SuggestionStatus,
    SuggestionTarget,
};
use crate::node_store::{NodeId, NodeStore};
use crate::path;
use crate::path::join_path;
use crate::protocol::{CommandResult, ConductorEvent};
use crate::ranked;
use crate::ranked::ranked_set;
use crate::rebuild;
use crate::rebuild::RenderOutcome;
use crate::site::{all_together, together};
use crate::steps::{
    AfterEvaluate, AfterPersist, AfterPersistNed, AfterText, NedOutcome, NedPurpose,
    PersistNedTask, PersistTask, RenderTask, Step,
};
use crate::suggesting;
use crate::table;
use crate::table::Table;
use crate::text;
use crate::text::same;

verus! {

/// Whether a suggestion is pending.
pub open spec fn is_pending(s: Suggestion) -> bool {
    s.status == SuggestionStatus::Pending
}

/// Whether a suggestion that is written as a program is pending.
pub open spec fn is_ned_pending(s: NedSuggestion) -> bool {
    s.status is Pending
}

/// Whether a suggestion that is written as a program still has to be looked at.
pub open spec fn is_ned_open(s: NedSuggestion) -> bool {
    s.status is Pending || s.status is Stale
}

/// The pending suggestions for a file, in the order of the table.
pub open spec fn pending_for(
    entries: Seq<(Seq<char>, Suggestion)>,
    file: Seq<char>,
) -> Seq<Suggestion>
    decreases entries.len(),
{
    if entries.len() == 0 {
        seq![]
    } else {
        let rest = pending_for(entries.drop_last(), file);
        let s = entries.last().1;
        if s.file.0@ == file && is_pending(s) {
            rest.push(s)
        } else {
            rest
        }
    }
}

/// The suggestions, written as programs, for a file, whatever has become of them.
pub open spec fn ned_for(
    entries: Seq<(Seq<char>, NedSuggestion)>,
    file: Seq<char>,
) -> Seq<NedSuggestion>
    decreases entries.len(),
{
    if entries.len() == 0 {
        seq![]
    } else {
        let rest = ned_for(entries.drop_last(), file);
        let s = entries.last().1;
        if s.file.0@ == file {
            rest.push(s)
        } else {
            rest
        }
    }
}

/// The files of the pending suggestions.
pub open spec fn pending_files(entries: Seq<(Seq<char>, Suggestion)>) -> Seq<Seq<char>>
    decreases entries.len(),
{
    if entries.len() == 0 {
        seq![]
    } else {
        let rest = pending_files(entries.drop_last());
        let s = entries.last().1;
        if is_pending(s) {
            rest.push(s.file.0@)
        } else {
            rest
        }
    }
}

/// The files of the suggestions, written as programs, that still have to be looked
/// at.
pub open spec fn open_ned_files(entries: Seq<(Seq<char>, NedSuggestion)>) -> Seq<Seq<char>>
    decreases entries.len(),
{
    if entries.len() == 0 {
        seq![]
    } else {
        let rest = open_ned_files(entries.drop_last());
        let s = entries.last().1;
        if is_ned_open(s) {
            rest.push(s.file.0@)
        } else {
            rest
        }
    }
}

/// Why it cannot be decided on a suggestion: there is none with that identity, or it
/// is not pending.
pub open spec fn undecidable(
    entries: Seq<(Seq<char>, Suggestion)>,
    id: Seq<char>,
) -> Option<Seq<char>> {
    match table::found(entries, id) {
        None => Some("suggestion not found: "@ + id),
        Some(s) => if is_pending(s) {
            None
        } else {
            Some("suggestion "@ + id + " is not pending"@)
        },
    }
}

/// The same for one that is written as a program.
pub open spec fn ned_undecidable(
    entries: Seq<(Seq<char>, NedSuggestion)>,
    id: Seq<char>,
) -> Option<Seq<char>> {
    match table::found(entries, id) {
        None => Some("ned suggestion not found: "@ + id),
        Some(s) => if is_ned_pending(s) {
            None
        } else {
            Some("ned suggestion "@ + id + " is not pending"@)
        },
    }
}

/// What accepting a suggestion starts with. Where the passage of a slot is to be
/// replaced, the text of the file is needed.
pub open spec fn starts_acceptance(c: Conductor, id: Seq<char>, r: Step) -> bool {
    match undecidable(c.suggestions@, id) {
        Some(e) => r.fails(e),
        None => {
            let s = table::found(c.suggestions@, id)->0;
            if s.target is SlotEdit {
                suggesting::wants_text(
                    c,
                    path::path_join(c.site_dir@, s.file.0@),
                    AfterText::Accept(s),
                    r,
                )
            } else {
                editing::accepts(s, seq![], r)
            }
        },
    }
}

/// What rejecting a suggestion starts with.
pub open spec fn starts_rejection(c: Conductor, id: Seq<char>, r: Step) -> bool {
    match undecidable(c.suggestions@, id) {
        Some(e) => r.fails(e),
        None => {
            &&& r matches Step::Persist(task)
            &&& task.suggestion == (Suggestion {
                status: SuggestionStatus::Rejected,
                ..table::found(c.suggestions@, id)->0
            })
            &&& task.next is Rejected
        },
    }
}

/// What accepting a suggestion that is written as a program starts with.
pub open spec fn starts_ned_acceptance(c: Conductor, id: Seq<char>, r: Step) -> bool {
    match ned_undecidable(c.ned_suggestions@, id) {
        Some(e) => r.fails(e),
        None => {
            let s = table::found(c.ned_suggestions@, id)->0;
            &&& r matches Step::Evaluate { program, next }
            &&& program == s.selection
            &&& next == AfterEvaluate::Accept(s)
        },
    }
}

/// What rejecting a suggestion that is written as a program starts with.
pub open spec fn starts_ned_rejection(c: Conductor, id: Seq<char>, r: Step) -> bool {
    match ned_undecidable(c.ned_suggestions@, id) {
        Some(e) => r.fails(e),
        None => {
            &&& r matches Step::PersistNed(task)
            &&& task.suggestion == (NedSuggestion {
                status: NedSuggestionStatus::Rejected,
                ..table::found(c.ned_suggestions@, id)->0
            })
            &&& task.next is Rejected
        },
    }
}

/// The table of the pending ones among the suggestions that were read from disk.
pub open spec fn adopted(loaded: Seq<Suggestion>) -> Seq<(Seq<char>, Suggestion)>
    decreases loaded.len(),
{
    if loaded.len() == 0 {
        seq![]
    } else {
        let rest = adopted(loaded.drop_last());
        let s = loaded.last();
        if is_pending(s) {
            table::with_entry(rest, s.id.0@, s)
        } else {
            rest
        }
    }
}

/// The table of the suggestions, written as programs, that were read from disk.
pub open spec fn ned_adopted(loaded: Seq<NedSuggestion>) -> Seq<(Seq<char>, NedSuggestion)>
    decreases loaded.len(),
{
    if loaded.len() == 0 {
        seq![]
    } else {
        let s = loaded.last();
        table::with_entry(ned_adopted(loaded.drop_last()), s.id.0@, s)
    }
}

/// Where the suggestions are kept.
pub open spec fn suggestion_dir(site_dir: Seq<char>) -> Seq<char> {
    path::path_join(path::path_join(site_dir, ".presemble"@), "suggestions"@)
}

/// Where the suggestions that are written as programs are kept.
pub open spec fn ned_dir(site_dir: Seq<char>) -> Seq<char> {
    path::path_join(suggestion_dir(site_dir), "ned"@)
}

/// The file that a suggestion is kept in.
pub open spec fn kept_in(dir: Seq<char>, id: Seq<char>) -> Seq<char> {
    path::path_join(dir, id + ".json"@)
}

/// The file that a suggestion is kept in.
pub fn suggestion_file(dir: &str, id: &SuggestionId) -> (r: String)
    ensures
        r@ == kept_in(dir@, id.0@),
{
    let name = together(id.0.as_str(), ".json");
    join_path(dir, name.as_str())
}

impl Conductor {
    /// Where the suggestions are kept.
    pub fn suggestions_dir(&self) -> (r: String)
        ensures
            r@ == suggestion_dir(self.site_dir@),
    {
        let dir = join_path(self.site_dir.as_str(), ".presemble");
        join_path(dir.as_str(), "suggestions")
    }

    /// Where the suggestions that are written as programs are kept.
    pub fn ned_suggestions_dir(&self) -> (r: String)
        ensures
            r@ == ned_dir(self.site_dir@),
    {
        let dir = self.suggestions_dir();
        join_path(dir.as_str(), "ned")
    }

    /// Take over the suggestions that were read from disk: those that are pending.
    pub fn load_suggestions(&mut self, loaded: Vec<Suggestion>)
        ensures
            final(self).suggestions@ == adopted(loaded@),
            *final(self) == (Conductor { suggestions: final(self).suggestions, ..*old(self) }),
    {
        let mut out: Table<String, Suggestion> = Table::new();
        let mut i: usize = 0;
        proof {
            assert(loaded@.take(0) =~= seq![]);
        }
        while i < loaded.len()
            invariant
                i <= loaded.len(),
                out@ == adopted(loaded@.take(i as int)),
            decreases loaded.len() - i,
        {
            proof {
                assert(loaded@.take(i + 1).drop_last() =~= loaded@.take(i as int));
                assert(loaded@.take(i + 1).last() == loaded@[i as int]);
            }
            if loaded[i].status == SuggestionStatus::Pending {
                out.insert(loaded[i].id.0.clone(), loaded[i].clone());
            }
            i += 1;
        }
        proof {
            assert(loaded@.take(i as int) =~= loaded@);
        }
        self.suggestions = out;
    }

    /// Take over the suggestions, written as programs, that were read from disk.
    pub fn load_ned_suggestions(&mut self, loaded: Vec<NedSuggestion>)
        ensures
            final(self).ned_suggestions@ == ned_adopted(loaded@),
            *final(self) == (Conductor {
                ned_suggestions: final(self).ned_suggestions,
                ..*old(self)
            }),
    {
        let mut out: Table<String, NedSuggestion> = Table::new();
        let mut i: usize = 0;
        proof {
            assert(loaded@.take(0) =~= seq![]);
        }
        while i < loaded.len()
            invariant
                i <= loaded.len(),
                out@ == ned_adopted(loaded@.take(i as int)),
            decreases loaded.len() - i,
        {
            proof {
                assert(loaded@.take(i + 1).drop_last() =~= loaded@.take(i as int));
                assert(loaded@.take(i + 1).last() == loaded@[i as int]);
            }
            out.insert(loaded[i].id.0.clone(), loaded[i].clone());
            i += 1;
        }
        proof {
            assert(loaded@.take(i as int) =~= loaded@);
        }
        self.ned_suggestions = out;
    }

    /// The pending suggestions for a file.
    pub fn get_suggestions(&self, file: &str) -> (r: Vec<Suggestion>)
        ensures
            r@ == pending_for(self.suggestions@, file@),
    {
        let ghost all = self.suggestions@;
        let mut out: Vec<Suggestion> = Vec::new();
        let mut i: usize = 0;
        proof {
            assert(all.take(0) =~= seq![]);
        }
        while i < self.suggestions.len()
            invariant
                i <= self.suggestions@.len(),
                all == self.suggestions@,
                out@ == pending_for(all.take(i as int), file@),
            decreases self.suggestions@.len() - i,
        {
            let s = &self.suggestions.entry(i).1;
            proof {
                assert(all.take(i + 1).drop_last() =~= all.take(i as int));
                assert(all.take(i + 1).last().1 == *s);
            }
            if same(s.file.as_str(), file) && s.status == SuggestionStatus::Pending {
                out.push(s.clone());
            }
            i += 1;
        }
        proof {
            assert(all.take(i as int) =~= all);
        }
        out
    }

    /// The suggestions, written as programs, for a file, whatever has become of them.
    pub fn get_ned_suggestions(&self, file: &str) -> (r: Vec<NedSuggestion>)
        ensures
            r@ == ned_for(self.ned_suggestions@, file@),
    {
        let ghost all = self.ned_suggestions@;
        let mut out: Vec<NedSuggestion> = Vec::new();
        let mut i: usize = 0;
        proof {
            assert(all.take(0) =~= seq![]);
        }
        while i < self.ned_suggestions.len()
            invariant
                i <= self.ned_suggestions@.len(),
                all == self.ned_suggestions@,
                out@ == ned_for(all.take(i as int), file@),
            decreases self.ned_suggestions@.len() - i,
        {
            let s = &self.ned_suggestions.entry(i).1;
            proof {
                assert(all.take(i + 1).drop_last() =~= all.take(i as int));
                assert(all.take(i + 1).last().1 == *s);
            }
            if same(s.file.as_str(), file) {
                out.push(s.clone());
            }
            i += 1;
        }
        proof {
            assert(all.take(i as int) =~= all);
        }
        out
    }

    /// The files with pending suggestions, sorted, each once.
    pub fn get_suggestion_files(&self) -> (r: Vec<String>)
        ensures
            ranked::in_rank::<String>(text::texts(r@)),
            text::texts(r@).to_set() == pending_files(self.suggestions@).to_set(),
    {
        let ghost all = self.suggestions@;
        let mut out: Vec<String> = Vec::new();
        let mut i: usize = 0;
        proof {
            assert(all.take(0) =~= seq![]);
            assert(text::texts(out@) =~= pending_files(all.take(0)));
        }
        while i < self.suggestions.len()
            invariant
                i <= self.suggestions@.len(),
                all == self.suggestions@,
                text::texts(out@) == pending_files(all.take(i as int)),
            decreases self.suggestions@.len() - i,
        {
            let s = &self.suggestions.entry(i).1;
            proof {
                assert(all.take(i + 1).drop_last() =~= all.take(i as int));
                assert(all.take(i + 1).last().1 == *s);
            }
            if s.status == SuggestionStatus::Pending {
                let ghost before = out@;
                out.push(s.file.0.clone());
                proof {
                    assert(text::texts(out@) =~= text::texts(before).push(s.file.0@));
                }
            }
            i += 1;
        }
        proof {
            assert(all.take(i as int) =~= all);
            assert(ranked::views(out@) =~= text::texts(out@));
        }
        let files = ranked_set(out);
        proof {
            assert(ranked::views(files@) =~= text::texts(files@));
        }
        files
    }

    /// The files with suggestions, written as programs, that are pending or stale,
    /// sorted, each once.
    pub fn get_ned_suggestion_files(&self) -> (r: Vec<String>)
        ensures
            ranked::in_rank::<String>(text::texts(r@)),
            text::texts(r@).to_set() == open_ned_files(self.ned_suggestions@).to_set(),
    {
        let ghost all = self.ned_suggestions@;
        let mut out: Vec<String> = Vec::new();
        let mut i: usize = 0;
        proof {
            assert(all.take(0) =~= seq![]);
            assert(text::texts(out@) =~= open_ned_files(all.take(0)));
        }
        while i < self.ned_suggestions.len()
            invariant
                i <= self.ned_suggestions@.len(),
                all == self.ned_suggestions@,
                text::texts(out@) == open_ned_files(all.take(i as int)),
            decreases self.ned_suggestions@.len() - i,
        {
            let s = &self.ned_suggestions.entry(i).1;
            proof {
                assert(all.take(i + 1).drop_last() =~= all.take(i as int));
                assert(all.take(i + 1).last().1 == *s);
            }
            let is_open = match &s.status {
                NedSuggestionStatus::Pending => true,
                NedSuggestionStatus::Stale { reason: _ } => true,
                _ => false,
            };
            if is_open {
                let ghost before = out@;
                out.push(s.file.0.clone());
                proof {
                    assert(text::texts(out@) =~= text::texts(before).push(s.file.0@));
                }
            }
            i += 1;
        }
        proof {
            assert(all.take(i as int) =~= all);
            assert(ranked::views(out@) =~= text::texts(out@));
        }
        let files = ranked_set(out);
        proof {
            assert(ranked::views(files@) =~= text::texts(files@));
        }
        files
    }

    /// The pending suggestion with the given identity.
    fn pending_suggestion(&self, id: &SuggestionId) -> (r: Result<Suggestion, String>)
        ensures
            match r {
                Ok(s) => undecidable(self.suggestions@, id.0@) is None && table::found(
                    self.suggestions@,
                    id.0@,
                ) == Some(s),
                Err(e) => undecidable(self.suggestions@, id.0@) == Some(e@),
            },
    {
        match self.suggestions.get(&id.0) {
            None => Err(together("suggestion not found: ", id.0.as_str())),
            Some(s) => {
                if s.status == SuggestionStatus::Pending {
                    Ok(s.clone())
                } else {
                    Err(all_together("suggestion ", id.0.as_str(), " is not pending"))
                }
            },
        }
    }

    /// The pending suggestion, written as a program, with the given identity.
    fn pending_ned_suggestion(&self, id: &SuggestionId) -> (r: Result<NedSuggestion, String>)
        ensures
            match r {
                Ok(s) => ned_undecidable(self.ned_suggestions@, id.0@) is None && table::found(
                    self.ned_suggestions@,
                    id.0@,
                ) == Some(s),
                Err(e) => ned_undecidable(self.ned_suggestions@, id.0@) == Some(e@),
            },
    {
        match self.ned_suggestions.get(&id.0) {
            None => Err(together("ned suggestion not found: ", id.0.as_str())),
            Some(s) => {
                if let NedSuggestionStatus::Pending = &s.status {
                    Ok(s.clone())
                } else {
                    Err(all_together("ned suggestion ", id.0.as_str(), " is not pending"))
                }
            },
        }
    }

    /// Accept a suggestion.
    pub fn accept(&self, id: &SuggestionId) -> (r: Step)
        ensures
            starts_acceptance(*self, id.0@, r),
    {
        match self.pending_suggestion(id) {
            Err(e) => Step::Done(CommandResult::error(e)),
            Ok(s) => {
                if let SuggestionTarget::SlotEdit { slot: _, search: _, replace: _ } = &s.target {
                    let file = s.file.resolve(self.site_dir.as_str());
                    self.document_text(file.as_str(), AfterText::Accept(s))
                } else {
                    let none: Vec<String> = Vec::new();
                    proof {
                        assert(text::texts(none@) =~= seq![]);
                    }
                    accept_suggestion(s, none)
                }
            },
        }
    }

    /// Reject a suggestion.
    pub fn reject(&self, id: &SuggestionId) -> (r: Step)
        ensures
            starts_rejection(*self, id.0@, r),
    {
        match self.pending_suggestion(id) {
            Err(e) => Step::Done(CommandResult::error(e)),
            Ok(s) => {
                let mut updated = s;
                updated.status = SuggestionStatus::Rejected;
                Step::Persist(PersistTask { suggestion: updated, next: AfterPersist::Rejected })
            },
        }
    }

    /// Accept a suggestion that is written as a program.
    pub fn accept_ned(&self, id: &SuggestionId) -> (r: Step)
        ensures
            starts_ned_acceptance(*self, id.0@, r),
    {
        match self.pending_ned_suggestion(id) {
            Err(e) => Step::Done(CommandResult::error(e)),
            Ok(s) => {
                let program = s.selection.clone();
                Step::Evaluate { program, next: AfterEvaluate::Accept(s) }
            },
        }
    }

    /// Reject a suggestion that is written as a program.
    pub fn reject_ned(&self, id: &SuggestionId) -> (r: Step)
        ensures
            starts_ned_rejection(*self, id.0@, r),
    {
        match self.pending_ned_suggestion(id) {
            Err(e) => Step::Done(CommandResult::error(e)),
            Ok(s) => {
                let mut updated = s;
                updated.status = NedSuggestionStatus::Rejected;
                Step::PersistNed(
                    PersistNedTask { suggestion: updated, next: AfterPersistNed::Rejected },
                )
            },
        }
    }
}

/// Whether every suggestion is found by its own identity, and by no other.
pub open spec fn is_keyed(entries: Seq<(Seq<char>, Suggestion)>) -> bool {
    &&& forall|k: int|
        0 <= k < entries.len() ==> (#[trigger] entries[k]).0 == entries[k].1.id.0@
    &&& forall|i: int, j: int|
        0 <= i < j < entries.len() ==> (#[trigger] entries[i]).0 != (#[trigger] entries[j]).0
}

/// A suggestion is listed for a file where an entry of the table holds it, it is for
/// that file, and it is pending.
proof fn lemma_pending_for(entries: Seq<(Seq<char>, Suggestion)>, file: Seq<char>, s: Suggestion)
    ensures
        pending_for(entries, file).contains(s) <==> s.file.0@ == file && is_pending(s) && exists|
            k: int,
        |
            0 <= k < entries.len() && (#[trigger] entries[k]).1 == s,
    decreases entries.len(),
{
    if entries.len() > 0 {
        let front = entries.drop_last();
        let rest = pending_for(front, file);
        let last = entries.last().1;
        lemma_pending_for(front, file, s);
        assert(forall|k: int| 0 <= k < front.len() ==> #[trigger] front[k] == entries[k]);
        if last.file.0@ == file && is_pending(last) {
            if last == s {
                assert(rest.push(last)[rest.len() as int] == s);
                assert(entries[entries.len() - 1].1 == s);
            } else {
                if rest.contains(s) {
                    let at = choose|i: int| 0 <= i < rest.len() && rest[i] == s;
                    assert(rest.push(last)[at] == s);
                }
                if rest.push(last).contains(s) {
                    let at = choose|i: int|
                        0 <= i < rest.push(last).len() && rest.push(last)[i] == s;
                    assert(rest[at] == s);
                }
            }
        }
        if s.file.0@ == file && is_pending(s) {
            if exists|k: int| 0 <= k < entries.len() && (#[trigger] entries[k]).1 == s {
                let k = choose|k: int| 0 <= k < entries.len() && (#[trigger] entries[k]).1 == s;
                if k < front.len() {
                    assert(front[k].1 == s);
                }
            }
        }
    }
}

/// A suggestion with a new identity, or one that takes the place of the suggestion
/// with its identity, leaves every suggestion to be found by its own identity.
pub proof fn law_keeping_keeps_keys(entries: Seq<(Seq<char>, Suggestion)>, s: Suggestion)
    requires
        is_keyed(entries),
    ensures
        is_keyed(table::with_entry(entries, s.id.0@, s)),
{
    let id = s.id.0@;
    let after = table::with_entry(entries, id, s);
    table::lemma_place_of(entries, id);
    let at = table::place_of(entries, id);
    assert forall|k: int| 0 <= k < after.len() implies (#[trigger] after[k]).0
        == after[k].1.id.0@ by {
        if k < entries.len() {
            assert(entries[k].0 == entries[k].1.id.0@);
        }
    }
    assert forall|i: int, j: int| 0 <= i < j < after.len() implies (#[trigger] after[i]).0 != (
    #[trigger] after[j]).0 by {
        assert(entries[i].0 != id || i == at);
        if j < entries.len() {
            assert(entries[i].0 != entries[j].0);
        }
    }
}

/// The suggestions that are read from disk are found by their identities.
pub proof fn law_adopted_suggestions_are_keyed(loaded: Seq<Suggestion>)
    ensures
        is_keyed(adopted(loaded)),
    decreases loaded.len(),
{
    if loaded.len() > 0 {
        law_adopted_suggestions_are_keyed(loaded.drop_last());
        law_keeping_keeps_keys(adopted(loaded.drop_last()), loaded.last());
    }
}

/// A new suggestion that was kept is listed for its file.
pub proof fn law_created_suggestion_is_listed(
    before: Conductor,
    task: PersistTask,
    after: Conductor,
    r: Step,
)
    requires
        task.next is Created,
        is_pending(task.suggestion),
        suggesting::is_persisted(before, task, Ok(()), after, r),
    ensures
        pending_for(after.suggestions@, task.suggestion.file.0@).contains(task.suggestion),
        pending_files(after.suggestions@).contains(task.suggestion.file.0@),
        undecidable(after.suggestions@, task.suggestion.id.0@) is None,
{
    let s = task.suggestion;
    let id = s.id.0@;
    let entries = before.suggestions@;
    table::lemma_place_of(entries, id);
    table::law_entry_is_found(entries, id, s);
    let at = table::place_of(entries, id);
    assert(after.suggestions@[at] == (id, s));
    lemma_pending_for(after.suggestions@, s.file.0@, s);
    lemma_pending_files(after.suggestions@, at);
}

/// The file of a pending suggestion is among the files with pending suggestions.
proof fn lemma_pending_files(entries: Seq<(Seq<char>, Suggestion)>, at: int)
    requires
        0 <= at < entries.len(),
        is_pending(entries[at].1),
    ensures
        pending_files(entries).contains(entries[at].1.file.0@),
    decreases entries.len(),
{
    let front = entries.drop_last();
    let rest = pending_files(front);
    let last = entries.last().1;
    if at == front.len() {
        assert(rest.push(last.file.0@)[rest.len() as int] == last.file.0@);
    } else {
        lemma_pending_files(front, at);
        let file = entries[at].1.file.0@;
        let i = choose|i: int| 0 <= i < rest.len() && rest[i] == file;
        if is_pending(last) {
            assert(rest.push(last.file.0@)[i] == file);
        } else {
            assert(rest[i] == file);
        }
    }
}

/// Once it was decided on a suggestion, whether that could be kept on disk or not,
/// it is no longer listed, and it can be neither accepted nor rejected again.
pub proof fn law_decided_only_once(
    before: Conductor,
    id: Seq<char>,
    decision: Step,
    task: PersistTask,
    result: Result<(), String>,
    after: Conductor,
    r: Step,
    file: Seq<char>,
    again: Step,
)
    requires
        is_keyed(before.suggestions@),
        undecidable(before.suggestions@, id) is None,
        starts_rejection(before, id, decision) || editing::accepts(
            table::found(before.suggestions@, id)->0,
            text::texts(task.next->pages@),
            decision,
        ),
        decision == Step::Persist(task),
        suggesting::is_persisted(before, task, result, after, r),
    ensures
        forall|s: Suggestion| #[trigger]
            pending_for(after.suggestions@, file).contains(s) ==> s.id.0@ != id,
        starts_acceptance(after, id, again) || starts_rejection(after, id, again) ==> again.fails(
            "suggestion "@ + id + " is not pending"@,
        ),
{
    let entries = before.suggestions@;
    let s = task.suggestion;
    table::lemma_place_of(entries, id);
    let at = table::place_of(entries, id);
    assert(entries[at].0 == entries[at].1.id.0@);
    assert(s.id.0@ == id);
    assert(!is_pending(s));
    table::law_entry_is_found(entries, id, s);
    law_keeping_keeps_keys(entries, s);
    let now = after.suggestions@;
    assert forall|p: Suggestion| #[trigger] pending_for(now, file).contains(p) implies p.id.0@
        != id by {
        lemma_pending_for(now, file, p);
        let k = choose|k: int| 0 <= k < now.len() && (#[trigger] now[k]).1 == p;
        assert(now[k].0 == p.id.0@);
        if p.id.0@ == id {
            assert(now[at] == (id, s));
            if k < at {
                assert(now[k].0 != now[at].0);
            } else if at < k {
                assert(now[at].0 != now[k].0);
            }
        }
    }
}

/// Whether every suggestion that is written as a program is found by its own
/// identity, and no two have the same.
pub open spec fn is_ned_keyed(entries: Seq<(Seq<char>, NedSuggestion)>) -> bool {
    &&& forall|k: int|
        0 <= k < entries.len() ==> (#[trigger] entries[k]).0 == entries[k].1.id.0@
    &&& forall|i: int, j: int|
        0 <= i < j < entries.len() ==> (#[trigger] entries[i]).0 != (#[trigger] entries[j]).0
}

/// A suggestion that is written as a program and is kept under its identity leaves
/// every such suggestion to be found by its own identity.
pub proof fn law_ned_keeping_keeps_keys(
    entries: Seq<(Seq<char>, NedSuggestion)>,
    s: NedSuggestion,
)
    requires
        is_ned_keyed(entries),
    ensures
        is_ned_keyed(table::with_entry(entries, s.id.0@, s)),
{
    let id = s.id.0@;
    let after = table::with_entry(entries, id, s);
    table::lemma_place_of(entries, id);
    let at = table::place_of(entries, id);
    assert forall|k: int| 0 <= k < after.len() implies (#[trigger] after[k]).0
        == after[k].1.id.0@ by {
        if k < entries.len() {
            assert(entries[k].0 == entries[k].1.id.0@);
        }
    }
    assert forall|i: int, j: int| 0 <= i < j < after.len() implies (#[trigger] after[i]).0 != (
    #[trigger] after[j]).0 by {
        assert(entries[i].0 != id || i == at);
        if j < entries.len() {
            assert(entries[i].0 != entries[j].0);
        }
    }
}

/// The suggestions that are written as programs and are read from disk are found by
/// their identities.
pub proof fn law_ned_adopted_suggestions_are_keyed(loaded: Seq<NedSuggestion>)
    ensures
        is_ned_keyed(ned_adopted(loaded)),
    decreases loaded.len(),
{
    if loaded.len() > 0 {
        law_ned_adopted_suggestions_are_keyed(loaded.drop_last());
        law_ned_keeping_keeps_keys(ned_adopted(loaded.drop_last()), loaded.last());
    }
}

/// A suggestion that is written as a program and is found in a table that is keyed
/// has the identity that it was found by.
proof fn lemma_ned_found_by_identity(entries: Seq<(Seq<char>, NedSuggestion)>, id: Seq<char>)
    requires
        is_ned_keyed(entries),
    ensures
        table::found(entries, id) matches Some(s) ==> s.id.0@ == id,
{
    table::lemma_place_of(entries, id);
    let at = table::place_of(entries, id);
    if at < entries.len() {
        assert(entries[at].0 == entries[at].1.id.0@);
    }
}

/// Once a suggestion that is written as a program was kept on disk, or could not be,
/// every such suggestion is found by its own identity, as before.
pub proof fn law_ned_suggestions_stay_keyed(
    before: Conductor,
    task: PersistNedTask,
    result: Result<(), String>,
    after: Conductor,
    r: Step,
)
    requires
        is_ned_keyed(before.ned_suggestions@),
        suggesting::is_ned_persisted(before, task, result, after, r),
    ensures
        is_ned_keyed(after.ned_suggestions@),
{
    law_ned_keeping_keeps_keys(before.ned_suggestions@, task.suggestion);
}

/// Once it was decided on a suggestion that is written as a program, or once it went
/// stale, it can be neither accepted nor rejected again.
pub proof fn law_ned_decided_only_once(
    before: Conductor,
    task: PersistNedTask,
    result: Result<(), String>,
    after: Conductor,
    r: Step,
    again: Step,
)
    requires
        !(task.next is Created),
        !is_ned_pending(task.suggestion),
        suggesting::is_ned_persisted(before, task, result, after, r),
    ensures
        ({
            let id = task.suggestion.id.0@;
            starts_ned_acceptance(after, id, again) || starts_ned_rejection(after, id, again)
                ==> again.fails("ned suggestion "@ + id + " is not pending"@)
        }),
{
    let s = task.suggestion;
    table::law_entry_is_found(before.ned_suggestions@, s.id.0@, s);
}

/// Rejecting a suggestion that is written as a program keeps it as rejected, tells
/// so, and changes nothing else.
pub proof fn law_ned_rejection(
    before: Conductor,
    id: Seq<char>,
    task: PersistNedTask,
    result: Result<(), String>,
    after: Conductor,
    r: Step,
    other: Seq<char>,
)
    requires
        is_ned_keyed(before.ned_suggestions@),
        ned_undecidable(before.ned_suggestions@, id) is None,
        starts_ned_rejection(before, id, Step::PersistNed(task)),
        suggesting::is_ned_persisted(before, task, result, after, r),
        other != id,
    ensures
        ({
            let s = table::found(before.ned_suggestions@, id)->0;
            &&& table::found(after.ned_suggestions@, id) == Some(
                NedSuggestion { status: NedSuggestionStatus::Rejected, ..s },
            )
            &&& r matches Step::Done(c)
            &&& c.response is Done
            &&& c.events@ == seq![ConductorEvent::SuggestionRejected { id: s.id, file: s.file }]
        }),
        table::found(after.ned_suggestions@, other) == table::found(before.ned_suggestions@, other),
        after == (Conductor { ned_suggestions: after.ned_suggestions, ..before }),
{
    let s = task.suggestion;
    lemma_ned_found_by_identity(before.ned_suggestions@, id);
    table::law_entry_is_found(before.ned_suggestions@, id, s);
    table::law_entry_keeps_others(before.ned_suggestions@, id, s, other);
    if let Step::Done(c) = r {
        assert(c.events@ =~= seq![ConductorEvent::SuggestionRejected { id: s.id, file: s.file }]);
    }
}

/// A suggestion that is written as a program and can no longer be applied is kept as
/// stale, with the reason, and that is told.
pub proof fn law_ned_staleness(
    before: Conductor,
    s: NedSuggestion,
    reason: Seq<char>,
    task: PersistNedTask,
    result: Result<(), String>,
    after: Conductor,
    r: Step,
)
    requires
        editing::goes_stale(s, reason, Step::PersistNed(task)),
        suggesting::is_ned_persisted(before, task, result, after, r),
    ensures
        table::found(after.ned_suggestions@, s.id.0@) matches Some(kept) && (
        kept.status matches NedSuggestionStatus::Stale { reason: why } && why@ == reason) && kept
            == (NedSuggestion { status: kept.status, ..s }),
        r matches Step::Done(c) && c.events@.len() == 1 && (
        c.events@[0] matches ConductorEvent::NedSuggestionStaled { id, file, reason: why }
            && id == s.id && file == s.file && why@ == reason),
        after == (Conductor { ned_suggestions: after.ned_suggestions, ..before }),
{
    table::law_entry_is_found(before.ned_suggestions@, s.id.0@, task.suggestion);
}

/// Accepting a suggestion that is written as a program, from the command to its
/// result: where its selection is what it was made for and the program that it
/// makes selects nodes of documents, these documents count as changed, their pages
/// are rendered, the suggestion is kept as accepted, and that is told with the pages
/// that were rebuilt. Nothing else that the conductor keeps changes.
pub proof fn law_ned_acceptance(
    before: Conductor,
    id: Seq<char>,
    s: NedSuggestion,
    program: String,
    found: NedOutcome,
    found_store: NodeStore,
    checked: Conductor,
    nodes: Vec<NodeId>,
    run_store: NodeStore,
    run: Conductor,
    render: RenderTask,
    outcomes: Seq<RenderOutcome>,
    shown_store: NodeStore,
    shown: Conductor,
    task: PersistNedTask,
    result: Result<(), String>,
    after: Conductor,
    r: Step,
    p: Seq<Seq<char>>,
    other: Seq<char>,
)
    requires
        table::found(before.ned_suggestions@, id) == Some(s),
        is_ned_pending(s),
        is_ned_keyed(before.ned_suggestions@),
        starts_ned_acceptance(
            before,
            id,
            Step::Evaluate { program, next: AfterEvaluate::Accept(s) },
        ),
        editing::is_evaluated(
            before,
            AfterEvaluate::Accept(s),
            found_store,
            found,
            checked,
            Step::Compose(s),
        ),
        editing::is_evaluated(
            checked,
            AfterEvaluate::Apply(NedPurpose::Accept(s)),
            run_store,
            NedOutcome::Selected(nodes),
            run,
            Step::RenderPages(render),
        ),
        editing::is_rendered(
            run,
            render,
            shown_store,
            outcomes,
            shown,
            Step::PersistNed(task),
        ),
        suggesting::is_ned_persisted(shown, task, result, after, r),
        other != id,
    ensures
        editing::staleness(s.mutation, found) is None,
        table::found(after.ned_suggestions@, id) == Some(
            NedSuggestion { status: NedSuggestionStatus::Accepted, ..s },
        ),
        table::found(after.ned_suggestions@, other) == table::found(before.ned_suggestions@, other),
        after.dirty_docs@.contains_key(p) <==> before.dirty_docs@.contains_key(p) || editing::paths_of(
            editing::files_of_selection(run_store, nodes@),
        ).contains(p),
        after == (Conductor {
            store: shown_store,
            dirty_docs: after.dirty_docs,
            ned_suggestions: after.ned_suggestions,
            ..before
        }),
        r matches Step::Done(c) && c.response is Done && c.events@.len() == 1 && (
        c.events@[0] matches ConductorEvent::SuggestionAccepted { id: told, file, pages } && told
            == s.id && file == s.file && text::texts(pages@) == rebuild::rebuilt_pages(
            rebuild::plan_views(render.next->Applied_plans@),
            outcomes,
            render.next->Applied_plans@.len() as int,
        )),
{
    lemma_ned_found_by_identity(before.ned_suggestions@, id);
    editing::law_program_marks_its_documents(
        checked,
        NedPurpose::Accept(s),
        run_store,
        nodes,
        run,
        Step::RenderPages(render),
        p,
    );
    table::law_entry_is_found(before.ned_suggestions@, id, task.suggestion);
    table::law_entry_keeps_others(before.ned_suggestions@, id, task.suggestion, other);
    assert(render.next is Applied);
}

/// The suggestions that are listed for a file are those for it that are pending.
pub proof fn law_listed_suggestions_are_pending(
    entries: Seq<(Seq<char>, Suggestion)>,
    file: Seq<char>,
    s: Suggestion,
)
    ensures
        pending_for(entries, file).contains(s) <==> s.file.0@ == file && s.status
            == SuggestionStatus::Pending && exists|k: int|
            0 <= k < entries.len() && (#[trigger] entries[k]).1 == s,
    decreases entries.len(),
{
    if entries.len() > 0 {
        let front = entries.drop_last();
        let rest = pending_for(front, file);
        let all = pending_for(entries, file);
        law_listed_suggestions_are_pending(front, file, s);
        let last = entries.len() - 1;
        assert(entries[last] == entries.last());
        if rest.contains(s) {
            let i = choose|i: int| 0 <= i < rest.len() && rest[i] == s;
            assert(all[i] == s);
            let k = choose|k: int| 0 <= k < front.len() && (#[trigger] front[k]).1 == s;
            assert(entries[k] == front[k]);
        }
        if all.len() > rest.len() {
            assert(all[rest.len() as int] == entries.last().1);
            if all.contains(s) && !rest.contains(s) {
                let i = choose|i: int| 0 <= i < all.len() && all[i] == s;
                if i < rest.len() {
                    assert(rest[i] == s);
                }
                assert(entries[last].1 == s);
            }
        }
        if exists|k: int| 0 <= k < entries.len() && (#[trigger] entries[k]).1 == s {
            let k = choose|k: int| 0 <= k < entries.len() && (#[trigger] entries[k]).1 == s;
            if k < last {
                assert(front[k] == entries[k]);
            }
        }
    }
}

/// The program suggestions that are listed for a file are all those for it.
pub proof fn law_listed_ned_suggestions_are_those_of_the_file(
    entries: Seq<(Seq<char>, NedSuggestion)>,
    file: Seq<char>,
    s: NedSuggestion,
)
    ensures
        ned_for(entries, file).contains(s) <==> s.file.0@ == file && exists|k: int|
            0 <= k < entries.len() && (#[trigger] entries[k]).1 == s,
    decreases entries.len(),
{
    if entries.len() > 0 {
        let front = entries.drop_last();
        let rest = ned_for(front, file);
        let all = ned_for(entries, file);
        law_listed_ned_suggestions_are_those_of_the_file(front, file, s);
        let last = entries.len() - 1;
        assert(entries[last] == entries.last());
        if rest.contains(s) {
            let i = choose|i: int| 0 <= i < rest.len() && rest[i] == s;
            assert(all[i] == s);
            let k = choose|k: int| 0 <= k < front.len() && (#[trigger] front[k]).1 == s;
            assert(entries[k] == front[k]);
        }
        if all.len() > rest.len() {
            assert(all[rest.len() as int] == entries.last().1);
            if all.contains(s) && !rest.contains(s) {
                let i = choose|i: int| 0 <= i < all.len() && all[i] == s;
                if i < rest.len() {
                    assert(rest[i] == s);
                }
                assert(entries[last].1 == s);
            }
        }
        if exists|k: int| 0 <= k < entries.len() && (#[trigger] entries[k]).1 == s {
            let k = choose|k: int| 0 <= k < entries.len() && (#[trigger] entries[k]).1 == s;
            if k < last {
                assert(front[k] == entries[k]);
            }
        }
    }
}

/// The files with suggestions are those of pending ones.
pub proof fn law_suggestion_files_have_pending_ones(
    entries: Seq<(Seq<char>, Suggestion)>,
    file: Seq<char>,
)
    ensures
        pending_files(entries).contains(file) <==> exists|k: int|
            0 <= k < entries.len() && (#[trigger] entries[k]).1.file.0@ == file
                && entries[k].1.status == SuggestionStatus::Pending,
    decreases entries.len(),
{
    if entries.len() > 0 {
        let front = entries.drop_last();
        let rest = pending_files(front);
        let all = pending_files(entries);
        law_suggestion_files_have_pending_ones(front, file);
        let last = entries.len() - 1;
        assert(entries[last] == entries.last());
        if rest.contains(file) {
            let i = choose|i: int| 0 <= i < rest.len() && rest[i] == file;
            assert(all[i] == file);
            let k = choose|k: int|
                0 <= k < front.len() && (#[trigger] front[k]).1.file.0@ == file
                    && front[k].1.status == SuggestionStatus::Pending;
            assert(entries[k] == front[k]);
        }
        if all.len() > rest.len() {
            assert(all[rest.len() as int] == entries.last().1.file.0@);
            if all.contains(file) && !rest.contains(file) {
                let i = choose|i: int| 0 <= i < all.len() && all[i] == file;
                if i < rest.len() {
                    assert(rest[i] == file);
                }
                assert(entries[last].1.file.0@ == file);
            }
        }
        if exists|k: int|
            0 <= k < entries.len() && (#[trigger] entries[k]).1.file.0@ == file
                && entries[k].1.status == SuggestionStatus::Pending {
            let k = choose|k: int|
                0 <= k < entries.len() && (#[trigger] entries[k]).1.file.0@ == file
                    && entries[k].1.status == SuggestionStatus::Pending;
            if k < last {
                assert(front[k] == entries[k]);
            }
        }
    }
}

/// The files with program suggestions are those of pending and of stale ones.
pub proof fn law_ned_suggestion_files_have_open_ones(
    entries: Seq<(Seq<char>, NedSuggestion)>,
    file: Seq<char>,
)
    ensures
        open_ned_files(entries).contains(file) <==> exists|k: int|
            0 <= k < entries.len() && (#[trigger] entries[k]).1.file.0@ == file && (
            entries[k].1.status is Pending || entries[k].1.status is Stale),
    decreases entries.len(),
{
    if entries.len() > 0 {
        let front = entries.drop_last();
        let rest = open_ned_files(front);
        let all = open_ned_files(entries);
        law_ned_suggestion_files_have_open_ones(front, file);
        let last = entries.len() - 1;
        assert(entries[last] == entries.last());
        if rest.contains(file) {
            let i = choose|i: int| 0 <= i < rest.len() && rest[i] == file;
            assert(all[i] == file);
            let k = choose|k: int|
                0 <= k < front.len() && (#[trigger] front[k]).1.file.0@ == file && (
                front[k].1.status is Pending || front[k].1.status is Stale);
            assert(entries[k] == front[k]);
        }
        if all.len() > rest.len() {
            assert(all[rest.len() as int] == entries.last().1.file.0@);
            if all.contains(file) && !rest.contains(file) {
                let i = choose|i: int| 0 <= i < all.len() && all[i] == file;
                if i < rest.len() {
                    assert(rest[i] == file);
                }
                assert(entries[last].1.file.0@ == file);
            }
        }
        if exists|k: int|
            0 <= k < entries.len() && (#[trigger] entries[k]).1.file.0@ == file && (
            entries[k].1.status is Pending || entries[k].1.status is Stale) {
            let k = choose|k: int|
                0 <= k < entries.len() && (#[trigger] entries[k]).1.file.0@ == file && (
                entries[k].1.status is Pending || entries[k].1.status is Stale);
            if k < last {
                assert(front[k] == entries[k]);
            }
        }
    }
}

/// A suggestion that is loaded is known by its id: where it is pending and no later one
/// has the id. Suggestions that were decided are left out.
pub proof fn law_loaded_suggestions_are_known(loaded: Seq<Suggestion>, k: int, id: Seq<char>)
    ensures
        0 <= k < loaded.len() && loaded[k].status == SuggestionStatus::Pending && (forall|j: int|
            k < j < loaded.len() ==> (#[trigger] loaded[j]).id.0@ != loaded[k].id.0@)
            ==> table::found(adopted(loaded), loaded[k].id.0@) == Some(loaded[k]),
        (forall|j: int|
            0 <= j < loaded.len() && (#[trigger] loaded[j]).id.0@ == id ==> loaded[j].status
                != SuggestionStatus::Pending) ==> table::found(adopted(loaded), id) is None,
    decreases loaded.len(),
{
    if loaded.len() > 0 {
        let front = loaded.drop_last();
        let rest = adopted(front);
        let s = loaded.last();
        law_loaded_suggestions_are_known(front, k, id);
        table::law_entry_is_found(rest, s.id.0@, s);
        assert(loaded[loaded.len() - 1] == s);
        assert forall|j: int| 0 <= j < front.len() implies #[trigger] front[j] == loaded[j] by {}
        if 0 <= k < front.len() && loaded[k].status == SuggestionStatus::Pending && forall|j: int|
            k < j < loaded.len() ==> (#[trigger] loaded[j]).id.0@ != loaded[k].id.0@ {
            assert(s.id.0@ != loaded[k].id.0@);
            assert forall|j: int| k < j < front.len() implies (#[trigger] front[j]).id.0@
                != front[k].id.0@ by {
                assert(loaded[j].id.0@ != loaded[k].id.0@);
            }
            table::law_entry_keeps_others(rest, s.id.0@, s, loaded[k].id.0@);
        }
        if forall|j: int|
            0 <= j < loaded.len() && (#[trigger] loaded[j]).id.0@ == id ==> loaded[j].status
                != SuggestionStatus::Pending {
            assert forall|j: int|
                0 <= j < front.len() && (#[trigger] front[j]).id.0@ == id implies front[j].status
                != SuggestionStatus::Pending by {
                assert(loaded[j].id.0@ == id);
            }
            if is_pending(s) {
                assert(s.id.0@ != id);
                table::law_entry_keeps_others(rest, s.id.0@, s, id);
            }
        }
    } else {
        assert(table::found(adopted(loaded), id) is None);
    }
}

/// A program suggestion that is loaded is known by its id, decided or not, where no later
/// one has the id.
pub proof fn law_loaded_ned_suggestions_are_known(loaded: Seq<NedSuggestion>, k: int)
    requires
        0 <= k < loaded.len(),
        forall|j: int| k < j < loaded.len() ==> (#[trigger] loaded[j]).id.0@ != loaded[k].id.0@,
    ensures
        table::found(ned_adopted(loaded), loaded[k].id.0@) == Some(loaded[k]),
    decreases loaded.len(),
{
    let front = loaded.drop_last();
    let rest = ned_adopted(front);
    let s = loaded.last();
    table::law_entry_is_found(rest, s.id.0@, s);
    if k < front.len() {
        assert(loaded[loaded.len() - 1] == s);
        assert(s.id.0@ != loaded[k].id.0@);
        assert forall|j: int| k < j < front.len() implies (#[trigger] front[j]).id.0@
            != front[k].id.0@ by {
            assert(loaded[j].id.0@ != loaded[k].id.0@);
        }
        law_loaded_ned_suggestions_are_known(front, k);
        table::law_entry_keeps_others(rest, s.id.0@, s, loaded[k].id.0@);
    }
}

/// Only a suggestion that is known and pending can be decided.
pub proof fn law_only_pending_suggestions_are_decided(
    entries: Seq<(Seq<char>, Suggestion)>,
    neds: Seq<(Seq<char>, NedSuggestion)>,
    id: Seq<char>,
)
    ensures
        undecidable(entries, id) is None <==> table::found(entries, id) is Some && table::found(
            entries,
            id,
        )->0.status == SuggestionStatus::Pending,
        ned_undecidable(neds, id) is None <==> table::found(neds, id) is Some && table::found(
            neds,
            id,
        )->0.status is Pending,
{
}

/// Suggestions are kept in a directory of their own in the site, each in a file that is
/// named after its id, and program suggestions in a directory below it.
pub proof fn law_places_of_suggestions(site_dir: Seq<char>, id: Seq<char>)
    requires
        site_dir.len() > 0,
        crate::site::is_plain_name(id),
    ensures
        path::components_of(suggestion_dir(site_dir)) == path::components_of(site_dir) + seq![
            ".presemble"@,
            "suggestions"@,
        ],
        path::components_of(ned_dir(site_dir)) == path::components_of(site_dir) + seq![
            ".presemble"@,
            "suggestions"@,
            "ned"@,
        ],
        path::components_of(kept_in(site_dir, id)) == path::components_of(site_dir) + seq![
            id + ".json"@,
        ],
{
    reveal_strlit(".presemble");
    reveal_strlit("suggestions");
    reveal_strlit("ned");
    reveal_strlit(".json");
    reveal_strlit(".");
    assert("."@.len() == 1);
    let outer = path::path_join(site_dir, ".presemble"@);
    crate::site::lemma_joined_name(site_dir, ".presemble"@);
    crate::site::lemma_joined_name(outer, "suggestions"@);
    crate::site::lemma_joined_name(suggestion_dir(site_dir), "ned"@);
    let name = id + ".json"@;
    assert(!name.contains('/')) by {
        if name.contains('/') {
            let k = choose|k: int| 0 <= k < name.len() && name[k] == '/';
            if k < id.len() {
                assert(id[k] == '/');
            }
        }
    }
    crate::site::lemma_joined_name(site_dir, name);
    let base = path::components_of(site_dir);
    assert(path::components_of(suggestion_dir(site_dir)) =~= base + seq![
        ".presemble"@,
        "suggestions"@,
    ]);
    assert(path::components_of(ned_dir(site_dir)) =~= base + seq![
        ".presemble"@,
        "suggestions"@,
        "ned"@,
    ]);
}

/// A pending suggestion on a passage of a slot is accepted with the text of its file, any
/// other pending one at once. What is not pending is not accepted, and neither is rejected.
pub proof fn law_what_acceptance_starts_with(c: Conductor, id: Seq<char>, r: Step)
    requires
        starts_acceptance(c, id, r),
    ensures
        ({
            let s = table::found(c.suggestions@, id);
            &&& s is None || !is_pending(s->0) ==> r is Done && r->Done_0.response is Error
            &&& s is Some && is_pending(s->0) && !(s->0.target is SlotEdit) ==> {
                &&& r is Persist
                &&& r->Persist_0.suggestion == (Suggestion {
                    status: SuggestionStatus::Accepted,
                    ..s->0
                })
                &&& r->Persist_0.next is Accepted
            }
            &&& s is Some && is_pending(s->0) && s->0.target is SlotEdit
                && crate::pages::unsaved(c, path::path_join(c.site_dir@, s->0.file.0@)) is None
                ==> {
                &&& r is ReadFile
                &&& r->ReadFile_path@ == path::path_join(c.site_dir@, s->0.file.0@)
                &&& r->ReadFile_next is Accept
            }
        }),
{
}

/// A pending suggestion is rejected by keeping it as rejected, and changed in nothing else.
pub proof fn law_what_rejection_starts_with(c: Conductor, id: Seq<char>, r: Step, ned: Step)
    requires
        starts_rejection(c, id, r),
        starts_ned_rejection(c, id, ned),
    ensures
        ({
            let s = table::found(c.suggestions@, id);
            let n = table::found(c.ned_suggestions@, id);
            &&& s is None || !is_pending(s->0) ==> r is Done && r->Done_0.response is Error
            &&& s is Some && is_pending(s->0) ==> {
                &&& r is Persist
                &&& r->Persist_0.suggestion.status == SuggestionStatus::Rejected
                &&& r->Persist_0.suggestion.id == s->0.id
                &&& r->Persist_0.suggestion.file == s->0.file
                &&& r->Persist_0.suggestion.target == s->0.target
                &&& r->Persist_0.next is Rejected
            }
            &&& n is None || !(n->0.status is Pending) ==> ned is Done && ned->Done_0.response is Error
            &&& n is Some && n->0.status is Pending ==> {
                &&& ned is PersistNed
                &&& ned->PersistNed_0.suggestion.status is Rejected
                &&& ned->PersistNed_0.suggestion.id == n->0.id
                &&& ned->PersistNed_0.suggestion.file == n->0.file
                &&& ned->PersistNed_0.next is Rejected
            }
        }),
{
}

} // verus!
