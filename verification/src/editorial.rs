//! Editorial suggestions: changes to content that are proposed, and accepted or
//! rejected later.

use vstd::prelude::*;

use crate::path;
use crate::path::join_path;
use crate::schema::SlotName;
use crate::text;

verus! {

/// Who proposes a change.
#[derive(Debug, PartialEq, Eq)]
pub enum Author {
    Claude,
    Human(String),
}

impl Clone for Author {
    fn clone(&self) -> (r: Self)
        ensures
            r == *self,
    {
        match self {
            Author::Claude => Author::Claude,
            Author::Human(name) => Author::Human(name.clone()),
        }
    }
}

/// The identity of a suggestion.
#[derive(Debug, PartialEq, Eq)]
pub struct SuggestionId(pub String);

impl Clone for SuggestionId {
    fn clone(&self) -> (r: Self)
        ensures
            r == *self,
    {
        SuggestionId(self.0.clone())
    }
}

/// The path of a content file, relative to the site.
#[derive(Debug, PartialEq, Eq)]
pub struct ContentPath(pub String);

impl Clone for ContentPath {
    fn clone(&self) -> (r: Self)
        ensures
            r == *self,
    {
        ContentPath(self.0.clone())
    }
}

impl ContentPath {
    /// The path that is written as given.
    pub fn new(path: &str) -> (r: ContentPath)
        ensures
            r.0@ == path@,
    {
        ContentPath(path.to_owned())
    }

    /// The path as it is written.
    pub fn as_str(&self) -> (r: &str)
        ensures
            r@ == self.0@,
    {
        self.0.as_str()
    }

    /// Where the file lies.
    pub fn resolve(&self, site_dir: &str) -> (r: String)
        ensures
            r@ == path::path_join(site_dir@, self.0@),
    {
        join_path(site_dir, self.0.as_str())
    }
}

/// What a suggestion changes.
#[derive(Debug, PartialEq, Eq)]
pub enum SuggestionTarget {
    /// The whole value of a slot.
    Slot { slot: SlotName, proposed_value: String },
    /// A passage of the text.
    BodyText { search: String, replace: String },
    /// A passage of the value of a slot.
    SlotEdit { slot: SlotName, search: String, replace: String },
}

impl Clone for SuggestionTarget {
    fn clone(&self) -> (r: Self)
        ensures
            r == *self,
    {
        match self {
            SuggestionTarget::Slot { slot, proposed_value } => SuggestionTarget::Slot {
                slot: slot.clone(),
                proposed_value: proposed_value.clone(),
            },
            SuggestionTarget::BodyText { search, replace } => SuggestionTarget::BodyText {
                search: search.clone(),
                replace: replace.clone(),
            },
            SuggestionTarget::SlotEdit { slot, search, replace } => SuggestionTarget::SlotEdit {
                slot: slot.clone(),
                search: search.clone(),
                replace: replace.clone(),
            },
        }
    }
}

/// What has become of a suggestion.
#[derive(Debug, Clone, Copy, PartialEq, Eq, Structural)]
pub enum SuggestionStatus {
    Pending,
    Accepted,
    Rejected,
}

/// A change to a content file that is proposed.
#[derive(Debug, PartialEq, Eq)]
pub struct Suggestion {
    pub id: SuggestionId,
    pub author: Author,
    pub file: ContentPath,
    pub target: SuggestionTarget,
    pub reason: String,
    pub status: SuggestionStatus,
    pub original_value: Option<String>,
    pub created_at: String,
}

/// A copy of an optional string.
pub fn copy_text(o: &Option<String>) -> (r: Option<String>)
    ensures
        r == *o,
{
    match o {
        Some(s) => Some(s.clone()),
        None => None,
    }
}

impl Clone for Suggestion {
    fn clone(&self) -> (r: Self)
        ensures
            r == *self,
    {
        Suggestion {
            id: self.id.clone(),
            author: self.author.clone(),
            file: self.file.clone(),
            target: self.target.clone(),
            reason: self.reason.clone(),
            status: self.status,
            original_value: copy_text(&self.original_value),
            created_at: self.created_at.clone(),
        }
    }
}

/// A change to the nodes that a selection finds.
#[derive(Debug, PartialEq, Eq)]
pub enum NedMutation {
    SetText(String),
    Delete,
    SearchReplace { search: String, replace: String },
    /// Any other change, as it is written in a program.
    Other(String),
}

impl NedMutation {
    /// Whether the change is meant for one node alone.
    pub open spec fn is_single(self) -> bool {
        self !is Other
    }

    /// Whether the change is meant for one node alone.
    pub fn is_single_target(&self) -> (r: bool)
        ensures
            r == self.is_single(),
    {
        match self {
            NedMutation::SetText(_) => true,
            NedMutation::Delete => true,
            NedMutation::SearchReplace { search: _, replace: _ } => true,
            NedMutation::Other(_) => false,
        }
    }
}

impl Clone for NedMutation {
    fn clone(&self) -> (r: Self)
        ensures
            r == *self,
    {
        match self {
            NedMutation::SetText(s) => NedMutation::SetText(s.clone()),
            NedMutation::Delete => NedMutation::Delete,
            NedMutation::SearchReplace { search, replace } => NedMutation::SearchReplace {
                search: search.clone(),
                replace: replace.clone(),
            },
            NedMutation::Other(s) => NedMutation::Other(s.clone()),
        }
    }
}

/// What has become of a suggestion that is written as a program.
#[derive(Debug, PartialEq, Eq)]
pub enum NedSuggestionStatus {
    Pending,
    Accepted,
    Rejected,
    /// It could no longer be applied.
    Stale { reason: String },
}

impl Clone for NedSuggestionStatus {
    fn clone(&self) -> (r: Self)
        ensures
            r == *self,
    {
        match self {
            NedSuggestionStatus::Pending => NedSuggestionStatus::Pending,
            NedSuggestionStatus::Accepted => NedSuggestionStatus::Accepted,
            NedSuggestionStatus::Rejected => NedSuggestionStatus::Rejected,
            NedSuggestionStatus::Stale { reason } => NedSuggestionStatus::Stale {
                reason: reason.clone(),
            },
        }
    }
}

/// A change that is proposed as a selection of nodes and what to do with them.
#[derive(Debug, PartialEq, Eq)]
pub struct NedSuggestion {
    pub id: SuggestionId,
    pub author: Author,
    pub file: ContentPath,
    pub selection: String,
    pub mutation: NedMutation,
    pub workspace_hash: String,
    pub reason: String,
    pub status: NedSuggestionStatus,
    pub created_at: String,
}

impl Clone for NedSuggestion {
    fn clone(&self) -> (r: Self)
        ensures
            r == *self,
    {
        NedSuggestion {
            id: self.id.clone(),
            author: self.author.clone(),
            file: self.file.clone(),
            selection: self.selection.clone(),
            mutation: self.mutation.clone(),
            workspace_hash: self.workspace_hash.clone(),
            reason: self.reason.clone(),
            status: self.status.clone(),
            created_at: self.created_at.clone(),
        }
    }
}

/// A slot as a page shows it.
#[derive(Debug, PartialEq, Eq)]
pub enum SlotReading {
    Text(String),
    /// The items of the slot; those that are no texts are not told apart.
    List(Vec<Option<String>>),
    /// The slot is absent, or neither a text nor a list.
    Other,
}

/// The texts among the items of a list, in order.
pub open spec fn texts_among(items: Seq<Option<String>>) -> Seq<Seq<char>>
    decreases items.len(),
{
    if items.len() == 0 {
        seq![]
    } else {
        match items.last() {
            Some(s) => texts_among(items.drop_last()).push(s@),
            None => texts_among(items.drop_last()),
        }
    }
}

/// The value of a slot: its text, or the texts of its items with a separator
/// between them.
pub open spec fn slot_value(reading: SlotReading, separator: Seq<char>) -> Option<Seq<char>> {
    match reading {
        SlotReading::Text(s) => Some(s@),
        SlotReading::List(items) => if texts_among(items@).len() == 0 {
            None
        } else {
            Some(text::joined(texts_among(items@), separator))
        },
        SlotReading::Other => None,
    }
}

/// The value of a slot: its text, or the texts of its items with a separator
/// between them.
pub fn value_of_slot(reading: &SlotReading, separator: &str) -> (r: Option<String>)
    ensures
        text::opt_text(r) == slot_value(*reading, separator@),
{
    match reading {
        SlotReading::Text(s) => Some(s.clone()),
        SlotReading::Other => None,
        SlotReading::List(items) => {
            let mut found: Vec<String> = Vec::new();
            let mut i: usize = 0;
            proof {
                assert(items@.take(0) =~= Seq::empty());
                assert(text::texts(found@) =~= texts_among(items@.take(0)));
            }
            while i < items.len()
                invariant
                    i <= items.len(),
                    text::texts(found@) == texts_among(items@.take(i as int)),
                decreases items.len() - i,
            {
                proof {
                    assert(items@.take(i + 1).drop_last() =~= items@.take(i as int));
                    assert(items@.take(i + 1).last() == items@[i as int]);
                }
                if let Some(s) = &items[i] {
                    let ghost before = found@;
                    found.push(s.clone());
                    proof {
                        assert(text::texts(found@) =~= text::texts(before).push(s@));
                    }
                }
                i += 1;
            }
            proof {
                assert(items@.take(i as int) =~= items@);
                assert(text::texts(found@).len() == found@.len());
            }
            if found.len() == 0 {
                None
            } else {
                Some(text::join(&found, separator))
            }
        },
    }
}

/// The texts among items are those that are there, in order.
pub proof fn law_texts_keep_their_order(a: Seq<Option<String>>, b: Seq<Option<String>>)
    ensures
        texts_among(a + b) == texts_among(a) + texts_among(b),
    decreases b.len(),
{
    if b.len() == 0 {
        assert(a + b =~= a);
        assert(texts_among(a) + texts_among(b) =~= texts_among(a));
    } else {
        law_texts_keep_their_order(a, b.drop_last());
        assert((a + b).drop_last() =~= a + b.drop_last());
        assert((a + b).last() == b.last());
        assert(texts_among(a + b) =~= texts_among(a) + texts_among(b));
    }
}

/// The value of a slot that reads as a text is that text; one that reads as a list has its
/// texts, joined by the separator, and none where there are none.
pub proof fn law_value_of_a_slot(reading: SlotReading, separator: Seq<char>)
    ensures
        reading matches SlotReading::Text(s) ==> slot_value(reading, separator) == Some(s@),
        reading is Other ==> slot_value(reading, separator) is None,
        reading matches SlotReading::List(items) ==> match slot_value(reading, separator) {
            Some(value) => texts_among(items@).len() > 0 && value == text::joined(
                texts_among(items@),
                separator,
            ),
            None => forall|k: int| 0 <= k < items@.len() ==> #[trigger] items@[k] is None,
        },
{
    if let SlotReading::List(items) = reading {
        lemma_no_texts(items@);
    }
}

/// There are no texts among items that are not there.
proof fn lemma_no_texts(items: Seq<Option<String>>)
    ensures
        texts_among(items).len() == 0 ==> forall|k: int|
            0 <= k < items.len() ==> #[trigger] items[k] is None,
    decreases items.len(),
{
    if items.len() > 0 {
        let front = items.drop_last();
        lemma_no_texts(front);
        if texts_among(items).len() == 0 {
            assert forall|k: int| 0 <= k < items.len() implies #[trigger] items[k] is None by {
                if k < front.len() {
                    assert(front[k] == items[k]);
                } else {
                    assert(items[k] == items.last());
                }
            }
        }
    }
}

} // verus!
