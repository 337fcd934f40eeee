//! The grammar of a content type: the slots that its documents are made of.

use vstd::prelude::*;

verus! {

/// A range of byte offsets in a source text.
#[derive(Debug, Clone, Copy, PartialEq, Eq, Structural)]
pub struct Span {
    pub start: usize,
    pub end: usize,
}

/// A value with the place in the source that it was read from.
#[derive(Debug, PartialEq)]
pub struct Spanned<T> {
    pub node: T,
    pub span: Span,
}

impl<T: View> View for Spanned<T> {
    type V = Spanned<T::V>;

    open spec fn view(&self) -> Spanned<T::V> {
        Spanned { node: self.node@, span: self.span }
    }
}

/// The name of a slot.
#[derive(Debug, PartialEq, Eq)]
pub struct SlotName {
    pub name: String,
}

impl View for SlotName {
    type V = Seq<char>;

    open spec fn view(&self) -> Seq<char> {
        self.name@
    }
}

impl Clone for SlotName {
    fn clone(&self) -> (r: Self)
        ensures
            r == *self,
    {
        SlotName { name: self.name.clone() }
    }
}

impl SlotName {
    /// The slot name with the given text.
    pub fn new(name: &str) -> (r: SlotName)
        ensures
            r@ == name@,
    {
        SlotName { name: name.to_owned() }
    }

    /// The text of the slot name.
    pub fn as_str(&self) -> (r: &str)
        ensures
            r@ == self@,
    {
        self.name.as_str()
    }
}

/// The level of a heading, from 1 to 6.
#[derive(Debug, Clone, Copy, PartialEq, Eq, PartialOrd, Ord, Structural)]
pub struct HeadingLevel {
    level: u8,
}

impl View for HeadingLevel {
    type V = u8;

    closed spec fn view(&self) -> u8 {
        self.level
    }
}

impl HeadingLevel {
    #[verifier::type_invariant]
    spec fn in_range(self) -> bool {
        1 <= self.level <= 6
    }

    /// The heading level `n`, if there is one.
    pub fn new(n: u8) -> (r: Option<HeadingLevel>)
        ensures
            r is Some <==> 1 <= n <= 6,
            r matches Some(level) ==> level@ == n,
    {
        if 1 <= n && n <= 6 {
            Some(HeadingLevel { level: n })
        } else {
            None
        }
    }

    /// The number of the level.
    pub fn value(&self) -> (r: u8)
        ensures
            r == self@,
            1 <= r <= 6,
    {
        proof {
            use_type_invariant(&*self);
        }
        self.level
    }
}

/// The heading levels from `min` to `max`.
#[derive(Debug, Clone, Copy, PartialEq, Eq)]
pub struct HeadingLevelRange {
    pub min: HeadingLevel,
    pub max: HeadingLevel,
}

impl HeadingLevelRange {
    /// Whether the range holds the level.
    pub open spec fn has(self, level: u8) -> bool {
        self.min@ <= level <= self.max@
    }
}

/// The kind of element that a slot holds.
#[derive(Debug, Clone, PartialEq, Eq)]
pub enum Element {
    Heading { level: HeadingLevelRange },
    Paragraph,
    Link { pattern: String },
    Image { pattern: String },
    List,
}

/// How many elements a slot holds.
#[derive(Debug, Clone, Copy, PartialEq, Eq, Structural)]
pub enum CountRange {
    Exactly(usize),
    AtLeast(usize),
    AtMost(usize),
    Between { min: usize, max: usize },
}

/// A rule on the text of a slot.
#[derive(Debug, Clone, Copy, PartialEq, Eq, Structural)]
pub enum ContentConstraint {
    Capitalized,
}

/// Whether an image needs a text in its place.
#[derive(Debug, Clone, Copy, PartialEq, Eq, Structural)]
pub enum AltRequirement {
    Required,
    Optional,
}

/// A rule on a slot.
#[derive(Debug, Clone, Copy, PartialEq, Eq, Structural)]
pub enum Constraint {
    Occurs(CountRange),
    Content(ContentConstraint),
    Alt(AltRequirement),
}

/// A slot of a grammar.
#[derive(Debug, Clone, PartialEq, Eq)]
pub struct Slot {
    pub name: SlotName,
    pub element: Element,
    pub constraints: Vec<Constraint>,
}

/// The largest count in a count range.
pub open spec fn largest_count(range: CountRange) -> usize {
    match range {
        CountRange::Exactly(n) => n,
        CountRange::AtLeast(_) => usize::MAX,
        CountRange::AtMost(n) => n,
        CountRange::Between { max, .. } => max,
    }
}

/// The count range of the first `Occurs` constraint, if there is one.
pub open spec fn occurs_of(constraints: Seq<Constraint>) -> Option<CountRange>
    decreases constraints.len(),
{
    if constraints.len() == 0 {
        None
    } else if let Constraint::Occurs(range) = constraints[0] {
        Some(range)
    } else {
        occurs_of(constraints.skip(1))
    }
}

/// The count range of the first `Occurs` constraint, if there is one.
pub fn first_occurs(constraints: &Vec<Constraint>) -> (r: Option<CountRange>)
    ensures
        r == occurs_of(constraints@),
{
    let mut i: usize = 0;
    proof {
        assert(constraints@.skip(0) == constraints@);
    }
    while i < constraints.len()
        invariant
            i <= constraints.len(),
            occurs_of(constraints@.skip(i as int)) == occurs_of(constraints@),
        decreases constraints.len() - i,
    {
        proof {
            assert(constraints@.skip(i as int)[0] == constraints@[i as int]);
            assert(constraints@.skip(i as int).skip(1) == constraints@.skip(i + 1));
        }
        if let Constraint::Occurs(range) = constraints[i] {
            return Some(range);
        }
        i += 1;
    }
    None
}

impl Slot {
    /// The number of elements that the slot holds at most: that of its
    /// `Occurs` constraint, or one.
    pub open spec fn max_elements(&self) -> usize {
        match occurs_of(self.constraints@) {
            Some(range) => largest_count(range),
            None => 1,
        }
    }

    /// The number of elements that the slot holds at most.
    pub fn max_count(&self) -> (r: usize)
        ensures
            r == self.max_elements(),
    {
        match first_occurs(&self.constraints) {
            Some(CountRange::Exactly(n)) => n,
            Some(CountRange::AtLeast(_)) => usize::MAX,
            Some(CountRange::AtMost(n)) => n,
            Some(CountRange::Between { min: _, max }) => max,
            None => 1,
        }
    }
}

/// The rules on the body of a document.
#[derive(Debug, Clone, Copy, PartialEq, Eq)]
pub struct BodyRules {
    pub heading_range: Option<HeadingLevelRange>,
}

/// The grammar of a content type: the slots before the separator, in order,
/// and the rules on what follows it, where a body is allowed.
#[derive(Debug, Clone, PartialEq, Eq)]
pub struct Grammar {
    pub preamble: Vec<Slot>,
    pub body: Option<BodyRules>,
}

/// A range has its ends and what lies between two levels that it has, and nothing else.
pub proof fn law_range_has_its_levels(range: HeadingLevelRange, a: u8, b: u8, level: u8)
    ensures
        range.min@ <= range.max@ ==> range.has(range.min@) && range.has(range.max@),
        range.has(a) && range.has(b) && a <= level <= b ==> range.has(level),
        level < range.min@ ==> !range.has(level),
        range.max@ < level ==> !range.has(level),
{
}

} // verus!
