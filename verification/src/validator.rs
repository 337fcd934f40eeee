//! The validator: whether a document follows its grammar.

use vstd::prelude::*;

use crate::decimal;
use crate::decimal::{u64_text, usize_text};
use crate::document::{ContentElement, ElementView, FlatDocument};
use crate::schema;
use crate::schema::{
    first_occurs, AltRequirement, BodyRules, Constraint, ContentConstraint, CountRange, Element,
    Grammar, HeadingLevelRange, Slot, SlotName, Spanned,
};
use crate::slot_assignment;
use crate::slot_assignment::{is_separator_element, skip_annotations};
use crate::text;
use crate::unicode;
use crate::unicode::debug_str;
use crate::vector;
use crate::vector::{element_at, element_count};

verus! {

/// Severity level for a validation diagnostic.
#[derive(Debug, Clone, Copy, PartialEq, Eq, Structural)]
pub enum Severity {
    Error,
    Warning,
}

/// A single validation finding.
#[derive(Debug)]
pub struct ValidationDiagnostic {
    pub severity: Severity,
    pub message: String,
    pub slot: Option<SlotName>,
}

/// The mathematical counterpart of [`ValidationDiagnostic`].
pub struct DiagnosticView {
    pub severity: Severity,
    pub message: Seq<char>,
    pub slot: Option<Seq<char>>,
}

impl View for ValidationDiagnostic {
    type V = DiagnosticView;

    open spec fn view(&self) -> DiagnosticView {
        DiagnosticView {
            severity: self.severity,
            message: self.message@,
            slot: match self.slot {
                Some(name) => Some(name@),
                None => None,
            },
        }
    }
}

/// The views of a list of findings.
pub open spec fn diagnostic_views(v: Seq<ValidationDiagnostic>) -> Seq<DiagnosticView> {
    v.map_values(|d: ValidationDiagnostic| d@)
}

/// The result of validating a document against a grammar.
#[derive(Debug)]
pub struct ValidationResult {
    pub diagnostics: Vec<ValidationDiagnostic>,
}

impl View for ValidationResult {
    type V = Seq<DiagnosticView>;

    open spec fn view(&self) -> Seq<DiagnosticView> {
        diagnostic_views(self.diagnostics@)
    }
}

impl ValidationResult {
    /// Returns `true` if no errors were found (warnings are acceptable).
    pub fn is_valid(&self) -> (r: bool)
        ensures
            r == forall|i: int|
                0 <= i < self@.len() ==> (#[trigger] self@[i]).severity != Severity::Error,
    {
        let mut i: usize = 0;
        while i < self.diagnostics.len()
            invariant
                i <= self.diagnostics.len(),
                forall|k: int| 0 <= k < i ==> (#[trigger] self@[k]).severity != Severity::Error,
            decreases self.diagnostics.len() - i,
        {
            if let Severity::Error = self.diagnostics[i].severity {
                proof {
                    assert(self@[i as int].severity == Severity::Error);
                }
                return false;
            }
            i += 1;
        }
        true
    }
}

/// The finding that a slot is in error.
pub open spec fn slot_error(name: Seq<char>, what: Seq<char>) -> DiagnosticView {
    DiagnosticView {
        severity: Severity::Error,
        message: "slot '"@ + name + "': "@ + what,
        slot: Some(name),
    }
}

/// Puts the finding that a slot is in error behind the others.
fn push_slot_error(diagnostics: &mut Vec<ValidationDiagnostic>, name: &SlotName, what: &str)
    ensures
        diagnostic_views(final(diagnostics)@) == diagnostic_views(old(diagnostics)@) + seq![
            slot_error(name@, what@),
        ],
{
    let ghost before = diagnostics@;
    let mut message = "slot '".to_owned();
    message.append(name.as_str());
    message.append("': ");
    message.append(what);
    let d = ValidationDiagnostic { severity: Severity::Error, message, slot: Some(name.clone()) };
    let ghost view = d@;
    diagnostics.push(d);
    proof {
        assert(diagnostic_views(diagnostics@) =~= diagnostic_views(before) + seq![view]);
    }
}

/// The smallest count in a count range.
pub open spec fn smallest_count(range: CountRange) -> usize {
    match range {
        CountRange::Exactly(n) => n,
        CountRange::AtLeast(n) => n,
        CountRange::AtMost(_) => 0,
        CountRange::Between { min, .. } => min,
    }
}

/// The number of elements that a slot needs at least.
pub open spec fn min_elements(slot: Slot) -> usize {
    match schema::occurs_of(slot.constraints@) {
        Some(range) => smallest_count(range),
        None => 1,
    }
}

/// The number of elements that a slot needs at least.
fn min_count(slot: &Slot) -> (r: usize)
    ensures
        r == min_elements(*slot),
{
    match first_occurs(&slot.constraints) {
        Some(CountRange::Exactly(n)) => n,
        Some(CountRange::AtLeast(n)) => n,
        Some(CountRange::AtMost(_)) => 0,
        Some(CountRange::Between { min, max: _ }) => min,
        None => 1,
    }
}

/// Whether a count lies in a count range.
pub open spec fn in_count_range(count: int, range: CountRange) -> bool {
    match range {
        CountRange::Exactly(n) => count == n,
        CountRange::AtLeast(n) => count >= n,
        CountRange::AtMost(n) => count <= n,
        CountRange::Between { min, max } => min <= count <= max,
    }
}

/// A count range in words.
pub open spec fn count_words(range: CountRange) -> Seq<char> {
    match range {
        CountRange::Exactly(n) => "exactly "@ + decimal::digits(n as nat),
        CountRange::AtLeast(n) => "at least "@ + decimal::digits(n as nat),
        CountRange::AtMost(n) => "at most "@ + decimal::digits(n as nat),
        CountRange::Between { min, max } => "between "@ + decimal::digits(min as nat) + " and "@
            + decimal::digits(max as nat),
    }
}

/// A count range in words.
pub fn describe_count_range(range: &CountRange) -> (r: String)
    ensures
        r@ == count_words(*range),
{
    match range {
        CountRange::Exactly(n) => {
            let mut out = "exactly ".to_owned();
            out.append(usize_text(*n).as_str());
            out
        },
        CountRange::AtLeast(n) => {
            let mut out = "at least ".to_owned();
            out.append(usize_text(*n).as_str());
            out
        },
        CountRange::AtMost(n) => {
            let mut out = "at most ".to_owned();
            out.append(usize_text(*n).as_str());
            out
        },
        CountRange::Between { min, max } => {
            let mut out = "between ".to_owned();
            out.append(usize_text(*min).as_str());
            out.append(" and ");
            out.append(usize_text(*max).as_str());
            out
        },
    }
}

/// The findings on the number of elements in a slot: one for each count range
/// that it is not in.
pub open spec fn occurs_errors(
    name: Seq<char>,
    constraints: Seq<Constraint>,
    count: int,
) -> Seq<DiagnosticView>
    decreases constraints.len(),
{
    if constraints.len() == 0 {
        seq![]
    } else {
        let before = occurs_errors(name, constraints.drop_last(), count);
        match constraints.last() {
            Constraint::Occurs(range) if !in_count_range(count, range) => before + seq![
                slot_error(
                    name,
                    "expected "@ + count_words(range) + ", found "@ + decimal::digits(count as nat),
                ),
            ],
            _ => before,
        }
    }
}

/// Check that `count` satisfies the `Occurs` constraints of the slot.
fn check_occurs_count(count: usize, slot: &Slot, diagnostics: &mut Vec<ValidationDiagnostic>)
    ensures
        diagnostic_views(final(diagnostics)@) == diagnostic_views(old(diagnostics)@)
            + occurs_errors(slot.name@, slot.constraints@, count as int),
{
    let ghost first = diagnostic_views(diagnostics@);
    let ghost all = slot.constraints@;
    let mut i: usize = 0;
    proof {
        assert(all.take(0) =~= seq![]);
        assert(first + Seq::<DiagnosticView>::empty() =~= first);
    }
    while i < slot.constraints.len()
        invariant
            i <= slot.constraints.len(),
            all == slot.constraints@,
            diagnostic_views(diagnostics@) == first + occurs_errors(
                slot.name@,
                all.take(i as int),
                count as int,
            ),
        decreases slot.constraints.len() - i,
    {
        proof {
            assert(all.take(i + 1).drop_last() == all.take(i as int));
            assert(all.take(i + 1).last() == all[i as int]);
        }
        let ghost so_far = diagnostic_views(diagnostics@);
        if let Constraint::Occurs(range) = &slot.constraints[i] {
            let ok = match range {
                CountRange::Exactly(n) => count == *n,
                CountRange::AtLeast(n) => count >= *n,
                CountRange::AtMost(n) => count <= *n,
                CountRange::Between { min, max } => count >= *min && count <= *max,
            };
            if !ok {
                let mut what = "expected ".to_owned();
                what.append(describe_count_range(range).as_str());
                what.append(", found ");
                what.append(usize_text(count).as_str());
                push_slot_error(diagnostics, &slot.name, what.as_str());
            }
        }
        proof {
            assert(diagnostic_views(diagnostics@) =~= first + occurs_errors(
                slot.name@,
                all.take(i + 1),
                count as int,
            ));
        }
        i += 1;
    }
    proof {
        assert(all.take(i as int) == all);
    }
}

/// The finding that a text is not capitalised. `quoted` is the text in its
/// quoted form.
pub open spec fn capital_error(name: Seq<char>, quoted: Seq<char>) -> DiagnosticView {
    slot_error(name, "text must start with an uppercase letter, got: "@ + quoted)
}

/// The findings on a text whose first character is uppercase or not: one for
/// each constraint that it breaks.
pub open spec fn text_errors_with(
    name: Seq<char>,
    constraints: Seq<Constraint>,
    capital: bool,
    quoted: Seq<char>,
) -> Seq<DiagnosticView>
    decreases constraints.len(),
{
    if constraints.len() == 0 {
        seq![]
    } else {
        let before = text_errors_with(name, constraints.drop_last(), capital, quoted);
        match constraints.last() {
            Constraint::Content(ContentConstraint::Capitalized) if !capital => before + seq![
                capital_error(name, quoted),
            ],
            _ => before,
        }
    }
}

/// Whether a text begins with an uppercase character.
pub open spec fn is_capitalized(words: Seq<char>) -> bool {
    words.len() > 0 && unicode::is_upper(words[0])
}

/// The findings on a text: one for each constraint that it breaks.
pub open spec fn text_errors(
    name: Seq<char>,
    constraints: Seq<Constraint>,
    words: Seq<char>,
) -> Seq<DiagnosticView> {
    text_errors_with(name, constraints, is_capitalized(words), unicode::debug_form(words))
}

/// Check the content constraints of a slot on a text. `capital` says whether the
/// text begins with an uppercase character and `quoted` is its quoted form.
pub fn check_text_with(
    capital: bool,
    quoted: &str,
    slot: &Slot,
    diagnostics: &mut Vec<ValidationDiagnostic>,
)
    ensures
        diagnostic_views(final(diagnostics)@) == diagnostic_views(old(diagnostics)@)
            + text_errors_with(slot.name@, slot.constraints@, capital, quoted@),
{
    let ghost first = diagnostic_views(diagnostics@);
    let ghost all = slot.constraints@;
    let mut i: usize = 0;
    proof {
        assert(all.take(0) =~= seq![]);
        assert(first + Seq::<DiagnosticView>::empty() =~= first);
    }
    while i < slot.constraints.len()
        invariant
            i <= slot.constraints.len(),
            all == slot.constraints@,
            diagnostic_views(diagnostics@) == first + text_errors_with(
                slot.name@,
                all.take(i as int),
                capital,
                quoted@,
            ),
        decreases slot.constraints.len() - i,
    {
        proof {
            assert(all.take(i + 1).drop_last() == all.take(i as int));
            assert(all.take(i + 1).last() == all[i as int]);
        }
        if let Constraint::Content(ContentConstraint::Capitalized) = &slot.constraints[i] {
            if !capital {
                let mut what = "text must start with an uppercase letter, got: ".to_owned();
                what.append(quoted);
                push_slot_error(diagnostics, &slot.name, what.as_str());
            }
        }
        proof {
            assert(diagnostic_views(diagnostics@) =~= first + text_errors_with(
                slot.name@,
                all.take(i + 1),
                capital,
                quoted@,
            ));
        }
        i += 1;
    }
    proof {
        assert(all.take(i as int) == all);
    }
}

/// Check the content constraints of a slot on a text.
fn check_content_constraints(
    words: &str,
    slot: &Slot,
    diagnostics: &mut Vec<ValidationDiagnostic>,
)
    ensures
        diagnostic_views(final(diagnostics)@) == diagnostic_views(old(diagnostics)@) + text_errors(
            slot.name@,
            slot.constraints@,
            words@,
        ),
{
    let capital = !words.is_empty() && words.get_char(0).is_uppercase();
    check_text_with(capital, debug_str(words).as_str(), slot, diagnostics)
}

/// Whether an image has a text in its place.
pub open spec fn has_alt(alt: Option<Seq<char>>) -> bool {
    alt matches Some(s) && s.len() > 0
}

/// The findings on the text of an image: one for each constraint that it breaks.
pub open spec fn alt_errors(
    name: Seq<char>,
    constraints: Seq<Constraint>,
    alt: Option<Seq<char>>,
) -> Seq<DiagnosticView>
    decreases constraints.len(),
{
    if constraints.len() == 0 {
        seq![]
    } else {
        let before = alt_errors(name, constraints.drop_last(), alt);
        match constraints.last() {
            Constraint::Alt(AltRequirement::Required) if !has_alt(alt) => before + seq![
                slot_error(name, "image must have non-empty alt text"@),
            ],
            _ => before,
        }
    }
}

/// Check the alt constraints of a slot on an image.
fn check_alt_constraints(
    alt: &Option<String>,
    slot: &Slot,
    diagnostics: &mut Vec<ValidationDiagnostic>,
)
    ensures
        diagnostic_views(final(diagnostics)@) == diagnostic_views(old(diagnostics)@) + alt_errors(
            slot.name@,
            slot.constraints@,
            text::opt_text(*alt),
        ),
{
    let ghost first = diagnostic_views(diagnostics@);
    let ghost all = slot.constraints@;
    let present = match alt {
        Some(s) => !s.as_str().is_empty(),
        None => false,
    };
    let mut i: usize = 0;
    proof {
        assert(all.take(0) =~= seq![]);
        assert(first + Seq::<DiagnosticView>::empty() =~= first);
    }
    while i < slot.constraints.len()
        invariant
            i <= slot.constraints.len(),
            all == slot.constraints@,
            present == has_alt(text::opt_text(*alt)),
            diagnostic_views(diagnostics@) == first + alt_errors(
                slot.name@,
                all.take(i as int),
                text::opt_text(*alt),
            ),
        decreases slot.constraints.len() - i,
    {
        proof {
            assert(all.take(i + 1).drop_last() == all.take(i as int));
            assert(all.take(i + 1).last() == all[i as int]);
        }
        if let Constraint::Alt(AltRequirement::Required) = &slot.constraints[i] {
            if !present {
                push_slot_error(diagnostics, &slot.name, "image must have non-empty alt text");
            }
        }
        proof {
            assert(diagnostic_views(diagnostics@) =~= first + alt_errors(
                slot.name@,
                all.take(i + 1),
                text::opt_text(*alt),
            ));
        }
        i += 1;
    }
    proof {
        assert(all.take(i as int) == all);
    }
}

/// Whether an element counts for a slot of the given kind. A heading counts
/// where its level is allowed.
pub open spec fn counts_for(e: ElementView, kind: Element) -> bool {
    match kind {
        Element::Heading { level: range } => e matches ElementView::Heading { level, .. }
            && range.has(level),
        Element::Paragraph => e is Paragraph,
        Element::Link { .. } => e is Link,
        Element::Image { .. } => e is Image,
        Element::List => e is List,
    }
}

/// Whether an element counts for a slot of the given kind.
fn counts(element: &ContentElement, kind: &Element) -> (r: bool)
    ensures
        r == counts_for(element@, *kind),
{
    match (element, kind) {
        (ContentElement::Heading { level, .. }, Element::Heading { level: range }) => {
            range.min.value() <= level.value() && level.value() <= range.max.value()
        },
        (ContentElement::Paragraph { .. }, Element::Paragraph) => true,
        (ContentElement::Link { .. }, Element::Link { .. }) => true,
        (ContentElement::Image { .. }, Element::Image { .. }) => true,
        (ContentElement::List { .. }, Element::List) => true,
        _ => false,
    }
}

/// How many elements from `cursor` on, `max` at most, count for a slot of the given
/// kind.
pub open spec fn counted(
    elements: Seq<Spanned<ElementView>>,
    cursor: int,
    kind: Element,
    max: int,
) -> int
    decreases elements.len() - cursor,
{
    if max > 0 && 0 <= cursor < elements.len() && counts_for(elements[cursor].node, kind) {
        1 + counted(elements, cursor + 1, kind, max - 1)
    } else {
        0
    }
}

/// The findings on a single element of a slot.
pub open spec fn element_errors(slot: Slot, e: ElementView) -> Seq<DiagnosticView> {
    match (slot.element, e) {
        (Element::Heading { .. }, ElementView::Heading { text, .. }) => text_errors(
            slot.name@,
            slot.constraints@,
            text,
        ),
        (Element::Image { .. }, ElementView::Image { alt, .. }) => alt_errors(
            slot.name@,
            slot.constraints@,
            alt,
        ),
        _ => seq![],
    }
}

/// The findings on the elements of a slot, one behind the other.
pub open spec fn elements_errors(slot: Slot, elements: Seq<Spanned<ElementView>>) -> Seq<
    DiagnosticView,
>
    decreases elements.len(),
{
    if elements.len() == 0 {
        seq![]
    } else {
        elements_errors(slot, elements.drop_last()) + element_errors(slot, elements.last().node)
    }
}

/// The levels of a range in words.
pub open spec fn level_words(range: HeadingLevelRange) -> Seq<char> {
    "H"@ + decimal::digits(range.min@ as nat) + "-H"@ + decimal::digits(range.max@ as nat)
}

/// The levels of a range in words.
fn describe_levels(range: &HeadingLevelRange) -> (r: String)
    ensures
        r@ == level_words(*range),
{
    let mut out = "H".to_owned();
    out.append(u64_text(range.min.value() as u64).as_str());
    out.append("-H");
    out.append(u64_text(range.max.value() as u64).as_str());
    out
}

/// The finding that a slot has too few elements, if it has.
pub open spec fn missing_error(slot: Slot, count: int) -> Seq<DiagnosticView> {
    let min = min_elements(slot);
    match slot.element {
        Element::Heading { level } => if count == 0 && min > 0 {
            seq![
                slot_error(
                    slot.name@,
                    "missing required heading ("@ + level_words(level) + ")"@,
                ),
            ]
        } else {
            seq![]
        },
        Element::Paragraph => if count < min {
            seq![
                slot_error(
                    slot.name@,
                    "expected at least "@ + decimal::digits(min as nat) + " paragraph(s), found "@
                        + decimal::digits(count as nat),
                ),
            ]
        } else {
            seq![]
        },
        Element::Link { .. } => if count == 0 && min > 0 {
            seq![slot_error(slot.name@, "missing required link"@)]
        } else {
            seq![]
        },
        Element::Image { .. } => if count == 0 && min > 0 {
            seq![slot_error(slot.name@, "missing required image"@)]
        } else {
            seq![]
        },
        Element::List => if count == 0 && min > 0 {
            seq![slot_error(slot.name@, "missing required list"@)]
        } else {
            seq![]
        },
    }
}

/// The findings on a slot that the given elements belong to.
pub open spec fn slot_errors(slot: Slot, elements: Seq<Spanned<ElementView>>) -> Seq<
    DiagnosticView,
> {
    elements_errors(slot, elements) + missing_error(slot, elements.len() as int) + occurs_errors(
        slot.name@,
        slot.constraints@,
        elements.len() as int,
    )
}

/// What the walk over the slots finds, and where the body begins.
pub struct Walk {
    pub errors: Seq<DiagnosticView>,
    pub cursor: int,
}

/// Where the body begins when the slots are done: behind the next separator, or at
/// the end.
pub open spec fn body_start(elements: Seq<Spanned<ElementView>>, cursor: int) -> int {
    let at = slot_assignment::separator_from(elements, cursor);
    if 0 <= at < elements.len() {
        at + 1
    } else {
        at
    }
}

/// What the given slots find in the elements from `cursor` on. No slot reaches past
/// a separator: those that are left when one is met have no elements.
pub open spec fn walk_from(
    elements: Seq<Spanned<ElementView>>,
    slots: Seq<Slot>,
    cursor: int,
) -> Walk
    decreases slots.len(),
{
    if slots.len() == 0 {
        Walk { errors: seq![], cursor: body_start(elements, cursor) }
    } else {
        let from = slot_assignment::past_annotations(elements, cursor);
        let to = from + counted(
            elements,
            from,
            slots[0].element,
            slots[0].max_elements() as int,
        );
        let rest = walk_from(elements, slots.skip(1), to);
        Walk {
            errors: slot_errors(slots[0], elements.subrange(from, to)) + rest.errors,
            cursor: rest.cursor,
        }
    }
}

/// The finding on an element of the body: its heading level is not allowed.
pub open spec fn body_error(range: HeadingLevelRange, e: ElementView) -> Seq<DiagnosticView> {
    match e {
        ElementView::Heading { level, text } if !range.has(level) => seq![
            DiagnosticView {
                severity: Severity::Error,
                message: "body heading level H"@ + decimal::digits(level as nat)
                    + " is not allowed (allowed: "@ + level_words(range) + "): "@
                    + unicode::debug_form(text),
                slot: None,
            },
        ],
        _ => seq![],
    }
}

/// The findings on the elements of the body, one behind the other.
pub open spec fn body_errors(range: HeadingLevelRange, elements: Seq<Spanned<ElementView>>) -> Seq<
    DiagnosticView,
>
    decreases elements.len(),
{
    if elements.len() == 0 {
        seq![]
    } else {
        body_errors(range, elements.drop_last()) + body_error(range, elements.last().node)
    }
}

/// All findings on a sequence of elements.
pub open spec fn findings(elements: Seq<Spanned<ElementView>>, grammar: Grammar) -> Seq<
    DiagnosticView,
> {
    let walk = walk_from(elements, grammar.preamble@, 0);
    match grammar.body {
        Some(BodyRules { heading_range: Some(range) }) => walk.errors + body_errors(
            range,
            elements.skip(walk.cursor),
        ),
        _ => walk.errors,
    }
}

/// Consume the elements at `cursor` that count for the slot, and check them.
/// Returns how many there were.
fn consume_slot(
    elements: &im::Vector<Spanned<ContentElement>>,
    cursor: usize,
    slot: &Slot,
    diagnostics: &mut Vec<ValidationDiagnostic>,
) -> (r: usize)
    requires
        cursor <= vector::element_items(*elements).len(),
    ensures
        r == counted(
            vector::element_items(*elements),
            cursor as int,
            slot.element,
            slot.max_elements() as int,
        ),
        cursor + r <= vector::element_items(*elements).len(),
        diagnostic_views(final(diagnostics)@) == diagnostic_views(old(diagnostics)@)
            + elements_errors(
            *slot,
            vector::element_items(*elements).subrange(cursor as int, cursor + r),
        ),
{
    let ghost items = vector::element_items(*elements);
    let ghost first = diagnostic_views(diagnostics@);
    let n = element_count(elements);
    let max = slot.max_count();
    let mut count: usize = 0;
    proof {
        assert(items.subrange(cursor as int, cursor as int) =~= seq![]);
        assert(first + Seq::<DiagnosticView>::empty() =~= first);
    }
    while count < max && count < n - cursor && counts(
        &element_at(elements, cursor + count).node,
        &slot.element,
    )
        invariant
            cursor + count <= n,
            n == items.len(),
            items == vector::element_items(*elements),
            count <= max,
            count + counted(items, cursor + count, slot.element, max - count) == counted(
                items,
                cursor as int,
                slot.element,
                max as int,
            ),
            diagnostic_views(diagnostics@) == first + elements_errors(
                *slot,
                items.subrange(cursor as int, cursor + count),
            ),
        decreases n - cursor - count,
    {
        let element = element_at(elements, cursor + count);
        let ghost so_far = diagnostic_views(diagnostics@);
        match (&slot.element, &element.node) {
            (Element::Heading { .. }, ContentElement::Heading { text, .. }) => {
                check_content_constraints(text.as_str(), slot, diagnostics);
            },
            (Element::Image { .. }, ContentElement::Image { alt, .. }) => {
                check_alt_constraints(alt, slot, diagnostics);
            },
            _ => {},
        }
        proof {
            let t = items.subrange(cursor as int, cursor + count + 1);
            assert(t.drop_last() == items.subrange(cursor as int, cursor + count));
            assert(t.last() == element@);
            assert(diagnostic_views(diagnostics@) =~= so_far + element_errors(*slot, element@.node));
            assert(diagnostic_views(diagnostics@) =~= first + elements_errors(*slot, t));
        }
        count += 1;
    }
    count
}

/// Say that a slot has too few elements, if it has.
fn check_missing(count: usize, slot: &Slot, diagnostics: &mut Vec<ValidationDiagnostic>)
    ensures
        diagnostic_views(final(diagnostics)@) == diagnostic_views(old(diagnostics)@)
            + missing_error(*slot, count as int),
{
    let ghost first = diagnostic_views(diagnostics@);
    let min = min_count(slot);
    match &slot.element {
        Element::Heading { level } => {
            if count == 0 && min > 0 {
                let mut what = "missing required heading (".to_owned();
                what.append(describe_levels(level).as_str());
                what.append(")");
                push_slot_error(diagnostics, &slot.name, what.as_str());
            }
        },
        Element::Paragraph => {
            if count < min {
                let mut what = "expected at least ".to_owned();
                what.append(usize_text(min).as_str());
                what.append(" paragraph(s), found ");
                what.append(usize_text(count).as_str());
                push_slot_error(diagnostics, &slot.name, what.as_str());
            }
        },
        Element::Link { .. } => {
            if count == 0 && min > 0 {
                push_slot_error(diagnostics, &slot.name, "missing required link");
            }
        },
        Element::Image { .. } => {
            if count == 0 && min > 0 {
                push_slot_error(diagnostics, &slot.name, "missing required image");
            }
        },
        Element::List => {
            if count == 0 && min > 0 {
                push_slot_error(diagnostics, &slot.name, "missing required list");
            }
        },
    }
    proof {
        assert(diagnostic_views(diagnostics@) =~= first + missing_error(*slot, count as int));
    }
}

/// Validate the body, from `start` on, against body rules.
fn validate_body(
    elements: &im::Vector<Spanned<ContentElement>>,
    start: usize,
    range: &HeadingLevelRange,
    diagnostics: &mut Vec<ValidationDiagnostic>,
)
    requires
        start <= vector::element_items(*elements).len(),
    ensures
        diagnostic_views(final(diagnostics)@) == diagnostic_views(old(diagnostics)@) + body_errors(
            *range,
            vector::element_items(*elements).skip(start as int),
        ),
{
    let ghost body = vector::element_items(*elements).skip(start as int);
    let ghost first = diagnostic_views(diagnostics@);
    let n = element_count(elements);
    let mut i: usize = start;
    proof {
        assert(body.take(0) =~= seq![]);
        assert(first + Seq::<DiagnosticView>::empty() =~= first);
    }
    while i < n
        invariant
            start <= i <= n,
            n == vector::element_items(*elements).len(),
            body == vector::element_items(*elements).skip(start as int),
            diagnostic_views(diagnostics@) == first + body_errors(*range, body.take(i - start)),
        decreases n - i,
    {
        let element = element_at(elements, i);
        let ghost so_far = diagnostic_views(diagnostics@);
        proof {
            assert(body.take(i + 1 - start).drop_last() == body.take(i - start));
            assert(body.take(i + 1 - start).last() == element@);
        }
        if let ContentElement::Heading { level, text } = &element.node {
            let allowed = range.min.value() <= level.value() && level.value() <= range.max.value();
            if !allowed {
                let mut message = "body heading level H".to_owned();
                message.append(u64_text(level.value() as u64).as_str());
                message.append(" is not allowed (allowed: ");
                message.append(describe_levels(range).as_str());
                message.append("): ");
                message.append(debug_str(text.as_str()).as_str());
                let d = ValidationDiagnostic { severity: Severity::Error, message, slot: None };
                let ghost before = diagnostics@;
                let ghost view = d@;
                diagnostics.push(d);
                proof {
                    assert(diagnostic_views(diagnostics@) =~= diagnostic_views(before) + seq![view]);
                }
            }
        }
        proof {
            assert(diagnostic_views(diagnostics@) =~= so_far + body_error(*range, element@.node));
            assert(diagnostic_views(diagnostics@) =~= first + body_errors(
                *range,
                body.take(i + 1 - start),
            ));
        }
        i += 1;
    }
    proof {
        assert(body.take(n - start) == body);
    }
}

/// Validate a content document against a schema grammar.
///
/// The slots of the preamble are walked in order; each is found too short, or
/// its elements against its constraints. A slot that the document ends before, or
/// its separator, has no elements. The headings of the body have to be of the
/// allowed levels. All findings are returned, in that order.
pub fn validate(doc: &FlatDocument, grammar: &Grammar) -> (r: ValidationResult)
    ensures
        r@ == findings(doc@, *grammar),
{
    let elements = &doc.elements;
    let ghost items = vector::element_items(*elements);
    let ghost slots = grammar.preamble@;
    let ghost all = walk_from(items, slots, 0);
    let mut diagnostics: Vec<ValidationDiagnostic> = Vec::new();
    let n = element_count(elements);
    let mut cursor: usize = 0;
    let mut i: usize = 0;
    proof {
        assert(slots.skip(0) == slots);
        assert(diagnostic_views(diagnostics@) + all.errors =~= all.errors);
    }
    while i < grammar.preamble.len()
        invariant
            i <= grammar.preamble.len(),
            cursor <= n,
            n == items.len(),
            items == vector::element_items(*elements),
            slots == grammar.preamble@,
            all == walk_from(items, slots, 0),
            ({
                let rest = walk_from(items, slots.skip(i as int), cursor as int);
                &&& diagnostic_views(diagnostics@) + rest.errors == all.errors
                &&& rest.cursor == all.cursor
            }),
        decreases grammar.preamble.len() - i,
    {
        let slot = &grammar.preamble[i];
        let ghost here = slots.skip(i as int);
        let ghost so_far = diagnostic_views(diagnostics@);
        proof {
            assert(here[0] == *slot);
            assert(here.skip(1) == slots.skip(i + 1));
        }
        let from = skip_annotations(elements, cursor);
        let count = consume_slot(elements, from, slot, &mut diagnostics);
        check_missing(count, slot, &mut diagnostics);
        check_occurs_count(count, slot, &mut diagnostics);
        cursor = from + count;
        proof {
            let found = items.subrange(from as int, cursor as int);
            let errors = slot_errors(*slot, found);
            assert(diagnostic_views(diagnostics@) =~= so_far + errors);
            let rest = walk_from(items, here.skip(1), cursor as int);
            assert(so_far + (errors + rest.errors) =~= diagnostic_views(diagnostics@)
                + rest.errors);
        }
        i += 1;
    }
    proof {
        assert(slots.skip(i as int) =~= Seq::<Slot>::empty());
        assert(diagnostic_views(diagnostics@) + Seq::<DiagnosticView>::empty()
            =~= diagnostic_views(diagnostics@));
    }
    let ghost start = cursor as int;
    while cursor < n && !is_separator_element(&element_at(elements, cursor).node)
        invariant
            start <= cursor <= n,
            n == items.len(),
            items == vector::element_items(*elements),
            slot_assignment::separator_from(items, cursor as int)
                == slot_assignment::separator_from(items, start),
        decreases n - cursor,
    {
        cursor += 1;
    }
    if cursor < n {
        cursor += 1;
    }
    proof {
        assert(diagnostic_views(diagnostics@) == all.errors);
        assert(cursor == all.cursor);
    }
    if let Some(rules) = &grammar.body {
        if let Some(range) = &rules.heading_range {
            validate_body(elements, cursor, range, &mut diagnostics);
        }
    }
    ValidationResult { diagnostics }
}

/// Whether an element is of the kind that a slot asks for, headings by their level.
pub open spec fn is_asked_for(e: ElementView, kind: Element) -> bool {
    match kind {
        Element::Heading { level: range } => e is Heading && range.min@ <= e->Heading_level
            <= range.max@,
        Element::Paragraph => e is Paragraph,
        Element::Link { .. } => e is Link,
        Element::Image { .. } => e is Image,
        Element::List => e is List,
    }
}

/// Whether the elements from `start` to `end` are those that a slot is answered for
/// when those before `after` are taken: as many of its kind as stand next, behind
/// annotations, and no more than it may hold.
pub open spec fn is_run(
    elements: Seq<Spanned<ElementView>>,
    slot: Slot,
    after: int,
    start: int,
    end: int,
) -> bool {
    let n = elements.len();
    &&& 0 <= after <= start <= end <= n
    &&& forall|j: int|
        after <= j < start ==> (#[trigger] elements[j]).node is Paragraph
            && slot_assignment::is_annotation(elements[j].node->Paragraph_text)
    &&& start < n ==> !(elements[start].node is Paragraph && slot_assignment::is_annotation(
        elements[start].node->Paragraph_text,
    ))
    &&& forall|j: int|
        start <= j < end ==> is_asked_for((#[trigger] elements[j]).node, slot.element)
    &&& end - start <= slot.max_elements()
    &&& end - start == slot.max_elements() || end == n || !is_asked_for(
        elements[end].node,
        slot.element,
    )
}

/// Where the elements are taken from when the slots before number `k` have theirs.
pub open spec fn taken_before(cursor: int, ends: Seq<int>, k: int) -> int {
    if k == 0 {
        cursor
    } else {
        ends[k - 1]
    }
}

/// Whether the slots have the elements from `starts` to `ends`, each behind those of
/// the one before it.
pub open spec fn is_layout(
    elements: Seq<Spanned<ElementView>>,
    slots: Seq<Slot>,
    cursor: int,
    starts: Seq<int>,
    ends: Seq<int>,
) -> bool {
    &&& starts.len() == slots.len()
    &&& ends.len() == slots.len()
    &&& forall|k: int|
        0 <= k < slots.len() ==> is_run(
            elements,
            #[trigger] slots[k],
            taken_before(cursor, ends, k),
            starts[k],
            ends[k],
        )
}

/// Whether the body begins at `b` when the slots have the elements before `after`:
/// behind the first separator, or at the end where there is none.
pub open spec fn begins_body(elements: Seq<Spanned<ElementView>>, after: int, b: int) -> bool {
    let n = elements.len();
    ||| after <= b == n && forall|j: int| after <= j < n ==> !((#[trigger] elements[j]).node
        is Separator)
    ||| after < b <= n && elements[b - 1].node is Separator && forall|j: int|
        after <= j < b - 1 ==> !((#[trigger] elements[j]).node is Separator)
}

/// Whether the elements of a slot keep its rules. A slot without a count needs one
/// element at least.
pub open spec fn keeps_rules(slot: Slot, elements: Seq<Spanned<ElementView>>) -> bool {
    let rules = slot.constraints@;
    let n = elements.len();
    &&& forall|i: int|
        0 <= i < rules.len() ==> match #[trigger] rules[i] {
            Constraint::Occurs(CountRange::Exactly(m)) => n == m,
            Constraint::Occurs(CountRange::AtLeast(m)) => n >= m,
            Constraint::Occurs(CountRange::AtMost(m)) => n <= m,
            Constraint::Occurs(CountRange::Between { min, max }) => min <= n <= max,
            Constraint::Content(ContentConstraint::Capitalized) => forall|j: int|
                0 <= j < n && (#[trigger] elements[j]).node is Heading
                    ==> elements[j].node->Heading_text.len() > 0 && unicode::is_upper(
                    elements[j].node->Heading_text[0],
                ),
            Constraint::Alt(AltRequirement::Required) => forall|j: int|
                0 <= j < n && (#[trigger] elements[j]).node is Image ==> elements[j].node->alt is Some
                    && elements[j].node->alt->0.len() > 0,
            Constraint::Alt(AltRequirement::Optional) => true,
        }
    &&& (forall|i: int| 0 <= i < rules.len() ==> !(#[trigger] rules[i] is Occurs)) ==> n > 0
}

/// The elements that count for a slot are those of its run.
proof fn lemma_counted_is(
    elements: Seq<Spanned<ElementView>>,
    from: int,
    kind: Element,
    max: int,
    to: int,
)
    requires
        0 <= from <= to <= elements.len(),
        to - from <= max,
        forall|j: int| from <= j < to ==> is_asked_for((#[trigger] elements[j]).node, kind),
        to - from == max || to == elements.len() || !is_asked_for(elements[to].node, kind),
    ensures
        counted(elements, from, kind, max) == to - from,
    decreases to - from,
{
    if from < to {
        assert(is_asked_for(elements[from].node, kind));
        lemma_counted_is(elements, from + 1, kind, max - 1, to);
    }
}

/// Annotations are passed over up to the first element that is none.
proof fn lemma_past_is(elements: Seq<Spanned<ElementView>>, cursor: int, to: int)
    requires
        0 <= cursor <= to <= elements.len(),
        forall|j: int|
            cursor <= j < to ==> slot_assignment::is_annotation_element(
                (#[trigger] elements[j]).node,
            ),
        to < elements.len() ==> !slot_assignment::is_annotation_element(elements[to].node),
    ensures
        slot_assignment::past_annotations(elements, cursor) == to,
    decreases to - cursor,
{
    if cursor < to {
        assert(slot_assignment::is_annotation_element(elements[cursor].node));
        lemma_past_is(elements, cursor + 1, to);
    }
}

/// The body begins where it does.
proof fn lemma_body_start_is(elements: Seq<Spanned<ElementView>>, cursor: int, b: int)
    requires
        0 <= cursor <= elements.len(),
        begins_body(elements, cursor, b),
    ensures
        body_start(elements, cursor) == b,
    decreases elements.len() - cursor,
{
    if cursor < elements.len() && !(elements[cursor].node is Separator) {
        lemma_body_start_is(elements, cursor + 1, b);
    }
}

/// What each slot finds in its elements.
pub open spec fn found_by(
    elements: Seq<Spanned<ElementView>>,
    slots: Seq<Slot>,
    starts: Seq<int>,
    ends: Seq<int>,
) -> Seq<Seq<DiagnosticView>> {
    Seq::new(
        slots.len(),
        |k: int| slot_errors(slots[k], elements.subrange(starts[k], ends[k])),
    )
}

/// The walk over the slots finds what each of them finds, in order.
proof fn lemma_walk_is(
    elements: Seq<Spanned<ElementView>>,
    slots: Seq<Slot>,
    cursor: int,
    starts: Seq<int>,
    ends: Seq<int>,
    b: int,
)
    requires
        0 <= cursor <= elements.len(),
        is_layout(elements, slots, cursor, starts, ends),
        begins_body(elements, taken_before(cursor, ends, slots.len() as int), b),
    ensures
        walk_from(elements, slots, cursor).errors == found_by(
            elements,
            slots,
            starts,
            ends,
        ).flatten(),
        walk_from(elements, slots, cursor).cursor == b,
    decreases slots.len(),
{
    let found = found_by(elements, slots, starts, ends);
    if slots.len() == 0 {
        lemma_body_start_is(elements, cursor, b);
    } else {
        assert(is_run(elements, slots[0], cursor, starts[0], ends[0]));
        lemma_past_is(elements, cursor, starts[0]);
        lemma_counted_is(
            elements,
            starts[0],
            slots[0].element,
            slots[0].max_elements() as int,
            ends[0],
        );
        let t = slots.skip(1);
        let s = starts.skip(1);
        let e = ends.skip(1);
        assert forall|k: int| 0 <= k < t.len() implies is_run(
            elements,
            #[trigger] t[k],
            taken_before(ends[0], e, k),
            s[k],
            e[k],
        ) by {
            assert(t[k] == slots[k + 1]);
            assert(is_run(
                elements,
                slots[k + 1],
                taken_before(cursor, ends, k + 1),
                starts[k + 1],
                ends[k + 1],
            ));
        }
        assert(taken_before(ends[0], e, t.len() as int) == taken_before(
            cursor,
            ends,
            slots.len() as int,
        ));
        lemma_walk_is(elements, t, ends[0], s, e, b);
        assert(found.drop_first() =~= found_by(elements, t, s, e)) by {
            assert forall|k: int| 0 <= k < t.len() implies found.drop_first()[k] == found_by(
                elements,
                t,
                s,
                e,
            )[k] by {
                assert(t[k] == slots[k + 1] && s[k] == starts[k + 1] && e[k] == ends[k + 1]);
            }
        }
    }
}

/// The findings on a document are those of its slots, in the order of the grammar,
/// and behind them those on its body.
pub proof fn law_findings_follow_the_grammar(
    elements: Seq<Spanned<ElementView>>,
    grammar: Grammar,
    starts: Seq<int>,
    ends: Seq<int>,
    b: int,
)
    requires
        is_layout(elements, grammar.preamble@, 0, starts, ends),
        begins_body(elements, taken_before(0, ends, grammar.preamble@.len() as int), b),
    ensures
        ({
            let slots = grammar.preamble@;
            let own = found_by(elements, slots, starts, ends).flatten();
            let all = findings(elements, grammar);
            &&& all.len() >= own.len()
            &&& all.take(own.len() as int) == own
            &&& all.skip(own.len() as int) == match grammar.body {
                Some(BodyRules { heading_range: Some(range) }) => body_errors(
                    range,
                    elements.skip(b),
                ),
                _ => seq![],
            }
        }),
{
    lemma_walk_is(elements, grammar.preamble@, 0, starts, ends, b);
    let own = found_by(elements, grammar.preamble@, starts, ends).flatten();
    let all = findings(elements, grammar);
    assert(all.take(own.len() as int) =~= own);
    match grammar.body {
        Some(BodyRules { heading_range: Some(range) }) => {
            assert(all.skip(own.len() as int) =~= body_errors(range, elements.skip(b)));
        },
        _ => {
            assert(all.skip(own.len() as int) =~= seq![]);
        },
    }
}

/// There is nothing in a flattened sequence if and only if there is nothing in its
/// parts.
proof fn lemma_flat_empty(parts: Seq<Seq<DiagnosticView>>)
    ensures
        parts.flatten().len() == 0 <==> forall|k: int|
            0 <= k < parts.len() ==> (#[trigger] parts[k]).len() == 0,
    decreases parts.len(),
{
    if parts.len() > 0 {
        let rest = parts.drop_first();
        lemma_flat_empty(rest);
        if parts.flatten().len() == 0 {
            assert forall|k: int| 0 <= k < parts.len() implies (#[trigger] parts[k]).len() == 0 by {
                if k > 0 {
                    assert(rest[k - 1] == parts[k]);
                }
            }
        }
        if forall|k: int| 0 <= k < parts.len() ==> (#[trigger] parts[k]).len() == 0 {
            assert forall|k: int| 0 <= k < rest.len() implies (#[trigger] rest[k]).len() == 0 by {
                assert(rest[k] == parts[k + 1]);
            }
            assert(parts[0].len() == 0);
        }
    }
}

/// What stands in a part stands in the flattened sequence.
proof fn lemma_flat_has(parts: Seq<Seq<DiagnosticView>>, k: int, d: DiagnosticView)
    requires
        0 <= k < parts.len(),
        parts[k].contains(d),
    ensures
        parts.flatten().contains(d),
    decreases parts.len(),
{
    let all = parts.flatten();
    let rest = parts.drop_first();
    if k == 0 {
        let i = choose|i: int| 0 <= i < parts[0].len() && parts[0][i] == d;
        assert(all[i] == d);
    } else {
        assert(rest[k - 1] == parts[k]);
        lemma_flat_has(rest, k - 1, d);
        let i = choose|i: int| 0 <= i < rest.flatten().len() && rest.flatten()[i] == d;
        assert(all[parts[0].len() + i] == d);
    }
}

/// The counts of a slot are kept if and only if there is no finding on them.
proof fn lemma_no_occurs_errors(name: Seq<char>, constraints: Seq<Constraint>, count: int)
    ensures
        occurs_errors(name, constraints, count).len() == 0 <==> forall|i: int|
            0 <= i < constraints.len() ==> match #[trigger] constraints[i] {
                Constraint::Occurs(CountRange::Exactly(m)) => count == m,
                Constraint::Occurs(CountRange::AtLeast(m)) => count >= m,
                Constraint::Occurs(CountRange::AtMost(m)) => count <= m,
                Constraint::Occurs(CountRange::Between { min, max }) => min <= count <= max,
                _ => true,
            },
    decreases constraints.len(),
{
    if constraints.len() > 0 {
        let front = constraints.drop_last();
        lemma_no_occurs_errors(name, front, count);
        assert forall|i: int| 0 <= i < front.len() implies #[trigger] front[i]
            == constraints[i] by {}
        let last = constraints.len() - 1;
        assert(constraints[last] == constraints.last());
        if occurs_errors(name, constraints, count).len() == 0 {
            assert forall|i: int| 0 <= i < constraints.len() implies match #[trigger] constraints[i] {
                Constraint::Occurs(CountRange::Exactly(m)) => count == m,
                Constraint::Occurs(CountRange::AtLeast(m)) => count >= m,
                Constraint::Occurs(CountRange::AtMost(m)) => count <= m,
                Constraint::Occurs(CountRange::Between { min, max }) => min <= count <= max,
                _ => true,
            } by {
                if i < last {
                    assert(front[i] == constraints[i]);
                }
            }
        }
    }
}

/// The text of a heading keeps the rules if and only if there is no finding on it.
proof fn lemma_no_text_errors(
    name: Seq<char>,
    constraints: Seq<Constraint>,
    capital: bool,
    quoted: Seq<char>,
)
    ensures
        text_errors_with(name, constraints, capital, quoted).len() == 0 <==> capital || forall|
            i: int,
        |
            0 <= i < constraints.len() ==> !(#[trigger] constraints[i] is Content),
    decreases constraints.len(),
{
    if constraints.len() > 0 {
        let front = constraints.drop_last();
        lemma_no_text_errors(name, front, capital, quoted);
        let last = constraints.len() - 1;
        assert(constraints[last] == constraints.last());
        if text_errors_with(name, constraints, capital, quoted).len() == 0 && !capital {
            assert forall|i: int| 0 <= i < constraints.len() implies !(#[trigger] constraints[i]
                is Content) by {
                if i < last {
                    assert(front[i] == constraints[i]);
                }
            }
        }
        if forall|i: int| 0 <= i < constraints.len() ==> !(#[trigger] constraints[i] is Content) {
            assert forall|i: int| 0 <= i < front.len() implies !(#[trigger] front[i]
                is Content) by {
                assert(front[i] == constraints[i]);
            }
        }
    }
}

/// The text in place of an image keeps the rules if and only if there is no finding
/// on it.
proof fn lemma_no_alt_errors(
    name: Seq<char>,
    constraints: Seq<Constraint>,
    alt: Option<Seq<char>>,
)
    ensures
        alt_errors(name, constraints, alt).len() == 0 <==> (alt is Some && alt->0.len() > 0)
            || forall|i: int|
            0 <= i < constraints.len() ==> #[trigger] constraints[i] != Constraint::Alt(
                AltRequirement::Required,
            ),
    decreases constraints.len(),
{
    if constraints.len() > 0 {
        let front = constraints.drop_last();
        lemma_no_alt_errors(name, front, alt);
        let last = constraints.len() - 1;
        assert(constraints[last] == constraints.last());
        if alt_errors(name, constraints, alt).len() == 0 && !(alt is Some && alt->0.len() > 0) {
            assert forall|i: int| 0 <= i < constraints.len() implies #[trigger] constraints[i]
                != Constraint::Alt(AltRequirement::Required) by {
                if i < last {
                    assert(front[i] == constraints[i]);
                }
            }
        }
        if forall|i: int|
            0 <= i < constraints.len() ==> #[trigger] constraints[i] != Constraint::Alt(
                AltRequirement::Required,
            ) {
            assert forall|i: int| 0 <= i < front.len() implies #[trigger] front[i]
                != Constraint::Alt(AltRequirement::Required) by {
                assert(front[i] == constraints[i]);
            }
        }
    }
}

/// There is no finding on elements if and only if there is none on each of them.
proof fn lemma_no_elements_errors(slot: Slot, elements: Seq<Spanned<ElementView>>)
    ensures
        elements_errors(slot, elements).len() == 0 <==> forall|j: int|
            0 <= j < elements.len() ==> element_errors(slot, (#[trigger] elements[j]).node).len()
                == 0,
    decreases elements.len(),
{
    if elements.len() > 0 {
        let front = elements.drop_last();
        lemma_no_elements_errors(slot, front);
        let last = elements.len() - 1;
        assert(elements[last] == elements.last());
        if elements_errors(slot, elements).len() == 0 {
            assert forall|j: int| 0 <= j < elements.len() implies element_errors(
                slot,
                (#[trigger] elements[j]).node,
            ).len() == 0 by {
                if j < last {
                    assert(front[j] == elements[j]);
                }
            }
        }
        if forall|j: int|
            0 <= j < elements.len() ==> element_errors(slot, (#[trigger] elements[j]).node).len()
                == 0 {
            assert forall|j: int| 0 <= j < front.len() implies element_errors(
                slot,
                (#[trigger] front[j]).node,
            ).len() == 0 by {
                assert(front[j] == elements[j]);
            }
        }
    }
}

/// The first count of a slot is that of a constraint that stands before all other
/// counts.
proof fn lemma_occurs_of(constraints: Seq<Constraint>) -> (k: int)
    ensures
        match schema::occurs_of(constraints) {
            Some(range) => 0 <= k < constraints.len() && constraints[k] == Constraint::Occurs(range)
                && forall|i: int| 0 <= i < k ==> !(#[trigger] constraints[i] is Occurs),
            None => forall|i: int|
                0 <= i < constraints.len() ==> !(#[trigger] constraints[i] is Occurs),
        },
    decreases constraints.len(),
{
    if constraints.len() == 0 {
        0
    } else if constraints[0] is Occurs {
        0
    } else {
        let rest = constraints.skip(1);
        let k = lemma_occurs_of(rest);
        match schema::occurs_of(constraints) {
            Some(range) => {
                assert(constraints[k + 1] == rest[k]);
                assert forall|i: int| 0 <= i < k + 1 implies !(#[trigger] constraints[i]
                    is Occurs) by {
                    if i > 0 {
                        assert(rest[i - 1] == constraints[i]);
                    }
                }
            },
            None => {
                assert forall|i: int| 0 <= i < constraints.len() implies !(#[trigger] constraints[i]
                    is Occurs) by {
                    if i > 0 {
                        assert(rest[i - 1] == constraints[i]);
                    }
                }
            },
        }
        k + 1
    }
}

/// The number of elements that a slot holds at most and at least is the largest and
/// the smallest that its first count admits; without a count it is one.
pub proof fn law_first_count_rules(slot: Slot, k: int)
    requires
        0 <= k <= slot.constraints@.len(),
        forall|i: int| 0 <= i < k ==> !(#[trigger] slot.constraints@[i] is Occurs),
        k < slot.constraints@.len() ==> slot.constraints@[k] is Occurs,
    ensures
        k == slot.constraints@.len() ==> slot.max_elements() == 1 && min_elements(slot) == 1,
        k < slot.constraints@.len() ==> match slot.constraints@[k]->Occurs_0 {
            CountRange::Exactly(n) => slot.max_elements() == n && min_elements(slot) == n,
            CountRange::AtLeast(n) => slot.max_elements() == usize::MAX && min_elements(slot) == n,
            CountRange::AtMost(n) => slot.max_elements() == n && min_elements(slot) == 0,
            CountRange::Between { min, max } => slot.max_elements() == max && min_elements(slot)
                == min,
        },
{
    let rules = slot.constraints@;
    let m = lemma_occurs_of(rules);
    if k < rules.len() {
        assert(rules[k] is Occurs);
        assert(schema::occurs_of(rules) is Some);
        if m < k {
            assert(rules[m] is Occurs);
        }
        if k < m {
            assert(!(rules[k] is Occurs));
        }
    } else if schema::occurs_of(rules) is Some {
        assert(rules[m] is Occurs);
    }
}

/// There is no finding on the elements of a slot if and only if they keep its rules.
pub proof fn law_slot_findings_are_broken_rules(slot: Slot, elements: Seq<Spanned<ElementView>>)
    requires
        forall|j: int|
            0 <= j < elements.len() ==> is_asked_for((#[trigger] elements[j]).node, slot.element),
    ensures
        slot_errors(slot, elements).len() == 0 <==> keeps_rules(slot, elements),
{
    let rules = slot.constraints@;
    let n = elements.len();
    lemma_no_elements_errors(slot, elements);
    lemma_no_occurs_errors(slot.name@, rules, n as int);
    let m = lemma_occurs_of(rules);
    let none = forall|i: int| 0 <= i < rules.len() ==> !(#[trigger] rules[i] is Occurs);
    if none {
        assert(schema::occurs_of(rules) is None) by {
            if schema::occurs_of(rules) is Some {
                assert(rules[m] is Occurs);
            }
        }
    } else {
        assert(schema::occurs_of(rules) is Some);
        assert(rules[m] == Constraint::Occurs(schema::occurs_of(rules)->0));
    }
    assert forall|j: int| 0 <= j < n implies (element_errors(slot, (#[trigger] elements[j]).node).len()
        == 0 <==> forall|i: int|
        0 <= i < rules.len() ==> match #[trigger] rules[i] {
            Constraint::Content(_) => elements[j].node is Heading
                ==> elements[j].node->Heading_text.len() > 0 && unicode::is_upper(
                elements[j].node->Heading_text[0],
            ),
            Constraint::Alt(AltRequirement::Required) => elements[j].node is Image
                ==> elements[j].node->alt is Some && elements[j].node->alt->0.len() > 0,
            _ => true,
        }) by {
        assert(is_asked_for(elements[j].node, slot.element));
        match elements[j].node {
            ElementView::Heading { text, .. } => {
                lemma_no_text_errors(
                    slot.name@,
                    rules,
                    is_capitalized(text),
                    unicode::debug_form(text),
                );
            },
            ElementView::Image { alt, .. } => {
                lemma_no_alt_errors(slot.name@, rules, alt);
            },
            _ => {},
        }
    }
    if slot_errors(slot, elements).len() == 0 {
        assert(elements_errors(slot, elements).len() == 0);
        assert(missing_error(slot, n as int).len() == 0);
        assert(occurs_errors(slot.name@, rules, n as int).len() == 0);
        assert forall|i: int| 0 <= i < rules.len() implies match #[trigger] rules[i] {
            Constraint::Occurs(CountRange::Exactly(m)) => n == m,
            Constraint::Occurs(CountRange::AtLeast(m)) => n >= m,
            Constraint::Occurs(CountRange::AtMost(m)) => n <= m,
            Constraint::Occurs(CountRange::Between { min, max }) => min <= n <= max,
            Constraint::Content(ContentConstraint::Capitalized) => forall|j: int|
                0 <= j < n && (#[trigger] elements[j]).node is Heading
                    ==> elements[j].node->Heading_text.len() > 0 && unicode::is_upper(
                    elements[j].node->Heading_text[0],
                ),
            Constraint::Alt(AltRequirement::Required) => forall|j: int|
                0 <= j < n && (#[trigger] elements[j]).node is Image ==> elements[j].node->alt is Some
                    && elements[j].node->alt->0.len() > 0,
            Constraint::Alt(AltRequirement::Optional) => true,
        } by {
            assert forall|j: int| 0 <= j < n implies element_errors(
                slot,
                (#[trigger] elements[j]).node,
            ).len() == 0 by {}
        }
    }
    if keeps_rules(slot, elements) {
        assert forall|j: int| 0 <= j < n implies element_errors(
            slot,
            (#[trigger] elements[j]).node,
        ).len() == 0 by {
            let e = elements[j].node;
            assert forall|i: int| 0 <= i < rules.len() implies match #[trigger] rules[i] {
                Constraint::Content(_) => e is Heading ==> e->Heading_text.len() > 0
                    && unicode::is_upper(e->Heading_text[0]),
                Constraint::Alt(AltRequirement::Required) => e is Image ==> e->alt is Some
                    && e->alt->0.len() > 0,
                _ => true,
            } by {}
        }
        assert(occurs_errors(slot.name@, rules, n as int).len() == 0) by {
            assert forall|i: int| 0 <= i < rules.len() implies match #[trigger] rules[i] {
                Constraint::Occurs(CountRange::Exactly(m)) => n == m,
                Constraint::Occurs(CountRange::AtLeast(m)) => n >= m,
                Constraint::Occurs(CountRange::AtMost(m)) => n <= m,
                Constraint::Occurs(CountRange::Between { min, max }) => min <= n <= max,
                _ => true,
            } by {}
        }
        assert(missing_error(slot, n as int).len() == 0);
    }
}

/// There is no finding on a body if and only if its headings have levels of the range.
pub proof fn law_body_findings_are_bad_levels(
    range: HeadingLevelRange,
    elements: Seq<Spanned<ElementView>>,
)
    ensures
        body_errors(range, elements).len() == 0 <==> forall|j: int|
            0 <= j < elements.len() && (#[trigger] elements[j]).node is Heading ==> range.min@
                <= elements[j].node->Heading_level <= range.max@,
        forall|i: int|
            0 <= i < body_errors(range, elements).len() ==> (#[trigger] body_errors(
                range,
                elements,
            )[i]).severity is Error && body_errors(range, elements)[i].slot is None,
    decreases elements.len(),
{
    if elements.len() > 0 {
        let front = elements.drop_last();
        law_body_findings_are_bad_levels(range, front);
        let last = elements.len() - 1;
        assert(elements[last] == elements.last());
        let before = body_errors(range, front);
        let all = body_errors(range, elements);
        if all.len() == 0 {
            assert forall|j: int|
                0 <= j < elements.len() && (#[trigger] elements[j]).node is Heading implies range.min@
                <= elements[j].node->Heading_level <= range.max@ by {
                if j < last {
                    assert(front[j] == elements[j]);
                }
            }
        }
        if forall|j: int|
            0 <= j < elements.len() && (#[trigger] elements[j]).node is Heading ==> range.min@
                <= elements[j].node->Heading_level <= range.max@ {
            assert forall|j: int|
                0 <= j < front.len() && (#[trigger] front[j]).node is Heading implies range.min@
                <= front[j].node->Heading_level <= range.max@ by {
                assert(front[j] == elements[j]);
            }
        }
        assert forall|i: int| 0 <= i < all.len() implies (#[trigger] all[i]).severity is Error
            && all[i].slot is None by {
            if i < before.len() {
                assert(all[i] == before[i]);
            }
        }
    }
}

/// There is no finding on a document if and only if each slot keeps its rules and the
/// headings of the body have levels that are allowed there.
pub proof fn law_findings_are_broken_rules(
    elements: Seq<Spanned<ElementView>>,
    grammar: Grammar,
    starts: Seq<int>,
    ends: Seq<int>,
    b: int,
)
    requires
        is_layout(elements, grammar.preamble@, 0, starts, ends),
        begins_body(elements, taken_before(0, ends, grammar.preamble@.len() as int), b),
    ensures
        findings(elements, grammar).len() == 0 <==> {
            &&& forall|k: int|
                0 <= k < grammar.preamble@.len() ==> keeps_rules(
                    #[trigger] grammar.preamble@[k],
                    elements.subrange(starts[k], ends[k]),
                )
            &&& grammar.body is Some && grammar.body->0.heading_range is Some ==> forall|j: int|
                b <= j < elements.len() && (#[trigger] elements[j]).node is Heading
                    ==> grammar.body->0.heading_range->0.min@ <= elements[j].node->Heading_level
                    <= grammar.body->0.heading_range->0.max@
        },
{
    let slots = grammar.preamble@;
    let found = found_by(elements, slots, starts, ends);
    lemma_walk_is(elements, slots, 0, starts, ends, b);
    lemma_flat_empty(found);
    assert forall|k: int| 0 <= k < slots.len() implies (found[k].len() == 0 <==> keeps_rules(
        #[trigger] slots[k],
        elements.subrange(starts[k], ends[k]),
    )) by {
        let own = elements.subrange(starts[k], ends[k]);
        assert(is_run(elements, slots[k], taken_before(0, ends, k), starts[k], ends[k]));
        assert forall|j: int| 0 <= j < own.len() implies is_asked_for(
            (#[trigger] own[j]).node,
            slots[k].element,
        ) by {
            assert(own[j] == elements[starts[k] + j]);
        }
        law_slot_findings_are_broken_rules(slots[k], own);
    }
    if forall|k: int|
        0 <= k < slots.len() ==> keeps_rules(
            #[trigger] slots[k],
            elements.subrange(starts[k], ends[k]),
        ) {
        assert forall|k: int| 0 <= k < found.len() implies (#[trigger] found[k]).len() == 0 by {
            assert(keeps_rules(slots[k], elements.subrange(starts[k], ends[k])));
        }
    }
    if found.flatten().len() == 0 {
        assert forall|k: int| 0 <= k < slots.len() implies keeps_rules(
            #[trigger] slots[k],
            elements.subrange(starts[k], ends[k]),
        ) by {
            assert(found[k].len() == 0);
        }
    }
    if grammar.body is Some && grammar.body->0.heading_range is Some {
        let range = grammar.body->0.heading_range->0;
        let body = elements.skip(b);
        if slots.len() > 0 {
            let k = slots.len() - 1;
            assert(is_run(elements, slots[k], taken_before(0, ends, k), starts[k], ends[k]));
        }
        law_body_findings_are_bad_levels(range, body);
        if body_errors(range, body).len() == 0 {
            assert forall|j: int|
                b <= j < elements.len() && (#[trigger] elements[j]).node is Heading implies range.min@
                <= elements[j].node->Heading_level <= range.max@ by {
                assert(body[j - b] == elements[j]);
            }
        }
        if forall|j: int|
            b <= j < elements.len() && (#[trigger] elements[j]).node is Heading ==> range.min@
                <= elements[j].node->Heading_level <= range.max@ {
            assert forall|j: int|
                0 <= j < body.len() && (#[trigger] body[j]).node is Heading implies range.min@
                <= body[j].node->Heading_level <= range.max@ by {
                assert(body[j] == elements[b + j]);
            }
        }
    }
}

/// Every sequence of elements has a layout for every sequence of slots, and a place
/// where its body begins.
pub proof fn law_elements_have_a_layout(
    elements: Seq<Spanned<ElementView>>,
    slots: Seq<Slot>,
    cursor: int,
) -> (r: (Seq<int>, Seq<int>, int))
    requires
        0 <= cursor <= elements.len(),
    ensures
        is_layout(elements, slots, cursor, r.0, r.1),
        begins_body(elements, taken_before(cursor, r.1, slots.len() as int), r.2),
    decreases slots.len(),
{
    if slots.len() == 0 {
        let b = lemma_body_begins(elements, cursor);
        (seq![], seq![], b)
    } else {
        let from = lemma_annotations_end(elements, cursor);
        let to = lemma_run_ends(elements, from, slots[0].element, slots[0].max_elements() as int);
        let t = slots.skip(1);
        let (s, e, b) = law_elements_have_a_layout(elements, t, to);
        let starts = seq![from] + s;
        let ends = seq![to] + e;
        assert forall|k: int| 0 <= k < slots.len() implies is_run(
            elements,
            #[trigger] slots[k],
            taken_before(cursor, ends, k),
            starts[k],
            ends[k],
        ) by {
            if k > 0 {
                assert(t[k - 1] == slots[k]);
                assert(is_run(elements, t[k - 1], taken_before(to, e, k - 1), s[k - 1], e[k - 1]));
            }
        }
        assert(taken_before(cursor, ends, slots.len() as int) == taken_before(
            to,
            e,
            t.len() as int,
        ));
        (starts, ends, b)
    }
}

/// The body begins somewhere.
proof fn lemma_body_begins(elements: Seq<Spanned<ElementView>>, cursor: int) -> (b: int)
    requires
        0 <= cursor <= elements.len(),
    ensures
        begins_body(elements, cursor, b),
    decreases elements.len() - cursor,
{
    if cursor == elements.len() {
        cursor
    } else if elements[cursor].node is Separator {
        cursor + 1
    } else {
        lemma_body_begins(elements, cursor + 1)
    }
}

/// Annotations end somewhere.
proof fn lemma_annotations_end(elements: Seq<Spanned<ElementView>>, cursor: int) -> (to: int)
    requires
        0 <= cursor <= elements.len(),
    ensures
        cursor <= to <= elements.len(),
        forall|j: int|
            cursor <= j < to ==> (#[trigger] elements[j]).node is Paragraph
                && slot_assignment::is_annotation(elements[j].node->Paragraph_text),
        to < elements.len() ==> !(elements[to].node is Paragraph && slot_assignment::is_annotation(
            elements[to].node->Paragraph_text,
        )),
    decreases elements.len() - cursor,
{
    if cursor < elements.len() && elements[cursor].node is Paragraph
        && slot_assignment::is_annotation(elements[cursor].node->Paragraph_text) {
        lemma_annotations_end(elements, cursor + 1)
    } else {
        cursor
    }
}

/// The elements of a kind end somewhere.
proof fn lemma_run_ends(
    elements: Seq<Spanned<ElementView>>,
    from: int,
    kind: Element,
    max: int,
) -> (to: int)
    requires
        0 <= from <= elements.len(),
        max >= 0,
    ensures
        from <= to <= elements.len(),
        forall|j: int| from <= j < to ==> is_asked_for((#[trigger] elements[j]).node, kind),
        to - from <= max,
        to - from == max || to == elements.len() || !is_asked_for(elements[to].node, kind),
    decreases elements.len() - from,
{
    if max > 0 && from < elements.len() && is_asked_for(elements[from].node, kind) {
        lemma_run_ends(elements, from + 1, kind, max - 1)
    } else {
        from
    }
}

/// What is found in an element of a slot is found in the slot.
proof fn lemma_element_found(
    slot: Slot,
    elements: Seq<Spanned<ElementView>>,
    j: int,
    d: DiagnosticView,
)
    requires
        0 <= j < elements.len(),
        element_errors(slot, elements[j].node).contains(d),
    ensures
        elements_errors(slot, elements).contains(d),
    decreases elements.len(),
{
    let front = elements.drop_last();
    let before = elements_errors(slot, front);
    let last = element_errors(slot, elements.last().node);
    let all = elements_errors(slot, elements);
    if j == elements.len() - 1 {
        let i = choose|i: int| 0 <= i < last.len() && last[i] == d;
        assert(all[before.len() + i] == d);
    } else {
        lemma_element_found(slot, front, j, d);
        let i = choose|i: int| 0 <= i < before.len() && before[i] == d;
        assert(all[i] == d);
    }
}

/// What is found in the elements of a slot, on their number or on what is missing is
/// found in the slot.
proof fn lemma_part_found(slot: Slot, elements: Seq<Spanned<ElementView>>, d: DiagnosticView)
    requires
        elements_errors(slot, elements).contains(d) || missing_error(
            slot,
            elements.len() as int,
        ).contains(d) || occurs_errors(
            slot.name@,
            slot.constraints@,
            elements.len() as int,
        ).contains(d),
    ensures
        slot_errors(slot, elements).contains(d),
{
    let a = elements_errors(slot, elements);
    let b = missing_error(slot, elements.len() as int);
    let c = occurs_errors(slot.name@, slot.constraints@, elements.len() as int);
    let all = slot_errors(slot, elements);
    if a.contains(d) {
        let i = choose|i: int| 0 <= i < a.len() && a[i] == d;
        assert(all[i] == d);
    } else if b.contains(d) {
        let i = choose|i: int| 0 <= i < b.len() && b[i] == d;
        assert(all[a.len() + i] == d);
    } else {
        let i = choose|i: int| 0 <= i < c.len() && c[i] == d;
        assert(all[a.len() + b.len() + i] == d);
    }
}

/// What one of the slots finds is found in the document.
pub proof fn law_document_has_what_its_slots_find(
    elements: Seq<Spanned<ElementView>>,
    grammar: Grammar,
    starts: Seq<int>,
    ends: Seq<int>,
    k: int,
    d: DiagnosticView,
)
    requires
        is_layout(elements, grammar.preamble@, 0, starts, ends),
        0 <= k < grammar.preamble@.len(),
        slot_errors(grammar.preamble@[k], elements.subrange(starts[k], ends[k])).contains(d),
    ensures
        findings(elements, grammar).contains(d),
{
    let slots = grammar.preamble@;
    let found = found_by(elements, slots, starts, ends);
    let last = slots.len() - 1;
    assert(is_run(elements, slots[last], taken_before(0, ends, last), starts[last], ends[last]));
    let b = lemma_body_begins(elements, ends[last]);
    lemma_walk_is(elements, slots, 0, starts, ends, b);
    assert(found[k].contains(d));
    lemma_flat_has(found, k, d);
    let own = found.flatten();
    let i = choose|i: int| 0 <= i < own.len() && own[i] == d;
    assert(findings(elements, grammar)[i] == d);
}

/// The finding on an image whose text is missing where one is required.
proof fn lemma_alt_found(name: Seq<char>, constraints: Seq<Constraint>, alt: Option<Seq<char>>)
    requires
        constraints.contains(Constraint::Alt(AltRequirement::Required)),
        alt is None || alt->0.len() == 0,
    ensures
        alt_errors(name, constraints, alt).contains(
            DiagnosticView {
                severity: Severity::Error,
                message: "slot '"@ + name + "': "@ + "image must have non-empty alt text"@,
                slot: Some(name),
            },
        ),
    decreases constraints.len(),
{
    let front = constraints.drop_last();
    let all = alt_errors(name, constraints, alt);
    let before = alt_errors(name, front, alt);
    let d = slot_error(name, "image must have non-empty alt text"@);
    let rule = Constraint::Alt(AltRequirement::Required);
    if constraints.last() == rule {
        assert(all.last() == d);
    } else {
        let i = choose|i: int| 0 <= i < constraints.len() && constraints[i] == rule;
        assert(front[i] == rule);
        lemma_alt_found(name, front, alt);
        let i = choose|i: int| 0 <= i < before.len() && before[i] == d;
        assert(all[i] == d);
    }
}

/// Where a slot asks for the text of its images, each image that has none, or an empty
/// one, is found, as an error of that slot.
pub proof fn law_image_without_text_is_found(
    slot: Slot,
    elements: Seq<Spanned<ElementView>>,
    j: int,
)
    requires
        slot.element is Image,
        slot.constraints@.contains(Constraint::Alt(AltRequirement::Required)),
        0 <= j < elements.len(),
        elements[j].node is Image,
        elements[j].node->alt is None || elements[j].node->alt->0.len() == 0,
    ensures
        slot_errors(slot, elements).contains(
            DiagnosticView {
                severity: Severity::Error,
                message: "slot '"@ + slot.name@ + "': "@ + "image must have non-empty alt text"@,
                slot: Some(slot.name@),
            },
        ),
{
    let d = slot_error(slot.name@, "image must have non-empty alt text"@);
    lemma_alt_found(slot.name@, slot.constraints@, elements[j].node->alt);
    lemma_element_found(slot, elements, j, d);
    lemma_part_found(slot, elements, d);
}

/// An image that lacks its text makes a document invalid: where it is among those that
/// count for a slot that asks for the text, there is an error on that slot.
pub proof fn law_document_with_an_image_without_text(
    elements: Seq<Spanned<ElementView>>,
    grammar: Grammar,
    starts: Seq<int>,
    ends: Seq<int>,
    k: int,
    j: int,
)
    requires
        is_layout(elements, grammar.preamble@, 0, starts, ends),
        0 <= k < grammar.preamble@.len(),
        grammar.preamble@[k].element is Image,
        grammar.preamble@[k].constraints@.contains(Constraint::Alt(AltRequirement::Required)),
        starts[k] <= j < ends[k],
        elements[j].node is Image,
        elements[j].node->alt is None || elements[j].node->alt->0.len() == 0,
    ensures
        findings(elements, grammar).contains(
            DiagnosticView {
                severity: Severity::Error,
                message: "slot '"@ + grammar.preamble@[k].name@ + "': "@
                    + "image must have non-empty alt text"@,
                slot: Some(grammar.preamble@[k].name@),
            },
        ),
{
    let slot = grammar.preamble@[k];
    let own = elements.subrange(starts[k], ends[k]);
    assert(is_run(elements, slot, taken_before(0, ends, k), starts[k], ends[k]));
    assert(own[j - starts[k]] == elements[j]);
    law_image_without_text_is_found(slot, own, j - starts[k]);
    law_document_has_what_its_slots_find(
        elements,
        grammar,
        starts,
        ends,
        k,
        slot_error(slot.name@, "image must have non-empty alt text"@),
    );
}

/// Where no image of a slot lacks its text, no finding of the slot is about that.
pub proof fn law_images_with_texts_are_fine(slot: Slot, elements: Seq<Spanned<ElementView>>)
    requires
        slot.element is Image,
        forall|j: int|
            0 <= j < elements.len() ==> (#[trigger] elements[j]).node is Image
                && elements[j].node->alt is Some && elements[j].node->alt->0.len() > 0,
    ensures
        forall|i: int|
            0 <= i < slot_errors(slot, elements).len() ==> (#[trigger] slot_errors(
                slot,
                elements,
            )[i]).message != "slot '"@ + slot.name@ + "': "@
                + "image must have non-empty alt text"@,
{
    reveal_strlit("image must have non-empty alt text");
    reveal_strlit("missing required image");
    reveal_strlit("expected ");
    let name = slot.name@;
    let what = "image must have non-empty alt text"@;
    let all = slot_errors(slot, elements);
    let start = "slot '"@ + name + "': "@;
    lemma_no_elements_errors(slot, elements);
    assert forall|j: int| 0 <= j < elements.len() implies element_errors(
        slot,
        (#[trigger] elements[j]).node,
    ).len() == 0 by {
        lemma_no_alt_errors(name, slot.constraints@, elements[j].node->alt);
    }
    let missing = missing_error(slot, elements.len() as int);
    let counts = occurs_errors(name, slot.constraints@, elements.len() as int);
    lemma_occurs_words(name, slot.constraints@, elements.len() as int);
    assert forall|i: int| 0 <= i < all.len() implies (#[trigger] all[i]).message != start
        + what by {
        let at = start.len() as int;
        assert((start + what)[at] == 'i');
        if i < missing.len() {
            assert(all[i] == missing[i]);
            assert((start + "missing required image"@)[at] == 'm');
        } else {
            assert(all[i] == counts[i - missing.len()]);
            assert(all[i].message[at] == 'e');
        }
    }
}

/// The findings on the number of elements begin alike.
proof fn lemma_occurs_words(name: Seq<char>, constraints: Seq<Constraint>, count: int)
    ensures
        forall|i: int|
            0 <= i < occurs_errors(name, constraints, count).len() ==> (#[trigger] occurs_errors(
                name,
                constraints,
                count,
            )[i]).message.len() > ("slot '"@ + name + "': "@).len() && occurs_errors(
                name,
                constraints,
                count,
            )[i].message[("slot '"@ + name + "': "@).len() as int] == 'e',
    decreases constraints.len(),
{
    if constraints.len() > 0 {
        reveal_strlit("expected ");
        let front = constraints.drop_last();
        lemma_occurs_words(name, front, count);
        let before = occurs_errors(name, front, count);
        let all = occurs_errors(name, constraints, count);
        let start = "slot '"@ + name + "': "@;
        assert forall|i: int| 0 <= i < all.len() implies (#[trigger] all[i]).message.len()
            > start.len() && all[i].message[start.len() as int] == 'e' by {
            if i < before.len() {
                assert(all[i] == before[i]);
            } else {
                let range = constraints.last()->Occurs_0;
                let what = "expected "@ + count_words(range) + ", found "@ + decimal::digits(
                    count as nat,
                );
                assert(what[0] == 'e');
                assert(all[i].message == start + what);
                assert((start + what)[start.len() as int] == 'e');
            }
        }
    }
}

/// The finding on a text that is not capitalised.
proof fn lemma_capital_found(name: Seq<char>, constraints: Seq<Constraint>, quoted: Seq<char>)
    requires
        constraints.contains(Constraint::Content(ContentConstraint::Capitalized)),
    ensures
        text_errors_with(name, constraints, false, quoted).contains(
            DiagnosticView {
                severity: Severity::Error,
                message: "slot '"@ + name + "': "@
                    + ("text must start with an uppercase letter, got: "@ + quoted),
                slot: Some(name),
            },
        ),
    decreases constraints.len(),
{
    let front = constraints.drop_last();
    let all = text_errors_with(name, constraints, false, quoted);
    let before = text_errors_with(name, front, false, quoted);
    let d = slot_error(name, "text must start with an uppercase letter, got: "@ + quoted);
    let rule = Constraint::Content(ContentConstraint::Capitalized);
    if constraints.last() == rule {
        assert(all.last() == d);
    } else {
        let i = choose|i: int| 0 <= i < constraints.len() && constraints[i] == rule;
        assert(front[i] == rule);
        lemma_capital_found(name, front, quoted);
        let i = choose|i: int| 0 <= i < before.len() && before[i] == d;
        assert(all[i] == d);
    }
}

/// Where a slot asks for capitalised headings, each heading that is empty or does not
/// begin with an uppercase character is found, with its text, as an error of that slot.
pub proof fn law_heading_without_capital_is_found(
    slot: Slot,
    elements: Seq<Spanned<ElementView>>,
    j: int,
)
    requires
        slot.element is Heading,
        slot.constraints@.contains(Constraint::Content(ContentConstraint::Capitalized)),
        0 <= j < elements.len(),
        elements[j].node is Heading,
        elements[j].node->Heading_text.len() == 0 || !unicode::is_upper(
            elements[j].node->Heading_text[0],
        ),
    ensures
        slot_errors(slot, elements).contains(
            DiagnosticView {
                severity: Severity::Error,
                message: "slot '"@ + slot.name@ + "': "@
                    + ("text must start with an uppercase letter, got: "@ + unicode::debug_form(
                    elements[j].node->Heading_text,
                )),
                slot: Some(slot.name@),
            },
        ),
{
    let quoted = unicode::debug_form(elements[j].node->Heading_text);
    let d = slot_error(slot.name@, "text must start with an uppercase letter, got: "@ + quoted);
    lemma_capital_found(slot.name@, slot.constraints@, quoted);
    lemma_element_found(slot, elements, j, d);
    lemma_part_found(slot, elements, d);
}

/// What a slot finds is in error and names the slot.
pub proof fn law_slot_findings_name_their_slot(slot: Slot, elements: Seq<Spanned<ElementView>>)
    ensures
        forall|i: int|
            0 <= i < slot_errors(slot, elements).len() ==> (#[trigger] slot_errors(
                slot,
                elements,
            )[i]).severity is Error && slot_errors(slot, elements)[i].slot == Some(slot.name@),
{
    let name = slot.name@;
    let all = slot_errors(slot, elements);
    let a = elements_errors(slot, elements);
    let b = missing_error(slot, elements.len() as int);
    let c = occurs_errors(name, slot.constraints@, elements.len() as int);
    lemma_elements_errors_name(slot, elements);
    lemma_occurs_errors_name(name, slot.constraints@, elements.len() as int);
    assert forall|i: int| 0 <= i < all.len() implies (#[trigger] all[i]).severity is Error
        && all[i].slot == Some(name) by {
        if i < a.len() {
            assert(all[i] == a[i]);
        } else if i < a.len() + b.len() {
            assert(all[i] == b[i - a.len()]);
        } else {
            assert(all[i] == c[i - a.len() - b.len()]);
        }
    }
}

/// What is found in the elements of a slot is in error and names the slot.
proof fn lemma_elements_errors_name(slot: Slot, elements: Seq<Spanned<ElementView>>)
    ensures
        forall|i: int|
            0 <= i < elements_errors(slot, elements).len() ==> (#[trigger] elements_errors(
                slot,
                elements,
            )[i]).severity is Error && elements_errors(slot, elements)[i].slot == Some(slot.name@),
    decreases elements.len(),
{
    if elements.len() > 0 {
        let front = elements.drop_last();
        lemma_elements_errors_name(slot, front);
        let before = elements_errors(slot, front);
        let last = element_errors(slot, elements.last().node);
        let all = elements_errors(slot, elements);
        match elements.last().node {
            ElementView::Heading { text, .. } => {
                lemma_text_errors_name(
                    slot.name@,
                    slot.constraints@,
                    is_capitalized(text),
                    unicode::debug_form(text),
                );
            },
            ElementView::Image { alt, .. } => {
                lemma_alt_errors_name(slot.name@, slot.constraints@, alt);
            },
            _ => {},
        }
        assert forall|i: int| 0 <= i < all.len() implies (#[trigger] all[i]).severity is Error
            && all[i].slot == Some(slot.name@) by {
            if i < before.len() {
                assert(all[i] == before[i]);
            } else {
                assert(all[i] == last[i - before.len()]);
            }
        }
    }
}

/// What is found on the number of elements is in error and names the slot.
proof fn lemma_occurs_errors_name(name: Seq<char>, constraints: Seq<Constraint>, count: int)
    ensures
        forall|i: int|
            0 <= i < occurs_errors(name, constraints, count).len() ==> (#[trigger] occurs_errors(
                name,
                constraints,
                count,
            )[i]).severity is Error && occurs_errors(name, constraints, count)[i].slot == Some(name),
    decreases constraints.len(),
{
    if constraints.len() > 0 {
        let before = occurs_errors(name, constraints.drop_last(), count);
        let all = occurs_errors(name, constraints, count);
        lemma_occurs_errors_name(name, constraints.drop_last(), count);
        assert forall|i: int| 0 <= i < all.len() implies (#[trigger] all[i]).severity is Error
            && all[i].slot == Some(name) by {
            if i < before.len() {
                assert(all[i] == before[i]);
            }
        }
    }
}

/// What is found on a text is in error and names the slot.
proof fn lemma_text_errors_name(
    name: Seq<char>,
    constraints: Seq<Constraint>,
    capital: bool,
    quoted: Seq<char>,
)
    ensures
        forall|i: int|
            0 <= i < text_errors_with(name, constraints, capital, quoted).len() ==> (
            #[trigger] text_errors_with(name, constraints, capital, quoted)[i]).severity is Error
                && text_errors_with(name, constraints, capital, quoted)[i].slot == Some(name),
    decreases constraints.len(),
{
    if constraints.len() > 0 {
        let before = text_errors_with(name, constraints.drop_last(), capital, quoted);
        let all = text_errors_with(name, constraints, capital, quoted);
        lemma_text_errors_name(name, constraints.drop_last(), capital, quoted);
        assert forall|i: int| 0 <= i < all.len() implies (#[trigger] all[i]).severity is Error
            && all[i].slot == Some(name) by {
            if i < before.len() {
                assert(all[i] == before[i]);
            }
        }
    }
}

/// What is found on the text of an image is in error and names the slot.
proof fn lemma_alt_errors_name(
    name: Seq<char>,
    constraints: Seq<Constraint>,
    alt: Option<Seq<char>>,
)
    ensures
        forall|i: int|
            0 <= i < alt_errors(name, constraints, alt).len() ==> (#[trigger] alt_errors(
                name,
                constraints,
                alt,
            )[i]).severity is Error && alt_errors(name, constraints, alt)[i].slot == Some(name),
    decreases constraints.len(),
{
    if constraints.len() > 0 {
        let before = alt_errors(name, constraints.drop_last(), alt);
        let all = alt_errors(name, constraints, alt);
        lemma_alt_errors_name(name, constraints.drop_last(), alt);
        assert forall|i: int| 0 <= i < all.len() implies (#[trigger] all[i]).severity is Error
            && all[i].slot == Some(name) by {
            if i < before.len() {
                assert(all[i] == before[i]);
            }
        }
    }
}

/// A number of elements that a count does not admit is found, with both in words.
proof fn lemma_count_found(
    name: Seq<char>,
    constraints: Seq<Constraint>,
    count: int,
    range: CountRange,
)
    requires
        constraints.contains(Constraint::Occurs(range)),
        !in_count_range(count, range),
    ensures
        occurs_errors(name, constraints, count).contains(
            slot_error(
                name,
                "expected "@ + count_words(range) + ", found "@ + decimal::digits(count as nat),
            ),
        ),
    decreases constraints.len(),
{
    let front = constraints.drop_last();
    let all = occurs_errors(name, constraints, count);
    let before = occurs_errors(name, front, count);
    let d = slot_error(
        name,
        "expected "@ + count_words(range) + ", found "@ + decimal::digits(count as nat),
    );
    let rule = Constraint::Occurs(range);
    if constraints.last() == rule {
        assert(all.last() == d);
    } else {
        let i = choose|i: int| 0 <= i < constraints.len() && constraints[i] == rule;
        assert(front[i] == rule);
        lemma_count_found(name, front, count, range);
        let i = choose|i: int| 0 <= i < before.len() && before[i] == d;
        assert(all[i] == d);
    }
}

/// A number of elements that a count of the slot does not admit is found, with the
/// count and the number, as an error of that slot.
pub proof fn law_bad_count_is_found(
    slot: Slot,
    elements: Seq<Spanned<ElementView>>,
    range: CountRange,
)
    requires
        slot.constraints@.contains(Constraint::Occurs(range)),
        match range {
            CountRange::Exactly(n) => elements.len() != n,
            CountRange::AtLeast(n) => elements.len() < n,
            CountRange::AtMost(n) => elements.len() > n,
            CountRange::Between { min, max } => elements.len() < min || elements.len() > max,
        },
    ensures
        exists|d: DiagnosticView|
            {
                &&& #[trigger] slot_errors(slot, elements).contains(d)
                &&& d.severity is Error
                &&& d.slot == Some(slot.name@)
                &&& d.message == "slot '"@ + slot.name@ + "': "@ + ("expected "@ + match range {
                    CountRange::Exactly(n) => "exactly "@ + decimal::digits(n as nat),
                    CountRange::AtLeast(n) => "at least "@ + decimal::digits(n as nat),
                    CountRange::AtMost(n) => "at most "@ + decimal::digits(n as nat),
                    CountRange::Between { min, max } => "between "@ + decimal::digits(min as nat)
                        + " and "@ + decimal::digits(max as nat),
                } + ", found "@ + decimal::digits(elements.len()))
            },
{
    let d = slot_error(
        slot.name@,
        "expected "@ + count_words(range) + ", found "@ + decimal::digits(elements.len()),
    );
    lemma_count_found(slot.name@, slot.constraints@, elements.len() as int, range);
    lemma_part_found(slot, elements, d);
    assert(slot_errors(slot, elements).contains(d));
}

/// A slot that needs an element and has none is found, by the kind of the element.
pub proof fn law_missing_element_is_found(slot: Slot)
    requires
        min_elements(slot) > 0,
    ensures
        exists|d: DiagnosticView|
            {
                &&& #[trigger] slot_errors(slot, seq![]).contains(d)
                &&& d.severity is Error
                &&& d.slot == Some(slot.name@)
                &&& d.message == "slot '"@ + slot.name@ + "': "@ + match slot.element {
                    Element::Heading { level } => "missing required heading ("@ + ("H"@
                        + decimal::digits(level.min@ as nat) + "-H"@ + decimal::digits(
                        level.max@ as nat,
                    )) + ")"@,
                    Element::Paragraph => "expected at least "@ + decimal::digits(
                        min_elements(slot) as nat,
                    ) + " paragraph(s), found "@ + decimal::digits(0),
                    Element::Link { .. } => "missing required link"@,
                    Element::Image { .. } => "missing required image"@,
                    Element::List => "missing required list"@,
                }
            },
{
    let missing = missing_error(slot, 0);
    let d = missing[0];
    assert(missing.contains(d));
    lemma_part_found(slot, seq![], d);
    assert(slot_errors(slot, seq![]).contains(d));
}

} // verus!
