use std::sync::Arc;

use presemble::diff::{diff, Change};
use presemble::document::{ContentElement, DocumentSlot};
use presemble::schema::{
    BodyRules, Constraint, ContentConstraint, CountRange, Element, Grammar, HeadingLevel,
    HeadingLevelRange, Slot, SlotName, Span, Spanned,
};
use presemble::slot_assignment::parse_and_assign;
use presemble::transform::{Capitalize, CompositeTransform, InsertSeparator, InsertSlot, Transform};

fn levels(min: u8, max: u8) -> HeadingLevelRange {
    HeadingLevelRange {
        min: HeadingLevel::new(min).unwrap(),
        max: HeadingLevel::new(max).unwrap(),
    }
}

fn slot(name: &str, element: Element, constraints: Vec<Constraint>) -> Slot {
    Slot { name: SlotName::new(name), element, constraints }
}

/// A post: a title (one top-level heading, capitalized), a summary (one to three
/// paragraphs), an author (one link), and a body with headings of level 3 to 6.
fn post_grammar() -> Grammar {
    Grammar {
        preamble: vec![
            slot(
                "title",
                Element::Heading { level: levels(1, 1) },
                vec![
                    Constraint::Occurs(CountRange::Exactly(1)),
                    Constraint::Content(ContentConstraint::Capitalized),
                ],
            ),
            slot(
                "summary",
                Element::Paragraph,
                vec![Constraint::Occurs(CountRange::Between { min: 1, max: 3 })],
            ),
            slot(
                "author",
                Element::Link { pattern: "/author/<name>".to_string() },
                vec![Constraint::Occurs(CountRange::Exactly(1))],
            ),
        ],
        body: Some(BodyRules { heading_range: Some(levels(3, 6)) }),
    }
}

#[test]
fn identical_documents_produce_empty_diff() {
    let grammar = Arc::new(post_grammar());
    let src = "# Hello\n\nSummary.\n\n[Jo](/author/jo)\n\n----\n\nBody text.\n";
    let doc = parse_and_assign(src, &grammar).unwrap();
    let cloned = doc.clone();
    let result = diff(&doc, &cloned);
    assert!(result.is_empty(), "identical documents should produce empty diff, got: {:?}", result.changes);
}

#[test]
fn slot_changed_detected() {
    let grammar = Arc::new(post_grammar());
    let src = "# hello\n\nSummary.\n\n[Jo](/author/jo)\n\n----\n";
    let before = parse_and_assign(src, &grammar).unwrap();
    let transform = Capitalize::new(Arc::clone(&grammar), "title").unwrap();
    let after = transform.apply(before.clone()).unwrap();
    let result = diff(&before, &after);
    assert!(!result.is_empty(), "expected a change");
    let has_slot_changed = result.changes.iter().any(|c| matches!(c, Change::SlotChanged { name, .. } if name.as_str() == "title"));
    assert!(has_slot_changed, "expected SlotChanged for 'title', got: {:?}", result.changes);
}

#[test]
fn slot_added_detected() {
    // SlotAdded only fires when the slot is absent from before's preamble entirely.
    // When a slot exists but is empty, InsertSlot produces SlotChanged instead.
    // We construct before with no "title" slot in preamble, after with one.
    let grammar = Arc::new(post_grammar());
    let src = "Summary.\n\n[Jo](/author/jo)\n\n----\n";
    let before = parse_and_assign(src, &grammar).unwrap();
    // InsertSlot into a doc that already has the slot (empty) produces SlotChanged
    let transform = InsertSlot::new(Arc::clone(&grammar), "title", "New Title".to_string()).unwrap();
    let after = transform.apply(before.clone()).unwrap();
    let result = diff(&before, &after);
    // title slot exists in preamble (empty before, filled after) => SlotChanged
    let has_title_change = result.changes.iter().any(|c| match c {
        Change::SlotChanged { name, .. } => name.as_str() == "title",
        Change::SlotAdded { name, .. } => name.as_str() == "title",
        _ => false,
    });
    assert!(has_title_change, "expected a change for 'title', got: {:?}", result.changes);
}

#[test]
fn slot_added_when_absent_from_before() {
    // Construct a before document with a preamble that lacks the slot entirely.
    // Build an after document that has a slot the before doesn't have
    let grammar = Arc::new(post_grammar());
    let src = "Summary.\n\n[Jo](/author/jo)\n\n----\n";
    let mut before = parse_and_assign(src, &grammar).unwrap();
    // Remove the "title" slot from before's preamble entirely
    before.preamble.retain(|s| s.name.as_str() != "title");
    // Build after with a title slot present
    let mut after = before.clone();
    // Add a title slot to after's preamble
    let title_slot = DocumentSlot {
        name: grammar.preamble.iter().find(|s| s.name.as_str() == "title").unwrap().name.clone(),
        elements: im::Vector::from(vec![Spanned {
            node: ContentElement::Heading {
                level: HeadingLevel::new(1).unwrap(),
                text: "New Title".to_string(),
            },
            span: Span { start: 0, end: 0 },
        }]),
    };
    after.preamble.push_front(title_slot);
    let result = diff(&before, &after);
    let has_slot_added = result.changes.iter().any(|c| matches!(c, Change::SlotAdded { name, .. } if name.as_str() == "title"));
    assert!(has_slot_added, "expected SlotAdded for 'title', got: {:?}", result.changes);
}

#[test]
fn slot_changed_when_content_differs() {
    // Before has a filled slot, after has the same slot but different content
    let grammar = Arc::new(post_grammar());
    let src_before = "# Original Title\n\nSummary.\n\n[Jo](/author/jo)\n\n----\n";
    let src_after = "# Changed Title\n\nSummary.\n\n[Jo](/author/jo)\n\n----\n";
    let before = parse_and_assign(src_before, &grammar).unwrap();
    let after = parse_and_assign(src_after, &grammar).unwrap();
    let result = diff(&before, &after);
    let has_slot_changed = result.changes.iter().any(|c| matches!(c, Change::SlotChanged { name, .. } if name.as_str() == "title"));
    assert!(has_slot_changed, "expected SlotChanged for 'title', got: {:?}", result.changes);
}

#[test]
fn separator_added_detected() {
    let grammar = Arc::new(post_grammar());
    let src = "# Title\n\nSummary.\n\n[Jo](/author/jo)\n";
    let before = parse_and_assign(src, &grammar).unwrap();
    assert!(!before.has_separator);
    let transform = InsertSeparator;
    let after = transform.apply(before.clone()).unwrap();
    let result = diff(&before, &after);
    let has_separator_added = result.changes.iter().any(|c| matches!(c, Change::SeparatorAdded));
    assert!(has_separator_added, "expected SeparatorAdded, got: {:?}", result.changes);
}

#[test]
fn separator_removed_detected() {
    let grammar = Arc::new(post_grammar());
    let src = "# Title\n\nSummary.\n\n[Jo](/author/jo)\n\n----\n";
    let before = parse_and_assign(src, &grammar).unwrap();
    assert!(before.has_separator);
    let mut after = before.clone();
    after.has_separator = false;
    let result = diff(&before, &after);
    let has_separator_removed = result.changes.iter().any(|c| matches!(c, Change::SeparatorRemoved));
    assert!(has_separator_removed, "expected SeparatorRemoved, got: {:?}", result.changes);
}

#[test]
fn body_changed_detected() {
    let grammar = Arc::new(post_grammar());
    let src_before = "# Title\n\nSummary.\n\n[Jo](/author/jo)\n\n----\n\nOriginal body.\n";
    let src_after = "# Title\n\nSummary.\n\n[Jo](/author/jo)\n\n----\n\nChanged body.\n";
    let before = parse_and_assign(src_before, &grammar).unwrap();
    let after = parse_and_assign(src_after, &grammar).unwrap();
    let result = diff(&before, &after);
    let has_body_changed = result.changes.iter().any(|c| matches!(c, Change::BodyChanged { .. }));
    assert!(has_body_changed, "expected BodyChanged, got: {:?}", result.changes);
}

#[test]
fn unchanged_slots_not_reported() {
    let grammar = Arc::new(post_grammar());
    let src = "# hello\n\nSummary.\n\n[Jo](/author/jo)\n\n----\n";
    let before = parse_and_assign(src, &grammar).unwrap();
    // Only capitalize 'title'; 'summary' and 'author' should not appear in diff
    let transform = Capitalize::new(Arc::clone(&grammar), "title").unwrap();
    let after = transform.apply(before.clone()).unwrap();
    let result = diff(&before, &after);
    let has_summary_change = result.changes.iter().any(|c| match c {
        Change::SlotChanged { name, .. } => name.as_str() == "summary",
        Change::SlotAdded { name, .. } => name.as_str() == "summary",
        Change::SlotRemoved { name, .. } => name.as_str() == "summary",
        _ => false,
    });
    let has_author_change = result.changes.iter().any(|c| match c {
        Change::SlotChanged { name, .. } => name.as_str() == "author",
        Change::SlotAdded { name, .. } => name.as_str() == "author",
        Change::SlotRemoved { name, .. } => name.as_str() == "author",
        _ => false,
    });
    assert!(!has_summary_change, "summary should not appear in diff, got: {:?}", result.changes);
    assert!(!has_author_change, "author should not appear in diff, got: {:?}", result.changes);
}

#[test]
fn composite_produces_multiple_changes() {
    let grammar = Arc::new(post_grammar());
    let src = "Summary.\n\n[Jo](/author/jo)\n";
    let before = parse_and_assign(src, &grammar).unwrap();
    let composite = CompositeTransform::new(vec![
        Box::new(InsertSlot::new(Arc::clone(&grammar), "title", "New Title".to_string()).unwrap()),
        Box::new(InsertSeparator),
    ]);
    let after = composite.apply(before.clone()).unwrap();
    let result = diff(&before, &after);
    // InsertSlot on an existing (empty) slot produces SlotChanged, not SlotAdded
    let has_title_change = result.changes.iter().any(|c| match c {
        Change::SlotChanged { name, .. } => name.as_str() == "title",
        Change::SlotAdded { name, .. } => name.as_str() == "title",
        _ => false,
    });
    let has_separator_added = result.changes.iter().any(|c| matches!(c, Change::SeparatorAdded));
    assert!(has_title_change, "expected a change for 'title', got: {:?}", result.changes);
    assert!(has_separator_added, "expected SeparatorAdded, got: {:?}", result.changes);
}

#[test]
fn diff_the_other_way_round_swaps_both_sides() {
    let grammar = Arc::new(post_grammar());
    let before =
        parse_and_assign("# One\n\nSummary.\n\n[Jo](/author/jo)\n\n----\n\nText.\n", &grammar)
            .unwrap();
    let mut after = parse_and_assign(
        "# Two\n\nSummary.\n\n[Jo](/author/jo)\n\n----\n\nOther text.\n",
        &grammar,
    )
    .unwrap();
    after.preamble.remove(2);
    let there = diff(&before, &after);
    let back = diff(&after, &before);
    assert_eq!(there.changes.len(), 3);
    assert_eq!(back.changes.len(), 3);
    let all_back: Vec<String> = back.changes.iter().map(|c| format!("{c:?}")).collect();
    for change in there.changes.iter() {
        let swapped = match change {
            Change::SlotChanged { name, before, after } => Change::SlotChanged {
                name: name.clone(),
                before: after.clone(),
                after: before.clone(),
            },
            Change::SlotRemoved { name, elements } => {
                Change::SlotAdded { name: name.clone(), elements: elements.clone() }
            }
            Change::BodyChanged { before, after } => {
                Change::BodyChanged { before: after.clone(), after: before.clone() }
            }
            other => panic!("unexpected change: {other:?}"),
        };
        assert!(all_back.contains(&format!("{swapped:?}")), "{swapped:?} is not in {back:?}");
    }
}

#[test]
fn the_order_of_slots_makes_no_difference() {
    let grammar = Arc::new(post_grammar());
    let before =
        parse_and_assign("# One\n\nSummary.\n\n[Jo](/author/jo)\n\n----\n", &grammar).unwrap();
    let mut after = before.clone();
    after.preamble.swap(0, 2);
    assert!(diff(&before, &after).is_empty());
}
