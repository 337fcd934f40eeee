use std::sync::Arc;

use presemble::adapters::{diff_to_source_edits, SourceEdit};
use presemble::diff::diff;
use presemble::document::{ContentElement, DocumentSlot};
use presemble::schema::{
    BodyRules, Constraint, ContentConstraint, CountRange, Element, Grammar, HeadingLevel,
    HeadingLevelRange, Slot, SlotName, Span, Spanned,
};
use presemble::serializer::serialize_document;
use presemble::slot_assignment::parse_and_assign;
use presemble::transform::{Capitalize, InsertSeparator, InsertSlot, Transform};

fn levels(min: u8, max: u8) -> HeadingLevelRange {
    HeadingLevelRange {
        min: HeadingLevel::new(min).unwrap(),
        max: HeadingLevel::new(max).unwrap(),
    }
}

fn slot(name: &str, element: Element, constraints: Vec<Constraint>) -> Slot {
    Slot { name: SlotName::new(name), element, constraints }
}

/// A post: a title (one top-level heading, capitalized), a summary (one to three
/// paragraphs), an author (one link), and a body with headings of level 3 to 6.
fn post_grammar() -> Grammar {
    Grammar {
        preamble: vec![
            slot(
                "title",
                Element::Heading { level: levels(1, 1) },
                vec![
                    Constraint::Occurs(CountRange::Exactly(1)),
                    Constraint::Content(ContentConstraint::Capitalized),
                ],
            ),
            slot(
                "summary",
                Element::Paragraph,
                vec![Constraint::Occurs(CountRange::Between { min: 1, max: 3 })],
            ),
            slot(
                "author",
                Element::Link { pattern: "/author/<name>".to_string() },
                vec![Constraint::Occurs(CountRange::Exactly(1))],
            ),
        ],
        body: Some(BodyRules { heading_range: Some(levels(3, 6)) }),
    }
}

/// Apply a list of source edits to `src` in reverse order to maintain byte offsets.
fn apply_source_edits(src: &str, edits: &[SourceEdit]) -> String {
    let mut result = src.to_string();
    let mut sorted: Vec<_> = edits.to_vec();
    sorted.sort_by(|a, b| b.span.start.cmp(&a.span.start));
    for edit in &sorted {
        result.replace_range(edit.span.start..edit.span.end, &edit.new_text);
    }
    result
}

// ── empty_diff_produces_no_edits ─────────────────────────────────────────

#[test]
fn empty_diff_produces_no_edits() {
    let grammar = Arc::new(post_grammar());
    let src = "# Hello\n\nSummary.\n\n[Jo](/author/jo)\n\n----\n\nBody text.\n";
    let doc = parse_and_assign(src, &grammar).unwrap();
    let cloned = doc.clone();
    let d = diff(&doc, &cloned);
    let edits = diff_to_source_edits(src, &doc, &cloned, &d);
    assert!(edits.is_empty(), "expected no edits for empty diff, got: {edits:?}");
}

// ── slot_changed_produces_targeted_edit ──────────────────────────────────

#[test]
fn slot_changed_produces_targeted_edit() {
    let grammar = Arc::new(post_grammar());
    let src = "# hello\n\nSummary.\n\n[Jo](/author/jo)\n\n----\n";
    let before = parse_and_assign(src, &grammar).unwrap();
    let transform = Capitalize::new(Arc::clone(&grammar), "title").unwrap();
    let after = transform.apply(before.clone()).unwrap();
    let d = diff(&before, &after);

    let edits = diff_to_source_edits(src, &before, &after, &d);

    // Should have exactly one edit (for the title)
    assert_eq!(edits.len(), 1, "expected 1 edit, got: {edits:?}");

    let edit = &edits[0];
    // The edit should NOT cover the entire document
    assert!(
        edit.span.end < src.len(),
        "edit span ({:?}) should not cover the entire document (len={})",
        edit.span,
        src.len()
    );
    // The new text should contain the capitalized heading
    assert!(
        edit.new_text.contains("# Hello"),
        "expected '# Hello' in new_text: {:?}",
        edit.new_text
    );
}

// ── roundtrip_slot_changed ───────────────────────────────────────────────

#[test]
fn roundtrip_slot_changed() {
    let grammar = Arc::new(post_grammar());
    let src = "# hello\n\nSummary.\n\n[Jo](/author/jo)\n\n----\n";
    let before = parse_and_assign(src, &grammar).unwrap();
    let transform = Capitalize::new(Arc::clone(&grammar), "title").unwrap();
    let after = transform.apply(before.clone()).unwrap();
    let d = diff(&before, &after);

    let edits = diff_to_source_edits(src, &before, &after, &d);
    let result = apply_source_edits(src, &edits);

    let expected = serialize_document(&after);
    assert_eq!(
        result, expected,
        "roundtrip mismatch:\n  got:      {result:?}\n  expected: {expected:?}"
    );
}

// ── separator_added_falls_back_to_full_replacement ───────────────────────

#[test]
fn separator_added_falls_back_to_full_replacement() {
    let grammar = Arc::new(post_grammar());
    let src = "# Title\n\nSummary.\n\n[Jo](/author/jo)\n";
    let before = parse_and_assign(src, &grammar).unwrap();
    let transform = InsertSeparator;
    let after = transform.apply(before.clone()).unwrap();
    let d = diff(&before, &after);

    let edits = diff_to_source_edits(src, &before, &after, &d);

    // SeparatorAdded -> full replacement
    assert_eq!(edits.len(), 1, "expected 1 full-replacement edit, got: {edits:?}");
    let edit = &edits[0];
    assert_eq!(edit.span.start, 0, "full replacement should start at 0");
    assert_eq!(edit.span.end, src.len(), "full replacement should end at src.len()");
    assert!(
        edit.new_text.contains("----"),
        "expected '----' in new_text: {:?}",
        edit.new_text
    );
}

// ── slot_added_falls_back_to_full_replacement ────────────────────────────

#[test]
fn slot_added_falls_back_to_full_replacement() {

    let grammar = Arc::new(post_grammar());
    let src = "Summary.\n\n[Jo](/author/jo)\n\n----\n";
    let mut before = parse_and_assign(src, &grammar).unwrap();
    // Remove the "title" slot from before's preamble entirely
    before.preamble.retain(|s| s.name.as_str() != "title");
    // Build after with a title slot present
    let mut after = before.clone();
    let title_slot = DocumentSlot {
        name: grammar.preamble.iter().find(|s| s.name.as_str() == "title").unwrap().name.clone(),
        elements: im::Vector::from(vec![Spanned {
            node: ContentElement::Heading {
                level: HeadingLevel::new(1).unwrap(),
                text: "New Title".to_string(),
            },
            span: Span { start: 0, end: 0 },
        }]),
    };
    after.preamble.push_front(title_slot);

    let d = diff(&before, &after);
    let edits = diff_to_source_edits(src, &before, &after, &d);

    // SlotAdded -> full replacement
    assert_eq!(edits.len(), 1, "expected 1 full-replacement edit, got: {edits:?}");
    let edit = &edits[0];
    assert_eq!(edit.span.start, 0);
    assert_eq!(edit.span.end, src.len());
}

// ── body_changed_produces_targeted_edit ─────────────────────────────────

#[test]
fn body_changed_roundtrip() {
    let grammar = Arc::new(post_grammar());
    let src_before = "# Title\n\nSummary.\n\n[Jo](/author/jo)\n\n----\n\nOriginal body.\n";
    let src_after_expected = "# Title\n\nSummary.\n\n[Jo](/author/jo)\n\n----\n\nChanged body.\n";
    let before = parse_and_assign(src_before, &grammar).unwrap();
    let after = parse_and_assign(src_after_expected, &grammar).unwrap();
    let d = diff(&before, &after);

    let edits = diff_to_source_edits(src_before, &before, &after, &d);
    assert!(!edits.is_empty(), "expected at least one edit for body change");

    let result = apply_source_edits(src_before, &edits);
    let expected = serialize_document(&after);
    assert_eq!(
        result, expected,
        "body changed roundtrip mismatch:\n  got:      {result:?}\n  expected: {expected:?}"
    );
}

// ── slot_changed_edit_does_not_cover_whole_doc ───────────────────────────

#[test]
fn slot_changed_edit_is_smaller_than_full_doc() {
    let grammar = Arc::new(post_grammar());
    // Long document so the title is clearly a small fraction
    let src = "# hello world\n\nSome summary text here.\n\n[Author](/author/someone)\n\n----\n\nLots of body content that should not be touched.\n";
    let before = parse_and_assign(src, &grammar).unwrap();
    let transform = Capitalize::new(Arc::clone(&grammar), "title").unwrap();
    let after = transform.apply(before.clone()).unwrap();
    let d = diff(&before, &after);

    let edits = diff_to_source_edits(src, &before, &after, &d);
    assert_eq!(edits.len(), 1);
    let edit = &edits[0];
    let edit_size = edit.span.end - edit.span.start;
    assert!(
        edit_size < src.len(),
        "edit size ({edit_size}) should be smaller than full doc ({} bytes)",
        src.len()
    );
}

// ── insert_slot_roundtrip ─────────────────────────────────────────────────

#[test]
fn insert_slot_roundtrip() {
    let grammar = Arc::new(post_grammar());
    // Document without a title
    let src = "Summary.\n\n[Jo](/author/jo)\n\n----\n";
    let before = parse_and_assign(src, &grammar).unwrap();
    let transform = InsertSlot::new(Arc::clone(&grammar), "title", "New Title".to_string()).unwrap();
    let after = transform.apply(before.clone()).unwrap();
    let d = diff(&before, &after);

    let edits = diff_to_source_edits(src, &before, &after, &d);
    let result = apply_source_edits(src, &edits);
    let expected = serialize_document(&after);

    assert_eq!(
        result, expected,
        "insert_slot roundtrip mismatch:\n  got:      {result:?}\n  expected: {expected:?}"
    );
}

// ── what is left empty ───────────────────────────────────────────────────

#[test]
fn emptied_slot_replaces_the_whole_text() {
    let grammar = Arc::new(post_grammar());
    let src = "# Title\n\nSummary.\n\n[Jo](/author/jo)\n\n----\n\nBody.\n";
    let before = parse_and_assign(src, &grammar).unwrap();
    let mut after = before.clone();
    after.preamble[1].elements.clear();
    let edits = diff_to_source_edits(src, &before, &after, &diff(&before, &after));
    assert_eq!(edits.len(), 1);
    assert_eq!((edits[0].span.start, edits[0].span.end), (0, src.len()));
    assert_eq!(apply_source_edits(src, &edits), serialize_document(&after));
}

#[test]
fn emptied_body_replaces_the_whole_text() {
    let grammar = Arc::new(post_grammar());
    let src = "# Title\n\nSummary.\n\n[Jo](/author/jo)\n\n----\n\nBody.\n";
    let before = parse_and_assign(src, &grammar).unwrap();
    let mut after = before.clone();
    after.body.clear();
    let edits = diff_to_source_edits(src, &before, &after, &diff(&before, &after));
    assert_eq!(apply_source_edits(src, &edits), serialize_document(&after));
}

#[test]
fn edits_of_several_places_are_apart() {
    let grammar = Arc::new(post_grammar());
    let src = "# One\n\nSummary.\n\n[Jo](/author/jo)\n\n----\n\nText.\n";
    let other = "# Two\n\nOther.\n\n[Jo](/author/jo)\n\n----\n\nOther text.\n";
    let before = parse_and_assign(src, &grammar).unwrap();
    let after = parse_and_assign(other, &grammar).unwrap();
    let edits = diff_to_source_edits(src, &before, &after, &diff(&before, &after));
    assert_eq!(edits.len(), 3);
    assert!(edits.windows(2).all(|w| w[0].span.end <= w[1].span.start));
    assert!(edits.iter().all(|e| e.span.start <= e.span.end && e.span.end <= src.len()));
    assert_eq!(apply_source_edits(src, &edits), other);
}
