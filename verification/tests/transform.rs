use std::sync::Arc;

use presemble::schema::{
    BodyRules, Constraint, ContentConstraint, CountRange, Element, Grammar, HeadingLevel,
    HeadingLevelRange, Slot, SlotName,
};
use presemble::serializer::serialize_document;
use presemble::slot_assignment::parse_and_assign;
use presemble::transform::{
    Capitalize, CompositeTransform, InsertSeparator, InsertSlot, Transform, TransformError,
};

fn levels(min: u8, max: u8) -> HeadingLevelRange {
    HeadingLevelRange {
        min: HeadingLevel::new(min).unwrap(),
        max: HeadingLevel::new(max).unwrap(),
    }
}

fn slot(name: &str, element: Element, constraints: Vec<Constraint>) -> Slot {
    Slot { name: SlotName::new(name), element, constraints }
}

/// A post: a title (one top-level heading, capitalized), a summary (one to three
/// paragraphs), an author (one link), and a body with headings of level 3 to 6.
fn post_grammar() -> Grammar {
    Grammar {
        preamble: vec![
            slot(
                "title",
                Element::Heading { level: levels(1, 1) },
                vec![
                    Constraint::Occurs(CountRange::Exactly(1)),
                    Constraint::Content(ContentConstraint::Capitalized),
                ],
            ),
            slot(
                "summary",
                Element::Paragraph,
                vec![Constraint::Occurs(CountRange::Between { min: 1, max: 3 })],
            ),
            slot(
                "author",
                Element::Link { pattern: "/author/<name>".to_string() },
                vec![Constraint::Occurs(CountRange::Exactly(1))],
            ),
        ],
        body: Some(BodyRules { heading_range: Some(levels(3, 6)) }),
    }
}

// --- InsertSlot tests ---

#[test]
fn insert_slot_inserts_heading_into_document() {
    let grammar = Arc::new(post_grammar());
    let src = "Summary.\n\n[Author](/author/jo)\n\n----\n";
    let doc = parse_and_assign(src, &grammar).unwrap();
    let transform = InsertSlot::new(Arc::clone(&grammar), "title", "My New Title".to_string()).unwrap();
    let result_doc = transform.apply(doc).unwrap();
    let result = serialize_document(&result_doc);
    assert!(
        result.contains("# My New Title"),
        "expected '# My New Title' in: {result:?}"
    );
}

#[test]
fn insert_slot_new_with_invalid_slot_name_returns_error() {
    let grammar = Arc::new(post_grammar());
    let err = InsertSlot::new(Arc::clone(&grammar), "nonexistent", "value".to_string());
    assert!(err.is_err(), "expected an error for unknown slot name");
    match err.unwrap_err() {
        TransformError::SlotNotFound { slot_name } => {
            assert_eq!(slot_name, "nonexistent");
        }
        other => panic!("expected SlotNotFound, got: {other:?}"),
    }
}

// --- Capitalize tests ---

#[test]
fn capitalize_lowercase_heading() {
    let grammar = Arc::new(post_grammar());
    let src = "# hello\n\n----\n";
    let doc = parse_and_assign(src, &grammar).unwrap();
    let transform = Capitalize::new(Arc::clone(&grammar), "title").unwrap();
    let result_doc = transform.apply(doc).unwrap();
    let result = serialize_document(&result_doc);
    assert!(
        result.starts_with("# Hello"),
        "expected result to start with '# Hello', got: {result:?}"
    );
}

#[test]
fn capitalize_already_capitalized_is_identity() {
    let grammar = Arc::new(post_grammar());
    let src = "# Hello\n\n----\n";
    let doc = parse_and_assign(src, &grammar).unwrap();
    let transform = Capitalize::new(Arc::clone(&grammar), "title").unwrap();
    let result_doc = transform.apply(doc).unwrap();
    let result = serialize_document(&result_doc);
    assert!(
        result.starts_with("# Hello"),
        "already-capitalized heading should remain unchanged: {result:?}"
    );
}

// --- InsertSeparator tests ---

#[test]
fn insert_separator_adds_separator() {
    let grammar = Arc::new(post_grammar());
    let src = "# Title\n\nSummary.\n";
    let doc = parse_and_assign(src, &grammar).unwrap();
    assert!(!doc.has_separator, "doc should not have separator yet");
    let transform = InsertSeparator;
    let result_doc = transform.apply(doc).unwrap();
    assert!(result_doc.has_separator, "doc should have separator after transform");
    let result = serialize_document(&result_doc);
    assert!(result.contains("----"), "expected '----' in: {result:?}");
}

#[test]
fn insert_separator_already_present_is_identity() {
    let grammar = Arc::new(post_grammar());
    let src = "# Title\n\nSummary.\n\n----\n";
    let doc = parse_and_assign(src, &grammar).unwrap();
    assert!(doc.has_separator, "doc should already have separator");
    let transform = InsertSeparator;
    let result_doc = transform.apply(doc).unwrap();
    assert!(result_doc.has_separator, "doc should still have separator");
}

// --- CompositeTransform tests ---

#[test]
fn composite_insert_slot_then_capitalize() {
    let grammar = Arc::new(post_grammar());
    let src = "Summary.\n\n[Author](/author/jo)\n\n----\n";
    let doc = parse_and_assign(src, &grammar).unwrap();
    let composite = CompositeTransform::new(vec![
        Box::new(InsertSlot::new(Arc::clone(&grammar), "title", "lowercase title".to_string()).unwrap()),
        Box::new(Capitalize::new(Arc::clone(&grammar), "title").unwrap()),
    ]);
    let result_doc = composite.apply(doc).unwrap();
    let result = serialize_document(&result_doc);
    assert!(
        result.contains("# Lowercase title"),
        "expected '# Lowercase title' in: {result:?}"
    );
}

#[test]
fn composite_empty_is_identity() {
    let grammar = Arc::new(post_grammar());
    let src = "# Title\n\nSummary.\n\n----\n";
    let doc = parse_and_assign(src, &grammar).unwrap();
    let original_result = serialize_document(&doc);
    let composite = CompositeTransform::new(vec![]);
    let result_doc = composite.apply(doc).unwrap();
    let result = serialize_document(&result_doc);
    assert_eq!(result, original_result, "empty composite should not change document");
}
