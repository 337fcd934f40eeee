use presemble::schema::{
    BodyRules, Constraint, ContentConstraint, CountRange, Element, Grammar, HeadingLevel,
    HeadingLevelRange, Slot, SlotName,
};
use presemble::serializer::serialize_document;
use presemble::slot_assignment::parse_and_assign;
use presemble::slot_editor::{capitalize_slot, modify_slot};

fn levels(min: u8, max: u8) -> HeadingLevelRange {
    HeadingLevelRange {
        min: HeadingLevel::new(min).unwrap(),
        max: HeadingLevel::new(max).unwrap(),
    }
}

fn slot(name: &str, element: Element, constraints: Vec<Constraint>) -> Slot {
    Slot { name: SlotName::new(name), element, constraints }
}

/// A post: a title (one top-level heading, capitalized), a summary (one to three
/// paragraphs), an author (one link), and a body with headings of level 3 to 6.
fn post_grammar() -> Grammar {
    Grammar {
        preamble: vec![
            slot(
                "title",
                Element::Heading { level: levels(1, 1) },
                vec![
                    Constraint::Occurs(CountRange::Exactly(1)),
                    Constraint::Content(ContentConstraint::Capitalized),
                ],
            ),
            slot(
                "summary",
                Element::Paragraph,
                vec![Constraint::Occurs(CountRange::Between { min: 1, max: 3 })],
            ),
            slot(
                "author",
                Element::Link { pattern: "/author/<name>".to_string() },
                vec![Constraint::Occurs(CountRange::Exactly(1))],
            ),
        ],
        body: Some(BodyRules { heading_range: Some(levels(3, 6)) }),
    }
}

#[test]
fn modify_title_replaces_heading() {
    let src = "# Old Title\n\nSummary.\n\n----\n";
    let grammar = post_grammar();
    let mut doc = parse_and_assign(src, &grammar).unwrap();
    modify_slot(&mut doc, "title", &grammar, "New Title").unwrap();
    let result = serialize_document(&doc);
    assert!(
        result.starts_with("# New Title\n"),
        "expected result to start with '# New Title\\n', got: {result:?}"
    );
    assert!(result.contains("Summary."), "expected 'Summary.' in: {result:?}");
}

#[test]
fn modify_summary_replaces_all_paragraphs() {
    let src = "# Title\n\nFirst paragraph.\n\nSecond paragraph.\n\n[Author](/author/jo)\n\n----\n";
    let grammar = post_grammar();
    let mut doc = parse_and_assign(src, &grammar).unwrap();
    modify_slot(&mut doc, "summary", &grammar, "Single new summary.").unwrap();
    let result = serialize_document(&doc);
    assert!(
        result.contains("Single new summary."),
        "expected 'Single new summary.' in: {result:?}"
    );
    assert!(
        !result.contains("First paragraph."),
        "expected 'First paragraph.' to be gone in: {result:?}"
    );
    assert!(
        !result.contains("Second paragraph."),
        "expected 'Second paragraph.' to be gone in: {result:?}"
    );
    assert!(result.contains("[Author]"), "expected '[Author]' in: {result:?}");
}

#[test]
fn modify_author_preserves_other_slots() {
    let src = "# Title\n\nSummary.\n\n[Old Author](/author/old)\n\n----\n";
    let grammar = post_grammar();
    let mut doc = parse_and_assign(src, &grammar).unwrap();
    modify_slot(&mut doc, "author", &grammar, "New Author|/author/new").unwrap();
    let result = serialize_document(&doc);
    assert!(
        result.contains("[New Author](/author/new)"),
        "expected '[New Author](/author/new)' in: {result:?}"
    );
    assert!(result.contains("# Title"), "expected '# Title' in: {result:?}");
    assert!(result.contains("Summary."), "expected 'Summary.' in: {result:?}");
}

#[test]
fn insert_missing_title_at_top() {
    let src = "Summary text.\n\n[Author](/author/jo)\n\n----\n";
    let grammar = post_grammar();
    let mut doc = parse_and_assign(src, &grammar).unwrap();
    modify_slot(&mut doc, "title", &grammar, "Brand New Title").unwrap();
    let result = serialize_document(&doc);
    assert!(
        result.starts_with("# Brand New Title\n"),
        "expected result to start with '# Brand New Title\\n', got: {result:?}"
    );
    assert!(result.contains("Summary text."), "expected 'Summary text.' in: {result:?}");
}

#[test]
fn insert_missing_separator_when_adding_slot() {
    let src = "# Title\n";
    let grammar = post_grammar();
    let mut doc = parse_and_assign(src, &grammar).unwrap();
    modify_slot(&mut doc, "summary", &grammar, "New summary.").unwrap();
    let result = serialize_document(&doc);
    assert!(result.contains("New summary."), "expected 'New summary.' in: {result:?}");
    assert!(result.contains("----"), "expected '----' in: {result:?}");
}

#[test]
fn modify_preserves_body_content() {
    let src = "# Title\n\nSummary.\n\n[Author](/author/jo)\n\n----\n\n### Body heading\n\nBody paragraph.\n";
    let grammar = post_grammar();
    let mut doc = parse_and_assign(src, &grammar).unwrap();
    modify_slot(&mut doc, "title", &grammar, "Changed Title").unwrap();
    let result = serialize_document(&doc);
    assert!(result.contains("# Changed Title"), "expected '# Changed Title' in: {result:?}");
    assert!(result.contains("### Body heading"), "expected '### Body heading' in: {result:?}");
    assert!(result.contains("Body paragraph."), "expected 'Body paragraph.' in: {result:?}");
}

#[test]
fn modify_empty_document_inserts_slot() {
    let src = "----\n";
    let grammar = post_grammar();
    let mut doc = parse_and_assign(src, &grammar).unwrap();
    modify_slot(&mut doc, "title", &grammar, "First Title").unwrap();
    let result = serialize_document(&doc);
    assert!(result.contains("# First Title"), "expected '# First Title' in: {result:?}");
    assert!(result.contains("----"), "expected '----' in: {result:?}");
}

#[test]
fn new_slot_stands_in_the_order_of_the_grammar() {
    let grammar = post_grammar();
    let mut doc = parse_and_assign("----\n", &grammar).unwrap();
    modify_slot(&mut doc, "author", &grammar, "Jo|/author/jo").unwrap();
    modify_slot(&mut doc, "title", &grammar, "Title").unwrap();
    modify_slot(&mut doc, "summary", &grammar, "Summary.").unwrap();
    let names: Vec<&str> = doc.preamble.iter().map(|s| s.name.as_str()).collect();
    assert_eq!(names, vec!["title", "summary", "author"]);
    assert_eq!(serialize_document(&doc), "# Title\n\nSummary.\n\n[Jo](/author/jo)\n\n----\n");
}

// ---------------------------------------------------------------------------
// capitalize_slot tests
// ---------------------------------------------------------------------------

#[test]
fn capitalize_lowercase_heading_slot() {
    let src = "# hello\n\n----\n";
    let grammar = post_grammar();
    let mut doc = parse_and_assign(src, &grammar).unwrap();
    let changed = capitalize_slot(&mut doc, "title", &grammar).unwrap();
    assert!(changed, "expected capitalize to return true");
    let result = serialize_document(&doc);
    assert!(
        result.starts_with("# Hello"),
        "expected result to start with '# Hello', got: {result:?}"
    );
}

#[test]
fn capitalize_already_capitalized_is_noop() {
    let src = "# Hello\n\n----\n";
    let grammar = post_grammar();
    let mut doc = parse_and_assign(src, &grammar).unwrap();
    let changed = capitalize_slot(&mut doc, "title", &grammar).unwrap();
    assert!(!changed, "expected capitalize to return false when already capitalized");
}

#[test]
fn capitalize_paragraph_slot() {
    let src = "# Title\n\nsummary text here.\n\n----\n";
    let grammar = post_grammar();
    let mut doc = parse_and_assign(src, &grammar).unwrap();
    let changed = capitalize_slot(&mut doc, "summary", &grammar).unwrap();
    assert!(changed, "expected capitalize to return true");
    let result = serialize_document(&doc);
    assert!(
        result.contains("Summary text here."),
        "expected 'Summary text here.' in: {result:?}"
    );
}

#[test]
fn capitalize_unknown_slot_returns_error() {
    let src = "# Title\n\n----\n";
    let grammar = post_grammar();
    let mut doc = parse_and_assign(src, &grammar).unwrap();
    let err = capitalize_slot(&mut doc, "nonexistent", &grammar);
    assert!(err.is_err(), "expected an error for unknown slot name");
    assert!(
        err.unwrap_err().contains("nonexistent"),
        "error message should contain the slot name"
    );
}

#[test]
fn capitalize_without_a_letter_to_capitalize_is_noop() {
    let grammar = post_grammar();
    let mut doc = parse_and_assign("# 1st post\n\n----\n", &grammar).unwrap();
    let before = serialize_document(&doc);
    assert_eq!(capitalize_slot(&mut doc, "title", &grammar), Ok(false));
    assert_eq!(serialize_document(&doc), before);
}
