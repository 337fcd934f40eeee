use presemble::parser::parse_document;
use presemble::schema::{
    AltRequirement, BodyRules, Constraint, ContentConstraint, CountRange, Element, Grammar, HeadingLevel,
    HeadingLevelRange, Slot, SlotName,
};
use presemble::validator::validate;

fn levels(min: u8, max: u8) -> HeadingLevelRange {
    HeadingLevelRange {
        min: HeadingLevel::new(min).unwrap(),
        max: HeadingLevel::new(max).unwrap(),
    }
}

fn slot(name: &str, element: Element, constraints: Vec<Constraint>) -> Slot {
    Slot { name: SlotName::new(name), element, constraints }
}

/// An article: title, summary, author link and cover image.
fn article_grammar() -> Grammar {
    Grammar {
        preamble: vec![
            slot(
                "title",
                Element::Heading { level: levels(1, 1) },
                vec![
                    Constraint::Occurs(CountRange::Exactly(1)),
                    Constraint::Content(ContentConstraint::Capitalized),
                ],
            ),
            slot(
                "summary",
                Element::Paragraph,
                vec![Constraint::Occurs(CountRange::Between { min: 1, max: 3 })],
            ),
            slot(
                "author",
                Element::Link { pattern: "/authors/<name>".to_string() },
                vec![Constraint::Occurs(CountRange::Exactly(1))],
            ),
            slot(
                "cover",
                Element::Image { pattern: "images/<name>".to_string() },
                vec![
                    Constraint::Occurs(CountRange::Exactly(1)),
                    Constraint::Alt(AltRequirement::Required),
                ],
            ),
        ],
        body: Some(BodyRules { heading_range: Some(levels(3, 6)) }),
    }
}

// ── Test: missing required slot produces an error ────────────────────

#[test]
fn missing_required_slot_produces_error() {
    // Document with no H1 title — the title slot requires exactly 1 H1.
    let doc_input = "Some paragraph without a title.\n\n[Author](/authors/test)\n\n![Cover](images/cover.jpg)\n\n----\n\n### Body heading\n";
    let doc = parse_document(doc_input).expect("should parse");
    let grammar = article_grammar();

    let result = validate(&doc, &grammar);

    assert!(
        !result.is_valid(),
        "document missing required H1 title should be invalid"
    );
    let has_title_error = result
        .diagnostics
        .iter()
        .any(|d| d.slot.as_ref().map(|s| s.as_str()) == Some("title"));
    assert!(
        has_title_error,
        "expected an error for the 'title' slot, got: {:#?}",
        result.diagnostics
    );
}

// ── Test: wrong heading level in body produces an error ──────────────

#[test]
fn wrong_heading_level_in_body_produces_error() {
    // Valid preamble, but body has an H2 which is forbidden (only H3-H6 allowed).
    let doc_input = "# Valid Title\n\nSummary paragraph.\n\n[Author](/authors/test)\n\n![Cover](images/cover.jpg)\n\n----\n\n## Forbidden H2 In Body\n";
    let doc = parse_document(doc_input).expect("should parse");
    let grammar = article_grammar();

    let result = validate(&doc, &grammar);

    assert!(
        !result.is_valid(),
        "document with H2 in body should be invalid"
    );
    let has_body_heading_error = result
        .diagnostics
        .iter()
        .any(|d| d.slot.is_none() && d.message.contains("H2"));
    assert!(
        has_body_heading_error,
        "expected a body heading level error for H2, got: {:#?}",
        result.diagnostics
    );
}

// ── Test: non-capitalized title produces an error ────────────────────

#[test]
fn non_capitalized_title_produces_error() {
    // Title that starts lowercase violates the `content: capitalized` constraint.
    let doc_input = "# lowercase title\n\nSummary paragraph.\n\n[Author](/authors/test)\n\n![Cover](images/cover.jpg)\n\n----\n\n### Body\n";
    let doc = parse_document(doc_input).expect("should parse");
    let grammar = article_grammar();

    let result = validate(&doc, &grammar);

    assert!(
        !result.is_valid(),
        "document with lowercase title should be invalid"
    );
    let has_capitalized_error = result.diagnostics.iter().any(|d| {
        d.slot.as_ref().map(|s| s.as_str()) == Some("title")
            && d.message.contains("uppercase")
    });
    assert!(
        has_capitalized_error,
        "expected a capitalization error for 'title' slot, got: {:#?}",
        result.diagnostics
    );
}

// ── Test: an early separator leaves required slots without content ───────

#[test]
fn early_separator_leaves_the_slots_behind_it_missing() {
    let doc = parse_document("# Title\n\n----\n\n### Body heading\n").expect("should parse");
    let result = validate(&doc, &article_grammar());
    for name in ["summary", "author", "cover"] {
        assert!(
            result
                .diagnostics
                .iter()
                .any(|d| d.slot.as_ref().map(|s| s.as_str()) == Some(name)),
            "expected an error for the '{name}' slot, got: {:#?}",
            result.diagnostics
        );
    }
    assert!(!result
        .diagnostics
        .iter()
        .any(|d| d.slot.as_ref().map(|s| s.as_str()) == Some("title")));
}

#[test]
fn an_annotation_within_a_run_of_paragraphs_counts() {
    let source = "# Title\n\nOne.\n\n{#summary}\n\nTwo.\n\nThree.\n\n[A](/authors/a)\n\n\
                  ![Cover](images/cover.jpg)\n\n----\n";
    let doc = parse_document(source).expect("should parse");
    let result = validate(&doc, &article_grammar());
    let slots: Vec<&str> =
        result.diagnostics.iter().filter_map(|d| d.slot.as_ref().map(|s| s.as_str())).collect();
    assert!(slots.contains(&"author"), "the third paragraph stands in the way: {slots:?}");
    assert!(!slots.contains(&"summary"), "{slots:?}");
}
