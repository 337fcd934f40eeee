use presemble::document::ContentElement;
use presemble::schema::{
    AltRequirement, BodyRules, Constraint, ContentConstraint, CountRange, Element, Grammar, HeadingLevel,
    HeadingLevelRange, Slot, SlotName, Span, Spanned,
};
use presemble::slot_assignment::assign_slots;

fn levels(min: u8, max: u8) -> HeadingLevelRange {
    HeadingLevelRange {
        min: HeadingLevel::new(min).unwrap(),
        max: HeadingLevel::new(max).unwrap(),
    }
}

fn slot(name: &str, element: Element, constraints: Vec<Constraint>) -> Slot {
    Slot { name: SlotName::new(name), element, constraints }
}

/// A title (one top-level heading) and a summary (one to three paragraphs).
fn simple_grammar() -> Grammar {
    Grammar {
        preamble: vec![
            slot(
                "title",
                Element::Heading { level: levels(1, 1) },
                vec![
                    Constraint::Occurs(CountRange::Exactly(1)),
                    Constraint::Content(ContentConstraint::Capitalized),
                ],
            ),
            slot(
                "summary",
                Element::Paragraph,
                vec![Constraint::Occurs(CountRange::Between { min: 1, max: 3 })],
            ),
        ],
        body: Some(BodyRules { heading_range: Some(levels(3, 6)) }),
    }
}

/// A grammar with no body rules.
fn no_body_grammar() -> Grammar {
    Grammar {
        preamble: vec![
            slot(
                "title",
                Element::Heading { level: levels(1, 1) },
                vec![Constraint::Occurs(CountRange::Exactly(1))],
            ),
            slot("summary", Element::Paragraph, vec![Constraint::Occurs(CountRange::Exactly(1))]),
        ],
        body: None,
    }
}

/// A grammar with a link slot.
fn with_link_grammar() -> Grammar {
    Grammar {
        preamble: vec![
            slot(
                "title",
                Element::Heading { level: levels(1, 1) },
                vec![Constraint::Occurs(CountRange::Exactly(1))],
            ),
            slot(
                "author",
                Element::Link { pattern: "/author/<name>".to_string() },
                vec![Constraint::Occurs(CountRange::Exactly(1))],
            ),
        ],
        body: Some(BodyRules { heading_range: Some(levels(3, 6)) }),
    }
}

/// An article: title, summary, author link and cover image.
fn article_grammar() -> Grammar {
    Grammar {
        preamble: vec![
            slot(
                "title",
                Element::Heading { level: levels(1, 1) },
                vec![
                    Constraint::Occurs(CountRange::Exactly(1)),
                    Constraint::Content(ContentConstraint::Capitalized),
                ],
            ),
            slot(
                "summary",
                Element::Paragraph,
                vec![Constraint::Occurs(CountRange::Between { min: 1, max: 3 })],
            ),
            slot(
                "author",
                Element::Link { pattern: "/authors/<name>".to_string() },
                vec![Constraint::Occurs(CountRange::Exactly(1))],
            ),
            slot(
                "cover",
                Element::Image { pattern: "images/<name>".to_string() },
                vec![
                    Constraint::Occurs(CountRange::Exactly(1)),
                    Constraint::Alt(AltRequirement::Required),
                ],
            ),
        ],
        body: Some(BodyRules { heading_range: Some(levels(3, 6)) }),
    }
}

// ── Helper: build a Spanned<ContentElement> with a zero span ────────────

fn spanned(node: ContentElement) -> Spanned<ContentElement> {
    Spanned { node, span: Span { start: 0, end: 0 } }
}

fn heading(level: u8, text: &str) -> Spanned<ContentElement> {
    spanned(ContentElement::Heading {
        level: HeadingLevel::new(level).unwrap(),
        text: text.to_string(),
    })
}

fn paragraph(text: &str) -> Spanned<ContentElement> {
    spanned(ContentElement::Paragraph { text: text.to_string() })
}

fn link(text: &str, href: &str) -> Spanned<ContentElement> {
    spanned(ContentElement::Link {
        text: text.to_string(),
        href: href.to_string(),
    })
}

fn image(alt: Option<&str>, path: &str) -> Spanned<ContentElement> {
    spanned(ContentElement::Image {
        alt: alt.map(|s| s.to_string()),
        path: path.to_string(),
    })
}

fn separator() -> Spanned<ContentElement> {
    spanned(ContentElement::Separator)
}

// ── Tests: basic slot assignment ─────────────────────────────────────────

#[test]
fn assign_simple_grammar_with_matching_content() {
    let grammar = simple_grammar();
    let elements = im::Vector::from(vec![
        heading(1, "My Title"),
        paragraph("Summary text."),
        separator(),
        heading(3, "Body heading"),
    ]);
    let slotted = assign_slots(&elements, &grammar);

    assert!(slotted.has_separator, "should detect separator");
    assert_eq!(slotted.preamble.len(), 2, "should have 2 preamble slots");

    let title_slot = &slotted.preamble[0];
    assert_eq!(title_slot.name.as_str(), "title");
    assert_eq!(title_slot.elements.len(), 1);
    assert!(matches!(
        &title_slot.elements[0].node,
        ContentElement::Heading { level, .. } if level.value() == 1
    ));

    let summary_slot = &slotted.preamble[1];
    assert_eq!(summary_slot.name.as_str(), "summary");
    assert_eq!(summary_slot.elements.len(), 1);

    assert_eq!(slotted.body.len(), 1);
    assert!(matches!(
        &slotted.body[0].node,
        ContentElement::Heading { level, .. } if level.value() == 3
    ));
}

#[test]
fn assign_missing_slots_produce_empty_document_slots() {
    let grammar = simple_grammar();
    // Document has only a separator — both slots are missing.
    let elements = im::Vector::from(vec![separator()]);
    let slotted = assign_slots(&elements, &grammar);

    assert!(slotted.has_separator);
    // The title slot should be present but empty (separator hit before consuming any title).
    assert_eq!(slotted.preamble.len(), 1);
    assert_eq!(slotted.preamble[0].elements.len(), 0);
    assert_eq!(slotted.preamble[0].name.as_str(), "title");
    assert!(slotted.body.is_empty());
}

#[test]
fn assign_no_separator_puts_everything_in_preamble() {
    let grammar = no_body_grammar();
    let elements = im::Vector::from(vec![
        heading(1, "Title"),
        paragraph("Summary text."),
    ]);
    let slotted = assign_slots(&elements, &grammar);

    assert!(!slotted.has_separator, "no separator present");
    assert_eq!(slotted.preamble.len(), 2);
    assert_eq!(slotted.preamble[0].elements.len(), 1);
    assert_eq!(slotted.preamble[1].elements.len(), 1);
    assert!(slotted.body.is_empty());
}

#[test]
fn assign_multi_occurrence_slot() {
    let grammar = simple_grammar(); // summary: 1..3
    let elements = im::Vector::from(vec![
        heading(1, "Title"),
        paragraph("First summary."),
        paragraph("Second summary."),
        paragraph("Third summary."),
        separator(),
    ]);
    let slotted = assign_slots(&elements, &grammar);

    assert!(slotted.has_separator);
    let summary_slot = &slotted.preamble[1];
    assert_eq!(summary_slot.name.as_str(), "summary");
    assert_eq!(summary_slot.elements.len(), 3, "should consume all 3 paragraphs");
    assert!(slotted.body.is_empty());
}

#[test]
fn assign_respects_max_count() {
    let grammar = simple_grammar(); // summary: max 3
    // 4 paragraphs: only 3 should be consumed by the summary slot.
    // The 4th paragraph and separator follow; the forward scan should find
    // the separator, set has_separator=true, and leave body empty.
    let elements = im::Vector::from(vec![
        heading(1, "Title"),
        paragraph("Para 1."),
        paragraph("Para 2."),
        paragraph("Para 3."),
        paragraph("Para 4 - extra."),
        separator(),
    ]);
    let slotted = assign_slots(&elements, &grammar);

    let summary_slot = &slotted.preamble[1];
    assert_eq!(
        summary_slot.elements.len(),
        3,
        "should consume at most 3 paragraphs"
    );
    // The 4th paragraph is not in any slot; it is skipped by the forward scan.
    // The separator is found by the forward scan.
    assert!(slotted.has_separator, "separator should be found by forward scan");
    assert!(slotted.body.is_empty(), "nothing after separator");
}

#[test]
fn assign_body_content_after_separator() {
    let grammar = simple_grammar();
    let elements = im::Vector::from(vec![
        heading(1, "Title"),
        paragraph("Summary."),
        separator(),
        heading(3, "Section One"),
        paragraph("Body paragraph."),
        heading(4, "Section Two"),
    ]);
    let slotted = assign_slots(&elements, &grammar);

    assert!(slotted.has_separator);
    assert_eq!(slotted.body.len(), 3, "3 elements after separator");
    assert!(matches!(
        &slotted.body[0].node,
        ContentElement::Heading { level, .. } if level.value() == 3
    ));
}

#[test]
fn assign_annotation_paragraphs_are_skipped() {
    let grammar = simple_grammar();
    // {#title} annotation paragraph should be skipped, not assigned to a slot.
    let elements = im::Vector::from(vec![
        paragraph("{#title}"),
        heading(1, "Real Title"),
        paragraph("Summary."),
        separator(),
    ]);
    let slotted = assign_slots(&elements, &grammar);

    let title_slot = &slotted.preamble[0];
    assert_eq!(title_slot.name.as_str(), "title");
    // The real heading should be in the slot, not the annotation.
    assert_eq!(title_slot.elements.len(), 1);
    assert!(matches!(
        &title_slot.elements[0].node,
        ContentElement::Heading { .. }
    ));
}

#[test]
fn assign_link_slot() {
    let grammar = with_link_grammar();
    let elements = im::Vector::from(vec![
        heading(1, "Title"),
        link("Author Name", "/author/jo"),
        separator(),
        paragraph("Body text."),
    ]);
    let slotted = assign_slots(&elements, &grammar);

    assert_eq!(slotted.preamble.len(), 2);
    let author_slot = &slotted.preamble[1];
    assert_eq!(author_slot.name.as_str(), "author");
    assert_eq!(author_slot.elements.len(), 1);
    assert!(matches!(&author_slot.elements[0].node, ContentElement::Link { .. }));
}

#[test]
fn assign_empty_document() {
    let grammar = simple_grammar();
    let elements: im::Vector<Spanned<ContentElement>> = im::Vector::new();
    let slotted = assign_slots(&elements, &grammar);

    assert!(!slotted.has_separator);
    // All grammar slots are processed but produce empty DocumentSlots.
    assert_eq!(slotted.preamble.len(), 2, "empty doc still produces a slot per grammar entry");
    for slot in &slotted.preamble {
        assert!(slot.elements.is_empty(), "all slots should be empty");
    }
    assert!(slotted.body.is_empty());
}

// ── Tests: flat_elements roundtrip ───────────────────────────────────────

#[test]
fn flat_elements_roundtrip_preserves_order() {
    let grammar = simple_grammar();
    let elements = im::Vector::from(vec![
        heading(1, "Title"),
        paragraph("Summary."),
        separator(),
        heading(3, "Body Heading"),
    ]);
    let slotted = assign_slots(&elements, &grammar);
    let flat = slotted.flat_elements();

    assert_eq!(flat.len(), 4);
    assert!(matches!(&flat[0].node, ContentElement::Heading { level, .. } if level.value() == 1));
    assert!(matches!(&flat[1].node, ContentElement::Paragraph { .. }));
    assert!(matches!(&flat[2].node, ContentElement::Separator));
    assert!(matches!(&flat[3].node, ContentElement::Heading { level, .. } if level.value() == 3));
}

#[test]
fn flat_elements_no_separator_roundtrip() {
    let grammar = no_body_grammar();
    let elements = im::Vector::from(vec![
        heading(1, "Title"),
        paragraph("Summary."),
    ]);
    let slotted = assign_slots(&elements, &grammar);
    let flat = slotted.flat_elements();

    assert_eq!(flat.len(), 2, "no separator should be added");
    assert!(!slotted.has_separator);
    assert!(matches!(&flat[0].node, ContentElement::Heading { .. }));
    assert!(matches!(&flat[1].node, ContentElement::Paragraph { .. }));
}

#[test]
fn flat_elements_empty_document_is_empty() {
    let grammar = simple_grammar();
    let elements: im::Vector<Spanned<ContentElement>> = im::Vector::new();
    let slotted = assign_slots(&elements, &grammar);
    let flat = slotted.flat_elements();
    assert!(flat.is_empty());
}

#[test]
fn image_slot_assigned_correctly() {
    let grammar = article_grammar();
    let elements = im::Vector::from(vec![
        heading(1, "Article Title"),
        paragraph("A summary."),
        link("Author", "/authors/author"),
        image(Some("Cover image"), "images/cover.jpg"),
        separator(),
        heading(3, "Section"),
    ]);
    let slotted = assign_slots(&elements, &grammar);

    // Find the cover slot (image slot in the article grammar).
    let cover_slot = slotted.preamble.iter().find(|s| s.name.as_str() == "cover");
    assert!(cover_slot.is_some(), "article grammar should have a cover slot");
    let cover_slot = cover_slot.unwrap();
    assert_eq!(cover_slot.elements.len(), 1);
    assert!(matches!(&cover_slot.elements[0].node, ContentElement::Image { .. }));
}

#[test]
fn an_annotation_behind_a_paragraph_is_in_no_slot() {
    let grammar = article_grammar();
    let elements = im::Vector::from(vec![
        heading(1, "Title"),
        paragraph("First."),
        paragraph("{#summary}"),
        paragraph("Second."),
        link("Jo", "/authors/jo"),
        separator(),
    ]);
    let slotted = assign_slots(&elements, &grammar);
    let summary: Vec<&ContentElement> =
        slotted.preamble[1].elements.iter().map(|e| &e.node).collect();
    assert_eq!(
        summary,
        vec![
            &ContentElement::Paragraph { text: "First.".to_string() },
            &ContentElement::Paragraph { text: "Second.".to_string() },
        ]
    );
    assert_eq!(slotted.preamble[2].elements.len(), 1);
}
