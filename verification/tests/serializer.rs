use presemble::document::{ContentElement, Document, DocumentSlot};
use presemble::schema::{
    BodyRules, Constraint, CountRange, Element, Grammar, HeadingLevel,
    HeadingLevelRange, Slot, SlotName, Span, Spanned,
};
use presemble::serializer::serialize_document;
use presemble::slot_assignment::parse_and_assign;

fn levels(min: u8, max: u8) -> HeadingLevelRange {
    HeadingLevelRange {
        min: HeadingLevel::new(min).unwrap(),
        max: HeadingLevel::new(max).unwrap(),
    }
}

fn slot(name: &str, element: Element, constraints: Vec<Constraint>) -> Slot {
    Slot { name: SlotName::new(name), element, constraints }
}

/// A title and a summary, one each, and a body with headings of level 3 to 6.
fn simple_grammar() -> Grammar {
    Grammar {
        preamble: vec![
            slot(
                "title",
                Element::Heading { level: levels(1, 1) },
                vec![Constraint::Occurs(CountRange::Exactly(1))],
            ),
            slot("summary", Element::Paragraph, vec![Constraint::Occurs(CountRange::Exactly(1))]),
        ],
        body: Some(BodyRules { heading_range: Some(levels(3, 6)) }),
    }
}

fn doc_from_elements(elements: Vec<ContentElement>) -> Document {
    let dummy_span = Span { start: 0, end: 0 };
    // Build a Document with all elements in the body (no preamble slots, no separator)
    // for simple serialization tests that don't need slot structure.
    Document {
        preamble: im::Vector::new(),
        body: elements
            .into_iter()
            .map(|node| Spanned { node, span: dummy_span })
            .collect::<im::Vector<_>>(),
        has_separator: false,
        separator_span: None,
    }
}

fn doc_with_slot(slot_name: &str, elements: Vec<ContentElement>) -> Document {
    let dummy_span = Span { start: 0, end: 0 };
    let slot = DocumentSlot {
        name: SlotName::new(slot_name),
        elements: elements
            .into_iter()
            .map(|node| Spanned { node, span: dummy_span })
            .collect::<im::Vector<_>>(),
    };
    Document {
        preamble: im::Vector::from(vec![slot]),
        body: im::Vector::new(),
        has_separator: false,
        separator_span: None,
    }
}

#[test]
fn serialize_heading() {
    let d = doc_with_slot("title", vec![ContentElement::Heading {
        level: HeadingLevel::new(1).unwrap(),
        text: "Hello".to_string(),
    }]);
    assert_eq!(serialize_document(&d), "# Hello\n");
}

#[test]
fn serialize_paragraph() {
    let d = doc_from_elements(vec![ContentElement::Paragraph {
        text: "Some text.".to_string(),
    }]);
    assert_eq!(serialize_document(&d), "Some text.\n");
}

#[test]
fn serialize_link() {
    let d = doc_from_elements(vec![ContentElement::Link {
        text: "Jo".to_string(),
        href: "/author/jo".to_string(),
    }]);
    assert_eq!(serialize_document(&d), "[Jo](/author/jo)\n");
}

#[test]
fn serialize_image() {
    let d = doc_from_elements(vec![ContentElement::Image {
        alt: Some("A photo".to_string()),
        path: "img.jpg".to_string(),
    }]);
    assert_eq!(serialize_document(&d), "![A photo](img.jpg)\n");
}

#[test]
fn serialize_image_without_alt() {
    let d = doc_from_elements(vec![ContentElement::Image {
        alt: None,
        path: "img.jpg".to_string(),
    }]);
    assert_eq!(serialize_document(&d), "![](img.jpg)\n");
}

#[test]
fn serialize_separator() {
    let d = Document {
        preamble: im::Vector::new(),
        body: im::Vector::new(),
        has_separator: true,
        separator_span: None,
    };
    let output = serialize_document(&d);
    assert!(output.contains("----"), "expected '----' in: {output:?}");
}

#[test]
fn serialize_code_block() {
    let d = doc_from_elements(vec![ContentElement::CodeBlock {
        language: Some("rust".to_string()),
        code: "fn main() {}".to_string(),
    }]);
    assert_eq!(serialize_document(&d), "```rust\nfn main() {}\n```\n");
}

#[test]
fn serialize_elements_separated_by_blank_lines() {
    let grammar = simple_grammar();
    let src = "# Title\n\nPara.\n\n----\n\n### Body\n";
    let d = parse_and_assign(src, &grammar).expect("should parse");
    let serialized = serialize_document(&d);
    assert!(serialized.contains("# Title"), "expected '# Title' in: {serialized:?}");
    assert!(serialized.contains("Para."), "expected 'Para.' in: {serialized:?}");
}

#[test]
fn serialize_full_document_roundtrip() {
    let input = "# My Post\n\nThis is a paragraph.\n\n----\n\n### Another Section.\n";
    let grammar = simple_grammar();
    let original = parse_and_assign(input, &grammar).expect("parse failed");
    let serialized = serialize_document(&original);
    let reparsed = parse_and_assign(&serialized, &grammar).expect("reparse failed");
    // Count total elements across preamble and body
    let orig_count: usize = original.preamble.iter().map(|s| s.elements.len()).sum::<usize>()
        + original.body.len();
    let repr_count: usize = reparsed.preamble.iter().map(|s| s.elements.len()).sum::<usize>()
        + reparsed.body.len();
    assert_eq!(
        orig_count,
        repr_count,
        "roundtrip element count mismatch: original={}, reparsed={}",
        orig_count,
        repr_count
    );
}
