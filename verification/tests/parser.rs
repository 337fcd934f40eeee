use presemble::document::{ContentElement, FlatDocument, LinkOp, LinkTarget, LinkText};
use presemble::link::{parse_link_target, parse_link_text};
use presemble::parser::{byte_to_position, parse_document};
use presemble::schema::{
    BodyRules, Constraint, CountRange, Element, Grammar, HeadingLevel, HeadingLevelRange, Slot,
    SlotName,
};
use presemble::serializer::serialize_element;
use presemble::slot_assignment::parse_and_assign;

fn levels(min: u8, max: u8) -> HeadingLevelRange {
    HeadingLevelRange {
        min: HeadingLevel::new(min).unwrap(),
        max: HeadingLevel::new(max).unwrap(),
    }
}

fn slot(name: &str, element: Element, constraints: Vec<Constraint>) -> Slot {
    Slot { name: SlotName::new(name), element, constraints }
}

// Helper: assert document has exactly the given number of elements.
fn assert_element_count(doc: &FlatDocument, n: usize) {
    assert_eq!(
        doc.elements.len(),
        n,
        "expected {n} elements, got {}: {:#?}",
        doc.elements.len(),
        doc.elements
    );
}

// ── Headings ────────────────────────────────────────────────────────────

#[test]
fn heading_h1_produces_heading_element() {
    let doc = parse_document("# My Title").unwrap();
    assert_element_count(&doc, 1);
    match &doc.elements[0].node {
        ContentElement::Heading { level, text } => {
            assert_eq!(level.value(), 1, "expected H1");
            assert_eq!(text, "My Title");
        }
        other => panic!("expected Heading, got {other:?}"),
    }
}

#[test]
fn heading_h2_produces_correct_level() {
    let doc = parse_document("## Section").unwrap();
    assert_element_count(&doc, 1);
    match &doc.elements[0].node {
        ContentElement::Heading { level, .. } => assert_eq!(level.value(), 2),
        other => panic!("expected Heading, got {other:?}"),
    }
}

#[test]
fn heading_h3_produces_correct_level() {
    let doc = parse_document("### Subsection").unwrap();
    assert_element_count(&doc, 1);
    match &doc.elements[0].node {
        ContentElement::Heading { level, .. } => assert_eq!(level.value(), 3),
        other => panic!("expected Heading, got {other:?}"),
    }
}

#[test]
fn heading_h4_produces_correct_level() {
    let doc = parse_document("#### Deep").unwrap();
    assert_element_count(&doc, 1);
    match &doc.elements[0].node {
        ContentElement::Heading { level, .. } => assert_eq!(level.value(), 4),
        other => panic!("expected Heading, got {other:?}"),
    }
}

#[test]
fn heading_h5_produces_correct_level() {
    let doc = parse_document("##### Deeper").unwrap();
    assert_element_count(&doc, 1);
    match &doc.elements[0].node {
        ContentElement::Heading { level, .. } => assert_eq!(level.value(), 5),
        other => panic!("expected Heading, got {other:?}"),
    }
}

#[test]
fn heading_h6_produces_correct_level() {
    let doc = parse_document("###### Deepest").unwrap();
    assert_element_count(&doc, 1);
    match &doc.elements[0].node {
        ContentElement::Heading { level, .. } => assert_eq!(level.value(), 6),
        other => panic!("expected Heading, got {other:?}"),
    }
}

// ── Paragraphs ──────────────────────────────────────────────────────────

#[test]
fn paragraph_produces_paragraph_element() {
    let doc = parse_document("Hello, world.").unwrap();
    assert_element_count(&doc, 1);
    match &doc.elements[0].node {
        ContentElement::Paragraph { text } => assert_eq!(text, "Hello, world."),
        other => panic!("expected Paragraph, got {other:?}"),
    }
}

#[test]
fn paragraph_text_is_trimmed() {
    let doc = parse_document("  Leading and trailing whitespace  ").unwrap();
    assert_element_count(&doc, 1);
    match &doc.elements[0].node {
        ContentElement::Paragraph { text } => {
            assert!(
                !text.starts_with(' '),
                "paragraph text should not start with whitespace"
            );
        }
        other => panic!("expected Paragraph, got {other:?}"),
    }
}

// ── Images ──────────────────────────────────────────────────────────────

#[test]
fn image_with_alt_produces_image_element() {
    let doc = parse_document("![A photo of a cat](images/cat.jpg)").unwrap();
    // Paragraph wraps image in markdown; image is extracted as standalone.
    let image = doc
        .elements
        .iter()
        .find(|e| matches!(e.node, ContentElement::Image { .. }))
        .expect("expected an Image element");
    match &image.node {
        ContentElement::Image { alt, path } => {
            assert_eq!(alt.as_deref(), Some("A photo of a cat"));
            assert_eq!(path, "images/cat.jpg");
        }
        _ => unreachable!(),
    }
}

#[test]
fn image_without_alt_produces_none_alt() {
    let doc = parse_document("![](images/no-alt.png)").unwrap();
    let image = doc
        .elements
        .iter()
        .find(|e| matches!(e.node, ContentElement::Image { .. }))
        .expect("expected an Image element");
    match &image.node {
        ContentElement::Image { alt, path } => {
            assert!(alt.is_none(), "alt should be None when alt text is empty");
            assert_eq!(path, "images/no-alt.png");
        }
        _ => unreachable!(),
    }
}

// ── Links ────────────────────────────────────────────────────────────────

#[test]
fn link_produces_link_element() {
    let doc = parse_document("[Visit Rust](https://rust-lang.org)").unwrap();
    let link = doc
        .elements
        .iter()
        .find(|e| matches!(e.node, ContentElement::Link { .. }))
        .expect("expected a Link element");
    match &link.node {
        ContentElement::Link { text, href } => {
            assert_eq!(text, "Visit Rust");
            assert_eq!(href, "https://rust-lang.org");
        }
        _ => unreachable!(),
    }
}

#[test]
fn link_text_is_captured() {
    let doc = parse_document("[Author Name](/authors/name)").unwrap();
    let link = doc
        .elements
        .iter()
        .find(|e| matches!(e.node, ContentElement::Link { .. }))
        .expect("expected a Link element");
    match &link.node {
        ContentElement::Link { text, .. } => {
            assert_eq!(text, "Author Name", "link text should match anchor text");
        }
        _ => unreachable!(),
    }
}

// ── Separator ────────────────────────────────────────────────────────────

#[test]
fn thematic_break_produces_separator() {
    let doc = parse_document("----").unwrap();
    assert_element_count(&doc, 1);
    assert!(
        matches!(doc.elements[0].node, ContentElement::Separator),
        "expected Separator, got {:?}",
        doc.elements[0]
    );
}

// ── Mixed document ───────────────────────────────────────────────────────

#[test]
fn mixed_document_produces_elements_in_order() {
    let input = r#"# Title

Some paragraph text.

[Author](/author)

![Alt text](cover.jpg)

----

### Section

Body paragraph."#;

    let doc = parse_document(input).unwrap();

    // We expect at least: Heading(1), Paragraph, Link, Image, Separator, Heading(3), Paragraph.
    // Confirm the first element is an H1 heading.
    match &doc.elements[0].node {
        ContentElement::Heading { level, text } => {
            assert_eq!(level.value(), 1);
            assert_eq!(text, "Title");
        }
        other => panic!("first element should be Heading(H1), got {other:?}"),
    }

    // Confirm separator is present.
    let has_separator = doc
        .elements
        .iter()
        .any(|e| matches!(e.node, ContentElement::Separator));
    assert!(has_separator, "expected a Separator in the mixed document");

    // Confirm there is an H3 heading.
    let h3 = doc.elements.iter().find(|e| {
        matches!(&e.node, ContentElement::Heading { level, .. } if level.value() == 3)
    });
    assert!(h3.is_some(), "expected an H3 heading in the mixed document");
}

// ── Code blocks ──────────────────────────────────────────────────────────

#[test]
fn fenced_code_block_with_language() {
    let content = "```rust\nfn main() {}\n```\n";
    let doc = parse_document(content).expect("parses");
    assert_element_count(&doc, 1);
    if let ContentElement::CodeBlock { language, code } = &doc.elements[0].node {
        assert_eq!(language.as_deref(), Some("rust"));
        assert!(code.contains("fn main()"));
    } else {
        panic!("expected CodeBlock");
    }
}

#[test]
fn fenced_code_block_without_language() {
    let content = "```\nsome code\n```\n";
    let doc = parse_document(content).expect("parses");
    assert_element_count(&doc, 1);
    if let ContentElement::CodeBlock { language, code } = &doc.elements[0].node {
        assert!(language.is_none());
        assert!(code.contains("some code"));
    } else {
        panic!("expected CodeBlock");
    }
}



// ── Tables ───────────────────────────────────────────────────────────────

#[test]
fn table_parses_headers_and_rows() {
    let input = "| Name | Value |\n|------|-------|\n| Alpha | 1 |\n| Beta | 2 |\n";
    let doc = parse_document(input).expect("table markdown should parse");
    let table = doc
        .elements
        .iter()
        .find(|e| matches!(e.node, ContentElement::Table { .. }))
        .expect("expected a Table element");
    match &table.node {
        ContentElement::Table { headers, rows } => {
            assert_eq!(headers, &["Name", "Value"], "headers should match column names");
            assert_eq!(rows.len(), 2, "expected two body rows");
            assert_eq!(rows[0], vec!["Alpha".to_string(), "1".to_string()]);
            assert_eq!(rows[1], vec!["Beta".to_string(), "2".to_string()]);
        }
        _ => unreachable!(),
    }
}

#[test]
fn table_with_inline_code_in_cell() {
    let input = "| Command | Description |\n|---------|-------------|\n| `cargo test` | Run tests |\n";
    let doc = parse_document(input).expect("table with inline code should parse");
    let table = doc
        .elements
        .iter()
        .find(|e| matches!(e.node, ContentElement::Table { .. }))
        .expect("expected a Table element");
    match &table.node {
        ContentElement::Table { headers: _, rows } => {
            assert_eq!(rows.len(), 1, "expected one body row");
            let cell = &rows[0][0];
            assert!(
                cell.contains("<code>"),
                "cell with inline code should contain <code> tag; got: {cell}"
            );
            assert!(
                cell.contains("cargo test"),
                "cell should contain code content; got: {cell}"
            );
            assert!(
                cell.contains("</code>"),
                "cell should close <code> tag; got: {cell}"
            );
        }
        _ => unreachable!(),
    }
}

// ── byte_to_position ─────────────────────────────────────────────────────

#[test]
fn byte_to_position_first_line() {
    let src = "Hello, world!";
    assert_eq!(byte_to_position(src, 0), (0, 0));
    assert_eq!(byte_to_position(src, 5), (0, 5));
    assert_eq!(byte_to_position(src, 13), (0, 13));
}

#[test]
fn byte_to_position_second_line() {
    let src = "line one\nline two";
    // "line two" starts at byte 9
    assert_eq!(byte_to_position(src, 9), (1, 0));
    assert_eq!(byte_to_position(src, 13), (1, 4));
}

#[test]
fn byte_to_position_utf16() {
    // U+1F600 (emoji) is 4 bytes in UTF-8 but 2 UTF-16 code units.
    let src = "\u{1F600}A";
    // byte offset 0 → line 0, char 0
    assert_eq!(byte_to_position(src, 0), (0, 0));
    // byte offset 4 → after the emoji → char 2 in UTF-16
    assert_eq!(byte_to_position(src, 4), (0, 2));
    // byte offset 5 → after 'A' → char 3 in UTF-16
    assert_eq!(byte_to_position(src, 5), (0, 3));
}

// ── parse_document span coverage ────────────────────────────────────────

#[test]
fn parse_document_heading_has_span() {
    let src = "# Hello\n\nSome text.\n";
    let doc = parse_document(src).expect("should parse");
    let heading = doc.elements.iter().find(|e| matches!(e.node, ContentElement::Heading { .. }));
    assert!(heading.is_some(), "expected a heading element");
    let h = heading.unwrap();
    assert_eq!(h.span.start, 0, "heading should start at byte 0");
}

// ── parse_and_assign ─────────────────────────────────────────────────────

#[test]
fn parse_and_assign_returns_slotted_document() {
    let grammar = Grammar {
        preamble: vec![
            slot(
                "title",
                Element::Heading { level: levels(1, 1) },
                vec![Constraint::Occurs(CountRange::Exactly(1))],
            ),
            slot("summary", Element::Paragraph, vec![Constraint::Occurs(CountRange::Exactly(1))]),
        ],
        body: Some(BodyRules { heading_range: Some(levels(3, 6)) }),
    };
    let src = "# My Title\n\nA summary.\n\n----\n\n### Body section\n";
    let doc = parse_and_assign(src, &grammar).expect("should parse and assign");

    assert!(doc.has_separator, "should detect separator");
    assert_eq!(doc.preamble.len(), 2, "should have 2 preamble slots");

    let title_slot = &doc.preamble[0];
    assert_eq!(title_slot.name.as_str(), "title");
    assert_eq!(title_slot.elements.len(), 1);
    assert!(matches!(
        &title_slot.elements[0].node,
        ContentElement::Heading { level, .. } if level.value() == 1
    ));

    let summary_slot = &doc.preamble[1];
    assert_eq!(summary_slot.name.as_str(), "summary");
    assert_eq!(summary_slot.elements.len(), 1);

    assert_eq!(doc.body.len(), 1);
}

// ── Body paragraph serializes as plain markdown ───────────────────────────

#[test]
fn body_paragraph_with_bold_parses_as_paragraph_not_html() {
    // Body paragraphs with inline markdown must parse as Paragraph, not RawHtml.
    // Inline markdown rendering happens in the renderer, not the parser.
    let input = "# Title\n\nSummary.\n\n----\n\nThis has **bold** text.\n";
    let doc = parse_document(input).unwrap();
    let body_elements: Vec<_> = doc.elements.iter()
        .skip_while(|e| !matches!(e.node, ContentElement::Separator))
        .skip(1) // skip the separator itself
        .collect();
    assert!(!body_elements.is_empty(), "expected body elements after separator");
    let first = &body_elements[0].node;
    match first {
        ContentElement::Paragraph { text } => {
            assert!(
                text.contains("bold"),
                "expected 'bold' in paragraph text, got: {text}"
            );
        }
        other => panic!("expected Paragraph for body paragraph with bold, got: {other:?}"),
    }
}

#[test]
fn body_paragraph_with_italic_parses_as_paragraph_not_html() {
    let input = "# Title\n\nSummary.\n\n----\n\nThis has _italic_ text.\n";
    let doc = parse_document(input).unwrap();
    let body_elements: Vec<_> = doc.elements.iter()
        .skip_while(|e| !matches!(e.node, ContentElement::Separator))
        .skip(1)
        .collect();
    assert!(!body_elements.is_empty(), "expected body elements after separator");
    match &body_elements[0].node {
        ContentElement::Paragraph { .. } => {}
        other => panic!("expected Paragraph for body paragraph with italic, got: {other:?}"),
    }
}

#[test]
fn body_blockquote_produces_blockquote_element() {
    let input = "# Title\n\nSummary.\n\n----\n\n> A quoted text.\n";
    let doc = parse_document(input).unwrap();
    let body_elements: Vec<_> = doc.elements.iter()
        .skip_while(|e| !matches!(e.node, ContentElement::Separator))
        .skip(1)
        .collect();
    assert!(!body_elements.is_empty(), "expected body elements after separator");
    match &body_elements[0].node {
        ContentElement::Blockquote { text } => {
            assert!(
                text.contains("quoted"),
                "expected 'quoted' in blockquote text, got: {text}"
            );
        }
        other => panic!("expected Blockquote element, got: {other:?}"),
    }
}

#[test]
fn blockquote_serializes_with_gt_prefix() {
    let elem = ContentElement::Blockquote { text: "A quoted text.".to_string() };
    let serialized = serialize_element(&elem);
    assert!(
        serialized.starts_with("> "),
        "expected serialized blockquote to start with '> ', got: {serialized:?}"
    );
    assert!(
        serialized.contains("quoted"),
        "expected 'quoted' in serialized blockquote, got: {serialized:?}"
    );
}

#[test]
fn preamble_paragraph_is_still_plain_paragraph() {
    // Paragraphs BEFORE the separator should still be ContentElement::Paragraph
    let input = "Summary text here.\n\n----\n\nBody content.\n";
    let doc = parse_document(input).unwrap();
    let preamble_elements: Vec<_> = doc.elements.iter()
        .take_while(|e| !matches!(e.node, ContentElement::Separator))
        .collect();
    assert!(!preamble_elements.is_empty(), "expected preamble elements");
    match &preamble_elements[0].node {
        ContentElement::Paragraph { .. } => {}
        other => panic!("expected Paragraph in preamble, got: {other:?}"),
    }
}

#[test]
fn body_heading_is_still_heading_element() {
    // Body headings should remain ContentElement::Heading
    let input = "# Title\n\n----\n\n### Body Heading\n\nBody paragraph.\n";
    let doc = parse_document(input).unwrap();
    let body_elements: Vec<_> = doc.elements.iter()
        .skip_while(|e| !matches!(e.node, ContentElement::Separator))
        .skip(1)
        .collect();
    assert!(!body_elements.is_empty(), "expected body elements after separator");
    match &body_elements[0].node {
        ContentElement::Heading { level, .. } => {
            assert_eq!(level.value(), 3, "expected H3 heading");
        }
        other => panic!("expected Heading for body heading, got: {other:?}"),
    }
}

// ── Link expressions ─────────────────────────────────────────────────────

#[test]
fn parse_simple_path_ref() {
    // [](:fragments/header) -> LinkExpression with PathRef
    let doc = parse_document("[](:fragments/header)").unwrap();
    let expr = doc
        .elements
        .iter()
        .find(|e| matches!(e.node, ContentElement::LinkExpression { .. }))
        .expect("expected a LinkExpression element");
    match &expr.node {
        ContentElement::LinkExpression { text, target } => {
            assert_eq!(*text, LinkText::Empty);
            assert_eq!(
                *target,
                LinkTarget::PathRef("fragments/header".to_string())
            );
        }
        _ => unreachable!(),
    }
}

#[test]
fn parse_threaded_expression() {
    // []((->>%20:post%20(sort-by%20:published%20:desc)%20(take%204)))
    // -> ThreadExpr with source "post", SortBy + Take ops
    // %20 encodes spaces so the href is a valid CommonMark bare link destination.
    let doc = parse_document(
        "[]((->>%20:post%20(sort-by%20:published%20:desc)%20(take%204)))",
    )
    .unwrap();
    let expr = doc
        .elements
        .iter()
        .find(|e| matches!(e.node, ContentElement::LinkExpression { .. }))
        .expect("expected a LinkExpression element");
    match &expr.node {
        ContentElement::LinkExpression { text, target } => {
            assert_eq!(*text, LinkText::Empty);
            match target {
                LinkTarget::ThreadExpr { source, operations } => {
                    assert_eq!(source, "post");
                    assert_eq!(operations.len(), 2);
                    assert_eq!(
                        operations[0],
                        LinkOp::SortBy {
                            field: "published".to_string(),
                            descending: true,
                        }
                    );
                    assert_eq!(operations[1], LinkOp::Take(4));
                }
                other => panic!("expected ThreadExpr, got {other:?}"),
            }
        }
        _ => unreachable!(),
    }
}

#[test]
fn parse_binding_name() {
    // [posts]((->>%20:post%20(take%204))) -> LinkText::Binding("posts")
    // %20 encodes spaces so the href is a valid CommonMark bare link destination.
    let doc = parse_document("[posts]((->>%20:post%20(take%204)))").unwrap();
    let expr = doc
        .elements
        .iter()
        .find(|e| matches!(e.node, ContentElement::LinkExpression { .. }))
        .expect("expected a LinkExpression element");
    match &expr.node {
        ContentElement::LinkExpression { text, .. } => {
            assert_eq!(*text, LinkText::Binding("posts".to_string()));
        }
        _ => unreachable!(),
    }
}

#[test]
fn plain_link_unchanged() {
    // [text](/some/path) -> regular Link, not LinkExpression
    let doc = parse_document("[text](/some/path)").unwrap();
    let link = doc
        .elements
        .iter()
        .find(|e| matches!(e.node, ContentElement::Link { .. }))
        .expect("expected a plain Link element");
    match &link.node {
        ContentElement::Link { text, href } => {
            assert_eq!(text, "text");
            assert_eq!(href, "/some/path");
        }
        _ => unreachable!(),
    }
    assert!(
        !doc.elements.iter().any(|e| matches!(e.node, ContentElement::LinkExpression { .. })),
        "plain link should not produce a LinkExpression"
    );
}

// ── parse_link_target unit tests ─────────────────────────────────────────

#[test]
fn parse_link_target_path_ref_strips_colon() {
    let target = parse_link_target(":fragments/header").unwrap();
    assert_eq!(target, LinkTarget::PathRef("fragments/header".to_string()));
}

#[test]
fn parse_link_target_sort_by_asc_default() {
    let target = parse_link_target("(->> :post (sort-by :published))").unwrap();
    match target {
        LinkTarget::ThreadExpr { source, operations } => {
            assert_eq!(source, "post");
            assert_eq!(
                operations[0],
                LinkOp::SortBy {
                    field: "published".to_string(),
                    descending: false,
                }
            );
        }
        _ => panic!("expected ThreadExpr"),
    }
}

#[test]
fn parse_link_target_filter_op() {
    let target =
        parse_link_target(r#"(->> :post (filter :category "news"))"#).unwrap();
    match target {
        LinkTarget::ThreadExpr { operations, .. } => {
            assert_eq!(
                operations[0],
                LinkOp::Filter {
                    field: "category".to_string(),
                    value: "news".to_string(),
                }
            );
        }
        _ => panic!("expected ThreadExpr"),
    }
}

#[test]
fn parse_link_text_empty() {
    assert_eq!(parse_link_text(""), LinkText::Empty);
}

#[test]
fn parse_link_text_expression_is_static() {
    assert_eq!(
        parse_link_text("(str title)"),
        LinkText::Static("(str title)".to_string())
    );
}

// ── lists ────────────────────────────────────────────────────────────────

#[test]
fn a_list_with_a_link_stays_a_list() {
    for source in ["- see [Rust](https://rust-lang.org)", "- see [this](/page)\n- and that"] {
        let doc = parse_document(&format!("{source}\n")).unwrap();
        assert_element_count(&doc, 1);
        assert_eq!(doc.elements[0].node, ContentElement::List { source: source.to_string() });
    }
}

#[test]
fn a_list_with_an_image_stays_a_list() {
    let doc = parse_document("- ![alt](pic.png)\n- text\n").unwrap();
    assert_element_count(&doc, 1);
    assert!(matches!(&doc.elements[0].node, ContentElement::List { .. }));
}

#[test]
fn a_list_with_headings_code_and_rules_stays_a_list() {
    let source = "- # heading\n- `code`\n- > quote\n- ***\n";
    let doc = parse_document(source).unwrap();
    assert_element_count(&doc, 1);
    match &doc.elements[0].node {
        ContentElement::List { source: got } => assert_eq!(got.trim_end(), source.trim_end()),
        other => panic!("expected List, got {other:?}"),
    }
}

#[test]
fn what_follows_a_list_is_no_part_of_it() {
    let doc = parse_document("- one [x](/y)\n- two\n\nA paragraph.\n").unwrap();
    assert_element_count(&doc, 2);
    assert!(matches!(
        &doc.elements[1].node,
        ContentElement::Paragraph { text } if text == "A paragraph."
    ));
}

// ── positions and link targets ───────────────────────────────────────────

#[test]
fn positions_grow_with_the_offset() {
    let src = "a\u{1F600}\nbb\n\nc";
    let offsets: Vec<usize> = src.char_indices().map(|(i, _)| i).chain([src.len()]).collect();
    let positions: Vec<(u32, u32)> =
        offsets.iter().map(|&o| byte_to_position(src, o)).collect();
    assert!(positions.windows(2).all(|w| w[0] < w[1]), "{positions:?}");
    assert_eq!(positions.last(), Some(&(3, 1)));
}

#[test]
fn encoded_spaces_and_both_arrows_give_the_same_target() {
    let plain = parse_link_target("(->> :post (sort-by :published :desc) (take 4))").unwrap();
    assert_eq!(
        parse_link_target("(->>%20:post%20(sort-by%20:published%20:desc)%20(take%204))").unwrap(),
        plain
    );
    assert_eq!(
        parse_link_target("(-> :post (sort-by :published :desc) (take 4))").unwrap(),
        plain
    );
}

#[test]
fn elements_begin_in_order_within_the_source() {
    let source = "# Title\n\nText with ![one](a.png) and ![two](b.png).\n\n- a\n  - b\n\n\
                  > quote\n\n----\n\n| h |\n|---|\n| c |\n";
    let doc = parse_document(source).unwrap();
    let spans: Vec<(usize, usize)> =
        doc.elements.iter().map(|e| (e.span.start, e.span.end)).collect();
    assert_eq!(spans.len(), 8);
    assert!(spans.windows(2).all(|w| w[0].0 <= w[1].0), "{spans:?}");
    assert!(spans.iter().all(|&(start, end)| start <= end && end <= source.len()), "{spans:?}");
}
