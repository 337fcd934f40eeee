use presemble::document::{ContentElement, FlatDocument, LinkOp, LinkTarget, LinkText};
use presemble::schema::{Span, Spanned};

#[test]
fn content_element_partial_eq_paragraph() {
    let a = ContentElement::Paragraph { text: "hello".to_string() };
    let b = ContentElement::Paragraph { text: "hello".to_string() };
    let c = ContentElement::Paragraph { text: "world".to_string() };
    assert_eq!(a, b);
    assert_ne!(a, c);
}

#[test]
fn link_expression_path_ref_round_trips() {
    let elem = ContentElement::LinkExpression {
        text: LinkText::Static("Read more".to_string()),
        target: LinkTarget::PathRef("/fragments/header".to_string()),
    };
    let cloned = elem.clone();
    assert_eq!(elem, cloned);
}

#[test]
fn link_expression_thread_expr_with_ops() {
    let ops = vec![
        LinkOp::SortBy { field: "published".to_string(), descending: true },
        LinkOp::Take(4),
        LinkOp::Filter { field: "category".to_string(), value: "news".to_string() },
    ];
    let elem = ContentElement::LinkExpression {
        text: LinkText::Binding("posts".to_string()),
        target: LinkTarget::ThreadExpr {
            source: ":post".to_string(),
            operations: ops,
        },
    };
    let cloned = elem.clone();
    assert_eq!(elem, cloned);
}

#[test]
fn link_text_variants_are_distinct() {
    assert_ne!(LinkText::Empty, LinkText::Static("x".to_string()));
    assert_ne!(LinkText::Static("a".to_string()), LinkText::Binding("a".to_string()));
    assert_eq!(LinkText::Empty, LinkText::Empty);
}

#[test]
fn flat_document_holds_spanned_elements() {
    let span = Span { start: 0, end: 5 };
    let elem = ContentElement::Paragraph { text: "hello".to_string() };
    let spanned = Spanned { node: elem, span };
    let doc = FlatDocument { elements: im::Vector::from(vec![spanned]) };
    assert_eq!(doc.elements.len(), 1);
    assert_eq!(doc.elements[0].span.start, 0);
    assert_eq!(doc.elements[0].span.end, 5);
}
