use presemble::anchor::{
    body_anchor, compose_body_program, compose_first_body_program, compose_slot_program,
    stem_at_cursor,
};
use presemble::editorial::{value_of_slot, SlotReading};
use presemble::error::ContentError;
use presemble::link::{is_link_expression, parse_link_op, parse_link_target};
use presemble::node_store::{link_targets, source_docs_of, Edge, Node, NodeId, NodeStore};
use presemble::site::{
    clj_str, content_file_path, file_stem, included_pairs, line_to_byte_offset, schema_cache_key,
    slug_from_url, stem_from_url_path, template_paths, template_sources, url_for_stem_slug,
    TemplateSource,
};

#[test]
fn literals_are_quoted_and_escaped() {
    assert_eq!(clj_str("plain"), "\"plain\"");
    assert_eq!(clj_str("a \"b\" \\ c\nd"), "\"a \\\"b\\\" \\\\ c\nd\"");
    assert_eq!(clj_str("a\r\n\0b"), "\"a\nb\"");
}

#[test]
fn lines_begin_where_they_do() {
    let src = "ab\ncd\n\nef";
    assert_eq!(line_to_byte_offset(src, 0), 0);
    assert_eq!(line_to_byte_offset(src, 1), 3);
    assert_eq!(line_to_byte_offset(src, 2), 6);
    assert_eq!(line_to_byte_offset(src, 3), 7);
    assert_eq!(line_to_byte_offset(src, 4), 8);
    assert_eq!(line_to_byte_offset("", 3), 0);
}

#[test]
fn pages_have_urls_files_and_schemas() {
    assert_eq!(schema_cache_key("post", "hello"), "post");
    assert_eq!(schema_cache_key("post", "index"), "post/index");
    assert_eq!(url_for_stem_slug("post", "hello"), "/post/hello");
    assert_eq!(url_for_stem_slug("post", "index"), "/post/");
    assert_eq!(url_for_stem_slug("", "index"), "/");
    assert_eq!(content_file_path("post", "hello"), "content/post/hello.md");
    assert_eq!(content_file_path("", "index"), "content/index.md");
}

#[test]
fn urls_are_taken_apart() {
    assert_eq!(stem_from_url_path("/post/hello"), "post");
    assert_eq!(stem_from_url_path("/"), "");
    assert_eq!(slug_from_url("/post/hello"), "hello");
    assert_eq!(slug_from_url("/post/"), "index");
    assert_eq!(slug_from_url("/"), "index");
    assert_eq!(file_stem("content/post/hello.md"), Some("hello".to_string()));
    assert_eq!(file_stem("/"), None);
}

#[test]
fn templates_are_looked_for_in_order() {
    assert_eq!(
        template_sources(true),
        vec![TemplateSource::Collection, TemplateSource::Item, TemplateSource::Partial]
    );
    assert_eq!(template_sources(false), vec![TemplateSource::Item, TemplateSource::Partial]);
    assert_eq!(
        template_paths("/s", "post"),
        vec![
            "/s/templates/post/item.hiccup",
            "/s/templates/post/item.html",
            "/s/templates/post.hiccup",
            "/s/templates/post.html",
        ]
    );
}

#[test]
fn schemas_are_referred_back_to() {
    assert_eq!(
        included_pairs(&vec!["post".to_string()]),
        vec![("post".to_string(), "/post/#_schema".to_string())]
    );
}

#[test]
fn programs_quote_what_they_are_given() {
    assert_eq!(
        compose_slot_program("content/a.md", "title", "say \"hi\""),
        "(ned/set-text (-> (ned/slot (ned/doc-by-path \"content/a.md\") \"title\") \
         ned/descendants ned/texts) \"say \\\"hi\\\"\")"
    );
    let body = compose_body_program("S", "content/a.md", 3, "text");
    assert!(body.contains("(ned/body-at (ned/doc-by-path \"content/a.md\") 3)"), "{body}");
    let first = compose_first_body_program("S", "content/a.md", "text");
    assert!(first.contains("ned/insert-child"), "{first}");
}

#[test]
fn elements_of_a_body_are_anchored_by_their_place() {
    assert_eq!(body_anchor(0), "presemble-body-0");
    assert_eq!(body_anchor(12), "presemble-body-12");
    assert_eq!(stem_at_cursor("content/post/a.md"), Some("post".to_string()));
    assert_eq!(stem_at_cursor("content/index.md"), Some(String::new()));
    assert_eq!(stem_at_cursor("templates/a.md"), None);
}

#[test]
fn the_value_of_a_slot_is_its_text() {
    assert_eq!(
        value_of_slot(&SlotReading::Text("a".to_string()), " "),
        Some("a".to_string())
    );
    let list = SlotReading::List(vec![Some("a".to_string()), None, Some("b".to_string())]);
    assert_eq!(value_of_slot(&list, "\n\n"), Some("a\n\nb".to_string()));
    assert_eq!(value_of_slot(&SlotReading::List(vec![None]), " "), None);
    assert_eq!(value_of_slot(&SlotReading::Other, " "), None);
}

#[test]
fn wrong_link_expressions_are_refused() {
    assert!(is_link_expression("(->> :post)"));
    assert!(!is_link_expression("/post"));
    for wrong in ["(take x)", "(unknown)", "(sort-by)"] {
        assert!(parse_link_op(wrong).is_err(), "{wrong}");
    }
    assert!(parse_link_target("(->> )").is_err());
    let error = ContentError::ParseError("why".to_string());
    assert_eq!(error.message(), "content parse error: why");
}

fn element(store: &mut NodeStore, name: &str) -> NodeId {
    store.add_node(Node::Element(name.to_string()))
}

#[test]
fn documents_are_found_above_their_nodes() {
    let mut store = NodeStore::new();
    let doc = element(&mut store, "document");
    let body = element(&mut store, "body");
    let leaf = store.add_node(Node::Text("t".to_string()));
    let stray = element(&mut store, "paragraph");
    store.add_edge(doc, Edge::Child(body));
    store.add_edge(body, Edge::Child(leaf));
    assert_eq!(source_docs_of(&store, &vec![leaf, body]), vec![doc]);
    assert!(source_docs_of(&store, &vec![stray]).is_empty());
}

#[test]
fn links_are_found_below_a_node_even_in_a_circle() {
    let mut store = NodeStore::new();
    let doc = element(&mut store, "document");
    let link = element(&mut store, "link-expression");
    let target = element(&mut store, "link-target");
    let kind = store.add_node(Node::Text("path-ref".to_string()));
    let value = store.add_node(Node::Text("/author/a".to_string()));
    store.add_edge(target, Edge::Attribute { name: "kind".to_string(), value: kind });
    store.add_edge(target, Edge::Attribute { name: "value".to_string(), value });
    store.add_edge(link, Edge::Child(target));
    store.add_edge(doc, Edge::Child(link));
    assert_eq!(link_targets(&store, doc), vec!["/author/a".to_string()]);
}
