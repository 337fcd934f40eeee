use presemble::list::parse_list_items;

#[test]
fn parse_list_items_dash_prefix() {
    let source = "- first\n- second\n- third\n";
    let items = parse_list_items(source);
    assert_eq!(items, vec!["first", "second", "third"]);
}

#[test]
fn parse_list_items_star_prefix() {
    let source = "* alpha\n* beta\n";
    let items = parse_list_items(source);
    assert_eq!(items, vec!["alpha", "beta"]);
}

#[test]
fn parse_list_items_skips_empty_lines() {
    let source = "- one\n\n- two\n";
    let items = parse_list_items(source);
    assert_eq!(items, vec!["one", "two"]);
}

#[test]
fn parse_list_items_trims_whitespace() {
    let source = "  - spaced item  \n";
    let items = parse_list_items(source);
    assert_eq!(items, vec!["spaced item"]);
}

#[test]
fn parse_list_items_empty_source() {
    let items = parse_list_items("");
    assert!(items.is_empty());
}

#[test]
fn joined_texts_are_the_items() {
    let texts = ["first", "second item", "third"];
    let source: String = texts.iter().map(|t| format!("- {t}\n")).collect();
    assert_eq!(parse_list_items(&source), texts);
}
