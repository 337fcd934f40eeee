use presemble::content_editor::{
    check_new_content, collect_link_options, list_schemas, create_content, schema_file_path, schema_stem,
    stem_from_link_pattern, title_from_md, url_from_pattern, validate_content_path, ContentFile,
    PathLookup,
};

fn strings(items: &[&str]) -> Vec<String> {
    items.iter().map(|s| s.to_string()).collect()
}

/// What is found of a file that lies in the content directory.
fn found() -> PathLookup {
    PathLookup {
        exists: true,
        canonical: Ok("/site/content/post/hello.md".to_string()),
        site_dir: Ok("/site".to_string()),
    }
}

#[test]
fn stem_from_pattern_simple() {
    assert_eq!(stem_from_link_pattern("/author/<name>"), Some("author".to_string()));
}

#[test]
fn stem_from_pattern_no_slash() {
    assert_eq!(stem_from_link_pattern("author/<name>"), Some("author".to_string()));
}

#[test]
fn stem_from_pattern_empty() {
    assert_eq!(stem_from_link_pattern(""), None);
}

#[test]
fn stem_from_pattern_cuts_at_the_placeholder() {
    assert_eq!(stem_from_link_pattern("//author-<name>/x"), Some("author".to_string()));
    assert_eq!(stem_from_link_pattern("/<name>"), None);
}

#[test]
fn url_from_pattern_replaces_placeholder() {
    assert_eq!(url_from_pattern("/author/<name>", "alice"), "/author/alice");
}

#[test]
fn url_from_pattern_no_placeholder() {
    assert_eq!(url_from_pattern("/static/page", "slug"), "/static/page");
}

#[test]
fn list_schemas_sorted() {
    let stems = list_schemas(&strings(&["zebra", "apple"]));
    assert_eq!(stems, vec!["apple", "zebra"]);
}

#[test]
fn list_schemas_empty() {
    let stems = list_schemas(&Vec::new());
    assert!(stems.is_empty());
}

#[test]
fn create_content_unknown_stem_error() {
    let result = check_new_content(&strings(&["post"]), "nonexistent", "my-slug");
    assert!(result.is_err());
    assert!(result.unwrap_err().contains("unknown schema type"));
}

#[test]
fn create_content_invalid_slug_error() {
    let result = check_new_content(&strings(&["post"]), "post", "bad slug!");
    assert!(result.is_err());
    assert!(result.unwrap_err().contains("invalid slug"));
}

#[test]
fn create_content_success() {
    assert_eq!(check_new_content(&strings(&["post"]), "post", "my-first-post"), Ok(()));
    let new = create_content(&strings(&["post"]), "post", "my-first-post", false).unwrap();
    assert_eq!(new.url, "/post/my-first-post");
    assert_eq!(new.file, "content/post/my-first-post.md");
}

#[test]
fn create_content_duplicate_error() {
    let result = create_content(&strings(&["post"]), "post", "existing", true);
    assert!(result.is_err());
    assert!(result.unwrap_err().contains("content already exists"));
}

#[test]
fn create_content_accepts_letters_of_any_script() {
    assert_eq!(check_new_content(&strings(&["post"]), "post", "über-2"), Ok(()));
    assert!(check_new_content(&strings(&["post"]), "post", "").is_err());
}

#[test]
fn validate_content_path_rejects_no_content_prefix() {
    let err = validate_content_path("/site", "schemas/bad.md", &found()).unwrap_err();
    assert!(err.contains("must start with 'content/'"), "got: {err}");
}

#[test]
fn validate_content_path_rejects_non_md() {
    let err = validate_content_path("/site", "content/post/bad.txt", &found()).unwrap_err();
    assert!(err.contains("must end with '.md'"), "got: {err}");
}

#[test]
fn validate_content_path_rejects_dotdot() {
    let err = validate_content_path("/site", "content/../etc/passwd.md", &found()).unwrap_err();
    assert!(err.contains("traversal"), "got: {err}");
}

#[test]
fn validate_content_path_gives_the_path_in_the_site() {
    let file = "content/post/hello.md";
    let path = validate_content_path("/site", file, &found());
    assert_eq!(path, Ok("/site/content/post/hello.md".to_string()));
    let path = validate_content_path("/site/", file, &found());
    assert_eq!(path, Ok("/site/content/post/hello.md".to_string()));
}

#[test]
fn validate_content_path_asks_the_file_system() {
    let file = "content/post/hello.md";
    let missing = PathLookup { exists: false, ..found() };
    let err = validate_content_path("/site", file, &missing).unwrap_err();
    assert_eq!(err, "content file not found: content/post/hello.md");
    let unresolved = PathLookup { canonical: Err("denied".to_string()), ..found() };
    let err = validate_content_path("/site", file, &unresolved).unwrap_err();
    assert_eq!(err, "cannot resolve path: denied");
    let no_dir = PathLookup { site_dir: Err("gone".to_string()), ..found() };
    let err = validate_content_path("/site", file, &no_dir).unwrap_err();
    assert_eq!(err, "cannot resolve site dir: gone");
    // A link that leads out of the site, to one with a similar name.
    let outside = PathLookup { canonical: Ok("/site-old/hello.md".to_string()), ..found() };
    let err = validate_content_path("/site", file, &outside).unwrap_err();
    assert_eq!(err, "path traversal detected");
    // A link that leads elsewhere in the site.
    let inside = PathLookup { canonical: Ok("/site/drafts/hello.md".to_string()), ..found() };
    assert!(validate_content_path("/site", file, &inside).is_ok());
}

#[test]
fn validate_content_path_takes_dots_within_a_name() {
    let file = "content/post/a..b.md";
    let lookup =
        PathLookup { canonical: Ok("/site/content/post/a..b.md".to_string()), ..found() };
    assert_eq!(
        validate_content_path("/site", file, &lookup),
        Ok("/site/content/post/a..b.md".to_string())
    );
}

#[test]
fn schema_stem_is_the_second_component() {
    assert_eq!(schema_stem("content/post/building.md"), Some("post".to_string()));
    assert_eq!(schema_stem("content//post/./building.md"), Some("post".to_string()));
    assert_eq!(schema_stem("content"), None);
}

#[test]
fn schema_file_is_flat_or_in_a_directory() {
    assert_eq!(schema_file_path("/site", "post", true), "/site/schemas/post.md");
    assert_eq!(schema_file_path("/site", "post", false), "/site/schemas/post/item.md");
}

#[test]
fn title_is_the_first_top_level_heading() {
    assert_eq!(title_from_md("## No\n# Yes \n# Later\n"), Some("Yes".to_string()));
    assert_eq!(title_from_md("# # Twice\r\n"), Some("Twice".to_string()));
    assert_eq!(title_from_md("#None\n"), None);
}

#[test]
fn link_options_are_sorted_by_label() {
    let files = vec![
        ContentFile { name: "zed.md".to_string(), text: Some("# Alpha\n".to_string()) },
        ContentFile { name: "notes.txt".to_string(), text: Some("# Skipped\n".to_string()) },
        ContentFile { name: "beta.md".to_string(), text: None },
        ContentFile { name: "first.md".to_string(), text: Some("# Zeta\n".to_string()) },
        ContentFile { name: ".md".to_string(), text: None },
    ];
    let options = collect_link_options("/author/<name>", &files);
    let shown: Vec<(&str, &str)> =
        options.iter().map(|o| (o.label.as_str(), o.value.as_str())).collect();
    assert_eq!(
        shown,
        vec![("Alpha", "/author/zed"), ("Zeta", "/author/first"), ("beta", "/author/beta")]
    );
}
