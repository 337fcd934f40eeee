use presemble::dirty::DirtyDocs;
use presemble::path::SitePath;

#[test]
fn new_is_empty() {
    assert!(DirtyDocs::new().is_empty());
}

#[test]
fn mark_then_contains() {
    let mut dirty = DirtyDocs::new();
    dirty.mark("content/post/hello.md");
    assert!(dirty.contains(&SitePath::new("content/post/hello.md")));
}

#[test]
fn mark_then_clear_then_not_contains() {
    let mut dirty = DirtyDocs::new();
    dirty.mark("content/post/hello.md");
    dirty.clear(&SitePath::new("content/post/hello.md"));
    assert!(!dirty.contains(&SitePath::new("content/post/hello.md")));
}

#[test]
fn mark_same_path_twice_stays_dedup() {
    let mut dirty = DirtyDocs::new();
    dirty.mark("content/post/hello.md");
    dirty.mark("content/post/hello.md");
    let count = dirty.iter().len();
    assert_eq!(count, 1, "same path marked twice should appear only once");
}

#[test]
fn take_drains() {
    let mut dirty = DirtyDocs::new();
    dirty.mark("content/post/a.md");
    dirty.mark("content/post/b.md");
    let taken = dirty.take();
    assert_eq!(taken.len(), 2, "take should return both paths");
    assert!(dirty.is_empty(), "set should be empty after take");
}

#[test]
fn iter_does_not_mutate() {
    let mut dirty = DirtyDocs::new();
    dirty.mark("content/post/x.md");
    dirty.mark("content/post/y.md");
    let first_count = dirty.iter().len();
    let second_count = dirty.iter().len();
    assert_eq!(first_count, 2);
    assert_eq!(second_count, 2, "second iteration should still yield both paths");
}

#[test]
fn a_document_stays_as_it_was_marked_first() {
    let mut dirty = DirtyDocs::new();
    dirty.mark("content//post/a.md");
    dirty.mark("content/post/a.md");
    let listed: Vec<String> = dirty.iter().iter().map(|p| p.as_str().to_string()).collect();
    assert_eq!(listed, ["content//post/a.md"]);
    assert!(dirty.contains(&SitePath::new("content/post/a.md")));
}
