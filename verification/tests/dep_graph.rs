use presemble::dep_graph::DependencyGraph;
use presemble::path::{PathSet, SitePath};

fn set(paths: &[&SitePath]) -> PathSet {
    let mut set = PathSet::new();
    for path in paths {
        set.insert((*path).clone());
    }
    set
}

#[test]
fn affected_outputs_returns_both_for_shared_source() {
    let mut g = DependencyGraph::new();
    let schema = SitePath::new("schemas/article/item.md");
    let out1 = SitePath::new("output/article/a.html");
    let out2 = SitePath::new("output/article/b.html");
    g.register(out1.clone(), set(&[&schema]));
    g.register(out2.clone(), set(&[&schema]));
    let affected = g.affected_outputs(&schema);
    assert!(affected.contains(&out1));
    assert!(affected.contains(&out2));
}

#[test]
fn remove_output_cleans_reverse_entries() {
    let mut g = DependencyGraph::new();
    let schema = SitePath::new("schemas/article/item.md");
    let out = SitePath::new("output/article/a.html");
    g.register(out.clone(), set(&[&schema]));
    g.remove_output(&out);
    assert!(g.affected_outputs(&schema).is_empty());
    assert!(!g.has_output(&out));
}

#[test]
fn merge_replaces_stale_entries() {
    let mut g = DependencyGraph::new();
    let old_source = SitePath::new("templates/old.html");
    let new_source = SitePath::new("templates/new.html");
    let out = SitePath::new("output/index.html");
    g.register(out.clone(), set(&[&old_source]));

    let mut partial = DependencyGraph::new();
    partial.register(out.clone(), set(&[&new_source]));
    g.merge(partial);

    assert!(g.affected_outputs(&new_source).contains(&out));
    assert!(!g.affected_outputs(&old_source).contains(&out));
}

#[test]
fn affected_outputs_returns_empty_for_unknown_source() {
    let g = DependencyGraph::new();
    assert!(g.affected_outputs(&SitePath::new("unknown.md")).is_empty());
}

#[test]
fn is_known_source_returns_true_for_registered_source() {
    let mut g = DependencyGraph::new();
    let source = SitePath::new("content/article/hello.md");
    let output = SitePath::new("output/article/hello/index.html");
    g.register(output, set(&[&source]));
    assert!(g.is_known_source(&source));
}

#[test]
fn is_known_source_returns_false_for_unknown_source() {
    let g = DependencyGraph::new();
    assert!(!g.is_known_source(&SitePath::new("content/article/unknown.md")));
}

#[test]
fn is_known_source_returns_false_after_output_removed() {
    let mut g = DependencyGraph::new();
    let source = SitePath::new("content/article/hello.md");
    let output = SitePath::new("output/article/hello/index.html");
    g.register(output.clone(), set(&[&source]));
    g.remove_output(&output);
    assert!(!g.is_known_source(&source));
}

#[test]
fn affected_outputs_with_absolute_path_matches_registered_relative() {
    // This test documents the requirement: after canonicalization at the call site,
    // paths registered and looked up should always be canonical and thus equal.
    // The DependencyGraph itself stores whatever it receives — callers are responsible.
    let mut g = DependencyGraph::new();
    let source = SitePath::new("/canonical/path/to/file.md");
    let output = SitePath::new("/canonical/path/to/output/index.html");
    g.register(output.clone(), set(&[&source]));
    let affected = g.affected_outputs(&source);
    assert!(affected.contains(&output));
}
