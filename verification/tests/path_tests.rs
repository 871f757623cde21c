use xtask::pathname::{AbsPath, DistributionPath, RelPath};

fn rel(parts: &[&str]) -> RelPath {
    RelPath {
        components: parts.iter().map(|p| p.as_bytes().to_vec()).collect(),
    }
}

fn abs(parts: &[&str]) -> AbsPath {
    AbsPath {
        components: parts.iter().map(|p| p.as_bytes().to_vec()).collect(),
    }
}

fn exts(names: &[&str]) -> Vec<Vec<u8>> {
    names.iter().map(|e| e.as_bytes().to_vec()).collect()
}

#[test]
fn extension_matching_edge_cases() {
    assert!(!rel(&[]).contains_any_extension(&exts(&[""])));
    assert!(!rel(&["foo"]).contains_any_extension(&exts(&["foo"])));
    assert!(!rel(&["foo.bar"]).contains_any_extension(&exts(&["foo"])));
    assert!(rel(&["foo.bar"]).contains_any_extension(&exts(&["foo", "bar"])));
}

#[test]
fn extension_is_taken_from_the_last_component_only() {
    assert!(rel(&["dir.js", "page.html"]).contains_any_extension(&exts(&["html"])));
    assert!(!rel(&["dir.js", "page.html"]).contains_any_extension(&exts(&["js"])));
    // A name whose only dot leads has no extension.
    assert!(!rel(&[".gitignore"]).contains_any_extension(&exts(&["gitignore"])));
    // A trailing dot gives the empty extension.
    assert!(rel(&["name."]).contains_any_extension(&exts(&[""])));
}

#[test]
fn relative_depth_counts_components() {
    assert_eq!(rel(&[]).relative_depth(), 0);
    assert_eq!(rel(&["foo"]).relative_depth(), 1);
    assert_eq!(rel(&["foo", "bar"]).relative_depth(), 2);
}

#[test]
fn cut_children_walks_up_ancestors() {
    assert_eq!(rel(&[]).cut_children(0).unwrap().components, rel(&[]).components);
    assert!(rel(&[]).cut_children(1).is_none());

    assert_eq!(abs(&[]).cut_children(0).unwrap().components.len(), 0);
    assert!(abs(&[]).cut_children(1).is_none());

    assert_eq!(rel(&["foo"]).cut_children(0).unwrap().components, rel(&["foo"]).components);
    assert_eq!(rel(&["foo"]).cut_children(1).unwrap().components.len(), 0);
    assert!(rel(&["foo"]).cut_children(2).is_none());
}

#[test]
fn join_and_strip_prefix_are_inverse_here() {
    let root = abs(&["root", "front"]);
    let below = root.join(&rel(&["pages", "index.html"]));
    assert_eq!(below.components, abs(&["root", "front", "pages", "index.html"]).components);

    let stripped = below.strip_prefix(&root).unwrap();
    assert_eq!(stripped.components, rel(&["pages", "index.html"]).components);

    assert!(below.strip_prefix(&abs(&["root", "elsewhere"])).is_none());
}

#[test]
fn parent_drops_the_last_component() {
    let p = abs(&["a", "b", "c"]);
    assert_eq!(p.parent().unwrap().components, abs(&["a", "b"]).components);
    assert!(abs(&[]).parent().is_none());
}
