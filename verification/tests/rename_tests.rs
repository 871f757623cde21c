use xtask::pathname::{AbsPath, RelPath};
use xtask::rename::{RenameRule, handle_minify_directory_renaming};

fn abs(parts: &[&str]) -> AbsPath {
    AbsPath {
        components: parts.iter().map(|p| p.as_bytes().to_vec()).collect(),
    }
}

fn rel(parts: &[&str]) -> RelPath {
    RelPath {
        components: parts.iter().map(|p| p.as_bytes().to_vec()).collect(),
    }
}

fn error_pages_rule() -> Vec<RenameRule> {
    vec![RenameRule {
        source_prefix: abs(&["root", "front", "error_pages"]),
        destination_prefix: rel(&[".error_pages"]),
    }]
}

#[test]
fn matching_rule_reroutes_the_trailing_segments() {
    let out = handle_minify_directory_renaming(
        &error_pages_rule(),
        &abs(&["root", "front", "error_pages", "404.html"]),
        &abs(&["build", "out", "error_pages", "404.html"]),
    );
    assert_eq!(out.components, abs(&["build", "out", ".error_pages", "404.html"]).components);
}

#[test]
fn no_matching_rule_keeps_the_naive_output() {
    let out = handle_minify_directory_renaming(
        &error_pages_rule(),
        &abs(&["root", "front", "pages", "index.html"]),
        &abs(&["build", "out", "pages", "index.html"]),
    );
    assert_eq!(out.components, abs(&["build", "out", "pages", "index.html"]).components);
}

#[test]
fn too_shallow_an_output_falls_back_to_the_naive_path() {
    // The renamed relative path is two levels deep, but the naive output
    // has only one component to walk up from.
    let out = handle_minify_directory_renaming(
        &error_pages_rule(),
        &abs(&["root", "front", "error_pages", "404.html"]),
        &abs(&["404.html"]),
    );
    assert_eq!(out.components, abs(&["404.html"]).components);
}

#[test]
fn the_first_matching_rule_wins() {
    let rules = vec![
        RenameRule {
            source_prefix: abs(&["root", "front"]),
            destination_prefix: rel(&["first"]),
        },
        RenameRule {
            source_prefix: abs(&["root", "front"]),
            destination_prefix: rel(&["second"]),
        },
    ];
    let out = handle_minify_directory_renaming(
        &rules,
        &abs(&["root", "front", "a.html"]),
        &abs(&["build", "front", "a.html"]),
    );
    assert_eq!(out.components, abs(&["build", "first", "a.html"]).components);
}

#[test]
fn empty_rule_list_changes_nothing() {
    let out = handle_minify_directory_renaming(
        &vec![],
        &abs(&["root", "a.html"]),
        &abs(&["build", "a.html"]),
    );
    assert_eq!(out.components, abs(&["build", "a.html"]).components);
}
