use xtask::copier::copy_file_tree_filtered;
use xtask::fstree::{DirTree, FsEntry};
use xtask::pathname::AbsPath;

fn file(name: &str) -> FsEntry {
    FsEntry::File { name: name.as_bytes().to_vec() }
}

fn abs(parts: &[&str]) -> AbsPath {
    AbsPath {
        components: parts.iter().map(|p| p.as_bytes().to_vec()).collect(),
    }
}

fn exts(names: &[&str]) -> Vec<Vec<u8>> {
    names.iter().map(|e| e.as_bytes().to_vec()).collect()
}

fn sample_tree() -> DirTree {
    DirTree {
        readable: true,
        entries: vec![file("a.html"), file("b.css"), file("c.js"), file("d")],
    }
}

fn copied_names(plan: &xtask::copier::CopyPlan) -> Vec<Vec<Vec<u8>>> {
    plan.items.iter().map(|it| it.from.components.clone()).collect()
}

#[test]
fn allow_listed_copy_takes_exactly_the_listed_extensions() {
    let from = abs(&["src"]);
    let to = abs(&["out"]);
    let plan =
        copy_file_tree_filtered(&sample_tree(), &from, &to, &exts(&["html", "css"]), true)
            .unwrap();
    let names = copied_names(&plan);
    assert_eq!(
        names,
        vec![abs(&["src", "a.html"]).components, abs(&["src", "b.css"]).components]
    );
    // Each destination mirrors the relative path under the other root.
    assert_eq!(plan.items[0].to.components, abs(&["out", "a.html"]).components);
    assert_eq!(plan.items[1].to.components, abs(&["out", "b.css"]).components);
}

#[test]
fn deny_listed_copy_skips_listed_extensions_and_bare_names() {
    let from = abs(&["src"]);
    let to = abs(&["out"]);
    let plan =
        copy_file_tree_filtered(&sample_tree(), &from, &to, &exts(&["html", "css"]), false)
            .unwrap();
    let names = copied_names(&plan);
    // Only c.js: a file with no extension is never copied while a non-empty
    // filter is active.
    assert_eq!(names, vec![abs(&["src", "c.js"]).components]);
}

#[test]
fn empty_filter_in_deny_sense_copies_everything() {
    let from = abs(&["src"]);
    let to = abs(&["out"]);
    let plan = copy_file_tree_filtered(&sample_tree(), &from, &to, &exts(&[]), false).unwrap();
    assert_eq!(plan.items.len(), 4);
}

#[test]
fn empty_filter_in_allow_sense_copies_nothing() {
    let from = abs(&["src"]);
    let to = abs(&["out"]);
    let plan = copy_file_tree_filtered(&sample_tree(), &from, &to, &exts(&[]), true).unwrap();
    assert!(plan.items.is_empty());
}

#[test]
fn copy_of_unreadable_root_fails() {
    let from = abs(&["src"]);
    let to = abs(&["out"]);
    let tree = DirTree { readable: false, entries: vec![] };
    assert!(copy_file_tree_filtered(&tree, &from, &to, &exts(&["html"]), true).is_err());
}
