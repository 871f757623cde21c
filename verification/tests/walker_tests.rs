use xtask::fstree::{DirTree, FsEntry, IssueKind};
use xtask::walker::{WalkError, walk};

fn file(name: &str) -> FsEntry {
    FsEntry::File { name: name.as_bytes().to_vec() }
}

fn dir(name: &str, readable: bool, entries: Vec<FsEntry>) -> FsEntry {
    FsEntry::Dir { name: name.as_bytes().to_vec(), tree: DirTree { readable, entries } }
}

fn path_of(parts: &[&str]) -> Vec<Vec<u8>> {
    parts.iter().map(|p| p.as_bytes().to_vec()).collect()
}

#[test]
fn walk_visits_exactly_the_reachable_files() {
    // Nested subdirectories, an empty subdirectory, and an unreadable one.
    let root = DirTree {
        readable: true,
        entries: vec![
            file("top.txt"),
            dir(
                "nested",
                true,
                vec![file("inner.txt"), dir("deeper", true, vec![file("deep.txt")])],
            ),
            dir("empty", true, vec![]),
            dir("locked", false, vec![file("hidden.txt")]),
        ],
    };
    let report = walk(&root).unwrap();

    let mut got: Vec<Vec<Vec<u8>>> =
        report.files.iter().map(|p| p.components.clone()).collect();
    let mut expected = vec![
        path_of(&["top.txt"]),
        path_of(&["nested", "inner.txt"]),
        path_of(&["nested", "deeper", "deep.txt"]),
    ];
    got.sort();
    expected.sort();
    assert_eq!(got, expected);

    // The unreadable subdirectory is reported, and nothing below it appears.
    assert_eq!(report.issues.len(), 1);
    assert_eq!(report.issues[0].path.components, path_of(&["locked"]));
    assert_eq!(report.issues[0].kind, IssueKind::UnlistableDir);
}

#[test]
fn walk_order_is_files_first_then_latest_subdirectory() {
    let root = DirTree {
        readable: true,
        entries: vec![
            dir("a", true, vec![file("a1")]),
            file("f1"),
            dir("b", true, vec![file("b1")]),
            file("f2"),
        ],
    };
    let report = walk(&root).unwrap();
    let got: Vec<Vec<Vec<u8>>> = report.files.iter().map(|p| p.components.clone()).collect();
    // The directory's own files come first, then the most recently
    // discovered subdirectory is descended into before earlier ones.
    let expected = vec![
        path_of(&["f1"]),
        path_of(&["f2"]),
        path_of(&["b", "b1"]),
        path_of(&["a", "a1"]),
    ];
    assert_eq!(got, expected);
}

#[test]
fn unknown_entries_are_reported_and_skipped() {
    let root = DirTree {
        readable: true,
        entries: vec![
            FsEntry::Unknown { name: b"ghost".to_vec() },
            FsEntry::Special { name: b"socket".to_vec() },
            file("real.txt"),
        ],
    };
    let report = walk(&root).unwrap();
    assert_eq!(report.files.len(), 1);
    assert_eq!(report.files[0].components, path_of(&["real.txt"]));
    assert_eq!(report.issues.len(), 1);
    assert_eq!(report.issues[0].path.components, path_of(&["ghost"]));
    assert_eq!(report.issues[0].kind, IssueKind::UnknownEntry);
}

#[test]
fn unreadable_root_is_fatal() {
    let root = DirTree { readable: false, entries: vec![file("unseen.txt")] };
    match walk(&root) {
        Err(WalkError::RootUnlistable) => {}
        Ok(_) => panic!("an unreadable root must fail the walk"),
    }
}

#[test]
fn empty_root_yields_nothing() {
    let root = DirTree { readable: true, entries: vec![] };
    let report = walk(&root).unwrap();
    assert!(report.files.is_empty());
    assert!(report.issues.is_empty());
}
