use lister::entry::{FileCandidate, FileKind, FileTimes, TimeReading, WalkEntry, WalkItem};
use lister::walker::{collect_candidates, is_file, root_is_accessible, WalkError};

fn stamps(seconds: u64) -> Option<FileTimes> {
    Some(FileTimes { modified: TimeReading::At(seconds), created: TimeReading::At(seconds) })
}

fn entry(path: &str, file_type: Option<FileKind>, metadata: Option<FileTimes>) -> WalkEntry {
    WalkEntry { path: String::from(path), file_type, contents_unreadable: false, metadata }
}

fn directory(path: &str) -> WalkItem {
    WalkItem::Found(entry(path, Some(FileKind::Directory), stamps(1)))
}

fn file(path: &str, seconds: u64) -> WalkItem {
    WalkItem::Found(entry(path, Some(FileKind::File), stamps(seconds)))
}

fn candidate(path: &str, seconds: u64) -> FileCandidate {
    FileCandidate { path: String::from(path), metadata: stamps(seconds) }
}

#[test]
fn is_file_holds_of_regular_files_only() {
    assert!(is_file(&entry("a", Some(FileKind::File), None)));
    assert!(!is_file(&entry("a", Some(FileKind::Directory), None)));
    assert!(!is_file(&entry("a", Some(FileKind::Symlink), None)));
    assert!(!is_file(&entry("a", Some(FileKind::Other), None)));
}

#[test]
fn is_file_fails_where_the_kind_is_unknown() {
    assert!(!is_file(&entry("a", None, None)));
    assert!(!is_file(&entry("a", None, stamps(5))));
}

#[test]
fn root_of_an_empty_walk_is_inaccessible() {
    assert!(!root_is_accessible(&Vec::new()));
}

#[test]
fn root_that_could_not_be_listed_is_inaccessible() {
    assert!(!root_is_accessible(&vec![WalkItem::Failed]));
    assert!(!root_is_accessible(&vec![WalkItem::Failed, file("root/a", 1)]));
}

#[test]
fn root_that_is_no_directory_is_inaccessible() {
    assert!(!root_is_accessible(&vec![file("root", 1)]));
    assert!(!root_is_accessible(&vec![WalkItem::Found(entry("root", None, None))]));
    assert!(!root_is_accessible(&vec![WalkItem::Found(entry(
        "root",
        Some(FileKind::Symlink),
        None
    ))]));
    assert!(!root_is_accessible(&vec![WalkItem::Found(entry(
        "root",
        Some(FileKind::Other),
        None
    ))]));
}

#[test]
fn root_whose_contents_cannot_be_read_is_inaccessible() {
    let mut root = entry("root", Some(FileKind::Directory), stamps(1));
    root.contents_unreadable = true;
    assert!(!root_is_accessible(&vec![WalkItem::Found(root)]));
}

#[test]
fn root_that_is_a_readable_directory_is_accessible() {
    assert!(root_is_accessible(&vec![directory("root")]));
    assert!(root_is_accessible(&vec![directory("root"), WalkItem::Failed]));
    assert!(root_is_accessible(&vec![WalkItem::Found(entry(
        "root",
        Some(FileKind::Directory),
        None
    ))]));
}

#[test]
fn collect_candidates_fails_on_an_inaccessible_root() {
    assert_eq!(collect_candidates(&Vec::new(), "root"), Err(WalkError::RootInaccessible));
    assert_eq!(
        collect_candidates(&vec![WalkItem::Failed], "root"),
        Err(WalkError::RootInaccessible)
    );
    assert_eq!(
        collect_candidates(&vec![file("root", 1), file("root/a", 2)], "root"),
        Err(WalkError::RootInaccessible)
    );
}

#[test]
fn collect_candidates_keeps_the_regular_files() {
    let items = vec![
        directory("root"),
        file("root/a", 1),
        directory("root/sub"),
        file("root/sub/b", 2),
        WalkItem::Found(entry("root/link", Some(FileKind::Symlink), stamps(3))),
        WalkItem::Found(entry("root/pipe", Some(FileKind::Other), stamps(4))),
        WalkItem::Found(entry("root/unknown", None, stamps(5))),
        file("root/c", 6),
    ];
    assert_eq!(
        collect_candidates(&items, "root"),
        Ok(vec![candidate("root/a", 1), candidate("root/sub/b", 2), candidate("root/c", 6)])
    );
}

#[test]
fn collect_candidates_passes_over_what_could_not_be_listed() {
    let items = vec![
        directory("root"),
        WalkItem::Failed,
        file("root/a", 1),
        WalkItem::Failed,
        WalkItem::Failed,
        file("root/b", 2),
        WalkItem::Failed,
    ];
    assert_eq!(
        collect_candidates(&items, "root"),
        Ok(vec![candidate("root/a", 1), candidate("root/b", 2)])
    );
}

#[test]
fn collect_candidates_passes_over_hidden_files() {
    let items = vec![directory("root"), file("root/.D", 400), file("root/a", 1)];
    assert_eq!(collect_candidates(&items, "root"), Ok(vec![candidate("root/a", 1)]));
}

#[test]
fn collect_candidates_passes_over_what_lies_below_a_hidden_directory() {
    let items = vec![
        directory("root"),
        directory("root/.git"),
        file("root/.git/config", 9),
        file("root/.git/objects/ab/cdef", 9),
        file("root/src/.cache/x", 9),
        file("root/src/main.rs", 3),
    ];
    assert_eq!(collect_candidates(&items, "root"), Ok(vec![candidate("root/src/main.rs", 3)]));
}

#[test]
fn collect_candidates_does_not_mind_a_hidden_root() {
    let items = vec![
        directory("/home/me/.config"),
        file("/home/me/.config/a.toml", 1),
        file("/home/me/.config/.secret", 2),
    ];
    assert_eq!(
        collect_candidates(&items, "/home/me/.config"),
        Ok(vec![candidate("/home/me/.config/a.toml", 1)])
    );
    let here = vec![directory("."), file("./a", 1), file("./.b", 2)];
    assert_eq!(collect_candidates(&here, "."), Ok(vec![candidate("./a", 1)]));
}

#[test]
fn collect_candidates_keeps_files_whose_metadata_is_missing() {
    let items = vec![
        directory("root"),
        WalkItem::Found(entry("root/a", Some(FileKind::File), None)),
        WalkItem::Found(entry(
            "root/b",
            Some(FileKind::File),
            Some(FileTimes { modified: TimeReading::Unavailable, created: TimeReading::BeforeEpoch }),
        )),
    ];
    assert_eq!(
        collect_candidates(&items, "root"),
        Ok(vec![
            FileCandidate { path: String::from("root/a"), metadata: None },
            FileCandidate {
                path: String::from("root/b"),
                metadata: Some(FileTimes {
                    modified: TimeReading::Unavailable,
                    created: TimeReading::BeforeEpoch
                }),
            },
        ])
    );
}

#[test]
fn collect_candidates_of_a_root_without_files_is_empty() {
    assert_eq!(collect_candidates(&vec![directory("root")], "root"), Ok(Vec::new()));
    let items = vec![directory("root"), directory("root/a"), directory("root/a/b")];
    assert_eq!(collect_candidates(&items, "root"), Ok(Vec::new()));
}

#[test]
fn collect_candidates_goes_on_below_a_directory_that_cannot_be_read() {
    let mut locked = entry("root/locked", Some(FileKind::Directory), stamps(1));
    locked.contents_unreadable = true;
    let items = vec![directory("root"), WalkItem::Found(locked), file("root/a", 1)];
    assert_eq!(collect_candidates(&items, "root"), Ok(vec![candidate("root/a", 1)]));
}
